//! The runtime engine: owns the memory store, the event registry, the
//! periodic blocks, the pending queue and the active call stack, and drives
//! loading, running, ticking and event dispatch. Responses and tick markers
//! are appended to an output list that the host renders; the recursion guard
//! on event dispatch makes re-entrant triggers a no-op.

use vstd::prelude::*;
use crate::ast::{AstNode, NodeV, node_v, nodes_v};
use crate::logger::Logger;
use crate::memory::{MemoryStore, spec_flat};
use crate::memory::{ScopeV, find_scope};
use crate::strutil::{
    str_eq, string_from_chars, u32_string, chars_of, trim_quote_chars, strs_of, spec_dec_digits,
    spec_trim_quotes,
};
use crate::utils::{resolve_key_or_expression, spec_resolve_key_or_expression};

verus! {

/// A block declared with `every N`: its positive interval and its body.
pub struct PeriodicBlock {
    pub interval: u32,
    pub node: AstNode,
}

/// The engine.
pub struct Runtime {
    pub memory: MemoryStore,
    pub logger: Logger,
    pub event_registry: Vec<(String, AstNode)>,
    pub execution_queue: Vec<AstNode>,
    pub every_blocks: Vec<PeriodicBlock>,
    pub tick_counter: u32,
    pub event_stack: Vec<String>,
    pub promote_on_tick: bool,
    pub outputs: Vec<String>,
}

/// The size of a node, descendants included.
pub open spec fn node_size(n: NodeV) -> nat
    decreases n,
{
    1 + nodes_size(n.children)
}

/// The total size of a forest.
pub open spec fn nodes_size(s: Seq<NodeV>) -> nat
    decreases s,
{
    if s.len() == 0 {
        0
    } else {
        node_size(s[0]) + nodes_size(s.drop_first())
    }
}

proof fn lemma_nodes_size_index(s: Seq<NodeV>, i: int)
    requires
        0 <= i < s.len(),
    ensures
        node_size(s[i]) <= nodes_size(s),
    decreases s.len(),
{
    if i == 0 {
    } else {
        lemma_nodes_size_index(s.drop_first(), i - 1);
        assert(s.drop_first()[i - 1] == s[i]);
    }
}

/// Case-insensitive match for the word "true", as the promotion toggles
/// accept it.
pub open spec fn spec_is_true_word(w: Seq<char>) -> bool {
    w.len() == 4 && (w[0] == 't' || w[0] == 'T') && (w[1] == 'r' || w[1] == 'R') && (w[2] == 'u'
        || w[2] == 'U') && (w[3] == 'e' || w[3] == 'E')
}

fn is_true_word(w: &str) -> (r: bool)
    ensures
        r == spec_is_true_word(w@),
{
    let n = w.unicode_len();
    if n != 4 {
        return false;
    }
    let c0 = w.get_char(0);
    let c1 = w.get_char(1);
    let c2 = w.get_char(2);
    let c3 = w.get_char(3);
    (c0 == 't' || c0 == 'T') && (c1 == 'r' || c1 == 'R') && (c2 == 'u' || c2 == 'U') && (c3 == 'e'
        || c3 == 'E')
}

/// The registered events, as name/body pairs.
pub open spec fn reg_v(s: Seq<(String, AstNode)>) -> Seq<(Seq<char>, NodeV)>
    decreases s.len(),
{
    if s.len() == 0 {
        Seq::empty()
    } else {
        reg_v(s.drop_last()).push((s.last().0@, node_v(s.last().1)))
    }
}

/// The periodic blocks, as interval/body pairs.
pub open spec fn blocks_v(s: Seq<PeriodicBlock>) -> Seq<(int, NodeV)>
    decreases s.len(),
{
    if s.len() == 0 {
        Seq::empty()
    } else {
        blocks_v(s.drop_last()).push((s.last().interval as int, node_v(s.last().node)))
    }
}

pub broadcast proof fn reg_v_len(s: Seq<(String, AstNode)>)
    ensures
        (#[trigger] reg_v(s)).len() == s.len(),
    decreases s.len(),
{
    if s.len() > 0 {
        reg_v_len(s.drop_last());
    }
}

pub broadcast proof fn reg_v_index(s: Seq<(String, AstNode)>, i: int)
    requires
        0 <= i < s.len(),
    ensures
        #[trigger] reg_v(s)[i] == (s[i].0@, node_v(s[i].1)),
    decreases s.len(),
{
    reg_v_len(s);
    if i < s.len() - 1 {
        reg_v_index(s.drop_last(), i);
        assert(s.drop_last()[i] == s[i]);
        reg_v_len(s.drop_last());
    }
}

pub broadcast proof fn blocks_v_len(s: Seq<PeriodicBlock>)
    ensures
        (#[trigger] blocks_v(s)).len() == s.len(),
    decreases s.len(),
{
    if s.len() > 0 {
        blocks_v_len(s.drop_last());
    }
}

pub broadcast proof fn blocks_v_index(s: Seq<PeriodicBlock>, i: int)
    requires
        0 <= i < s.len(),
    ensures
        #[trigger] blocks_v(s)[i] == (s[i].interval as int, node_v(s[i].node)),
    decreases s.len(),
{
    blocks_v_len(s);
    if i < s.len() - 1 {
        blocks_v_index(s.drop_last(), i);
        assert(s.drop_last()[i] == s[i]);
        blocks_v_len(s.drop_last());
    }
}

proof fn lemma_reg_find_at(regv: Seq<(Seq<char>, NodeV)>, name: Seq<char>, i: int)
    requires
        0 <= i < regv.len(),
        regv[i].0 == name,
        forall|j: int| i < j < regv.len() ==> (#[trigger] regv[j]).0 != name,
    ensures
        reg_find(regv, name) == Some(regv[i].1),
    decreases regv.len(),
{
    if i < regv.len() - 1 {
        assert(regv.last().0 != name);
        lemma_reg_find_at(regv.drop_last(), name, i);
        assert(regv.drop_last()[i] == regv[i]);
        assert(forall|j: int|
            i < j < regv.drop_last().len() ==> (#[trigger] regv.drop_last()[j]).0 != name);
    }
}

proof fn lemma_reg_find_none(regv: Seq<(Seq<char>, NodeV)>, name: Seq<char>)
    requires
        forall|j: int| 0 <= j < regv.len() ==> (#[trigger] regv[j]).0 != name,
    ensures
        reg_find(regv, name) is None,
    decreases regv.len(),
{
    if regv.len() > 0 {
        assert(forall|j: int|
            0 <= j < regv.drop_last().len() ==> (#[trigger] regv.drop_last()[j]).0 != name);
        lemma_reg_find_none(regv.drop_last(), name);
    }
}

proof fn lemma_sset_strs_contains(s: Seq<String>, n: Seq<char>)
    ensures
        sset(strs_of(s)).contains(n) <==> exists|i: int| 0 <= i < s.len() && s[i]@ == n,
    decreases s.len(),
{
    broadcast use crate::strutil::strs_of_len, crate::strutil::strs_of_index;

    if s.len() > 0 {
        lemma_sset_strs_contains(s.drop_last(), n);
        assert(strs_of(s).drop_last() =~= strs_of(s.drop_last()));
        assert(strs_of(s).last() == s.last()@);
        if s.last()@ == n {
            assert(s[s.len() - 1]@ == n);
        } else if sset(strs_of(s)).contains(n) {
            let i = choose|i: int| 0 <= i < s.drop_last().len() && s.drop_last()[i]@ == n;
            assert(s[i]@ == n);
        } else {
            assert forall|i: int| 0 <= i < s.len() implies s[i]@ != n by {
                if i < s.len() - 1 {
                    assert(s.drop_last()[i] == s[i]);
                }
            }
        }
    }
}

/// Names joined with " > ", first to last.
pub open spec fn spec_join_list(s: Seq<Seq<char>>) -> Seq<char>
    decreases s.len(),
{
    if s.len() == 0 {
        Seq::empty()
    } else if s.len() == 1 {
        s[0]
    } else {
        spec_join_list(s.drop_last()).add(" > "@).add(s.last())
    }
}

/// The registered event names, in registration order.
pub open spec fn reg_name_list(reg: Seq<(Seq<char>, NodeV)>) -> Seq<Seq<char>>
    decreases reg.len(),
{
    if reg.len() == 0 {
        Seq::empty()
    } else {
        reg_name_list(reg.drop_last()).push(reg.last().0)
    }
}

/// The lines a `reflect` statement emits: the views that are deterministic
/// in the execution state. The stores' key-to-value contents and the trace
/// buffer are rendered by the host from the public accessors, since the
/// abstract map view carries no entry order and the log lives outside the
/// execution state.
pub open spec fn spec_reflect_lines(
    reg: Seq<(Seq<char>, NodeV)>,
    pflag: bool,
    stack: Seq<Seq<char>>,
    mem: Seq<ScopeV>,
    n: NodeV,
) -> Seq<Seq<char>> {
    if n.value == "stack"@ {
        seq!["[REFLECT stack] "@.add(spec_join_list(stack))]
    } else if n.value == "event"@ {
        seq!["[REFLECT event] "@.add(spec_join_list(reg_name_list(reg)))]
    } else if n.value == "flags"@ {
        seq![
            "[REFLECT flags] promote_on_tick: "@.add(
                if pflag {
                    "true"@
                } else {
                    "false"@
                },
            ).add(" scope chain: ["@).add(crate::memory::spec_join_names(mem)).add("]"@),
        ]
    } else {
        Seq::empty()
    }
}

/// An `every` interval with an optional leading plus sign, as integer
/// parsing accepts it.
pub open spec fn spec_interval_digits(s: Seq<char>) -> Seq<char> {
    if s.len() > 0 && s[0] == '+' {
        s.drop_first()
    } else {
        s
    }
}

/// What loading adds, node by node: `on` nodes register, `every` nodes with a
/// positive in-range interval become periodic blocks, `set promote_always`
/// with a modifier resolves the flag, every other node joins the queue in
/// source order.
pub open spec fn spec_load(
    nodes: Seq<NodeV>,
    reg: Seq<(Seq<char>, NodeV)>,
    blocks: Seq<(int, NodeV)>,
    queue: Seq<NodeV>,
    flag: Option<bool>,
) -> (Seq<(Seq<char>, NodeV)>, Seq<(int, NodeV)>, Seq<NodeV>, Option<bool>)
    decreases nodes.len(),
{
    if nodes.len() == 0 {
        (reg, blocks, queue, flag)
    } else {
        let n = nodes[0];
        let step: (Seq<(Seq<char>, NodeV)>, Seq<(int, NodeV)>, Seq<NodeV>, Option<bool>) = if n.typ
            == "on"@ {
            (reg.push((n.value, n)), blocks, queue, flag)
        } else if n.typ == "every"@ {
            let digits = spec_interval_digits(n.value);
            if crate::strutil::spec_all_digits(digits) && crate::strutil::spec_digits_val(digits)
                <= u32::MAX as nat && crate::strutil::spec_digits_val(digits) > 0 {
                (
                    reg,
                    blocks.push((crate::strutil::spec_digits_val(digits) as int, n)),
                    queue,
                    flag,
                )
            } else {
                (reg, blocks, queue, flag)
            }
        } else if n.typ == "set"@ {
            if n.value == "promote_always"@ && n.modifiers.len() > 0 {
                (reg, blocks, queue, Some(spec_is_true_word(n.modifiers[0])))
            } else {
                (reg, blocks, queue, flag)
            }
        } else {
            (reg, blocks, queue.push(n), flag)
        };
        spec_load(nodes.drop_first(), step.0, step.1, step.2, step.3)
    }
}

/// The names of the registered events, over abstract values.
pub open spec fn sreg_names(reg: Seq<(Seq<char>, NodeV)>) -> Set<Seq<char>>
    decreases reg.len(),
{
    if reg.len() == 0 {
        Set::empty()
    } else {
        sreg_names(reg.drop_last()).insert(reg.last().0)
    }
}

/// The set of names in a list, over abstract values.
pub open spec fn sset(s: Seq<Seq<char>>) -> Set<Seq<char>>
    decreases s.len(),
{
    if s.len() == 0 {
        Set::empty()
    } else {
        sset(s.drop_last()).insert(s.last())
    }
}

/// The registered handler for a name: the most recent registration wins.
pub open spec fn reg_find(reg: Seq<(Seq<char>, NodeV)>, name: Seq<char>) -> Option<NodeV>
    decreases reg.len(),
{
    if reg.len() == 0 {
        None
    } else if reg.last().0 == name {
        Some(reg.last().1)
    } else {
        reg_find(reg.drop_last(), name)
    }
}

/// How many registered names are not on the call stack, over abstract
/// values: the measure of event dispatch.
pub open spec fn sfree(reg: Seq<(Seq<char>, NodeV)>, stack: Seq<Seq<char>>) -> nat {
    sreg_names(reg).difference(sset(stack)).len()
}

proof fn lemma_sreg_names_finite(reg: Seq<(Seq<char>, NodeV)>)
    ensures
        sreg_names(reg).finite(),
    decreases reg.len(),
{
    if reg.len() > 0 {
        lemma_sreg_names_finite(reg.drop_last());
    }
}

proof fn lemma_reg_find_in_names(reg: Seq<(Seq<char>, NodeV)>, name: Seq<char>)
    requires
        reg_find(reg, name) is Some,
    ensures
        sreg_names(reg).contains(name),
    decreases reg.len(),
{
    if reg.len() > 0 && reg.last().0 != name {
        lemma_reg_find_in_names(reg.drop_last(), name);
    }
}

proof fn lemma_sfree_decreases(reg: Seq<(Seq<char>, NodeV)>, stack: Seq<Seq<char>>, x: Seq<char>)
    requires
        sreg_names(reg).contains(x),
        !sset(stack).contains(x),
    ensures
        sfree(reg, stack.push(x)) < sfree(reg, stack),
{
    lemma_sreg_names_finite(reg);
    assert(stack.push(x).drop_last() =~= stack);
    let d1 = sreg_names(reg).difference(sset(stack));
    let d2 = sreg_names(reg).difference(sset(stack.push(x)));
    assert(d2 =~= d1.remove(x));
    assert(d1.contains(x));
    vstd::set_lib::lemma_len_subset(d1, sreg_names(reg));
    assert(d1.remove(x).len() == d1.len() - 1);
}

/// The value and modifiers of a node joined with single spaces.
pub open spec fn spec_joined(value: Seq<char>, mods: Seq<Seq<char>>) -> Seq<char>
    decreases mods.len(),
{
    if mods.len() == 0 {
        value
    } else {
        spec_joined(value, mods.drop_last()).add(" "@).add(mods.last())
    }
}

/// The `as`/`to` modifier scan of a `load` node: `as` renames the target
/// key, `to global` redirects the write to the global scope; each consumes
/// its argument.
pub open spec fn spec_load_opts(mods: Seq<Seq<char>>, i: int, key: Seq<char>, glob: bool) -> (
    Seq<char>,
    bool,
)
    decreases mods.len() - i,
    when 0 <= i
{
    if i >= mods.len() {
        (key, glob)
    } else if mods[i] == "as"@ {
        if i + 1 < mods.len() {
            spec_load_opts(mods, i + 2, mods[i + 1], glob)
        } else {
            spec_load_opts(mods, i + 1, key, glob)
        }
    } else if mods[i] == "to"@ {
        if i + 1 < mods.len() {
            spec_load_opts(mods, i + 2, key, glob || mods[i + 1] == "global"@)
        } else {
            spec_load_opts(mods, i + 1, key, glob)
        }
    } else {
        spec_load_opts(mods, i + 1, key, glob)
    }
}

/// The scope stack after a write into the top scope.
pub open spec fn spec_set_top(stack: Seq<ScopeV>, k: Seq<char>, v: Seq<char>) -> Seq<ScopeV> {
    stack.update(
        stack.len() - 1,
        ScopeV { name: stack.last().name, data: stack.last().data.insert(k, v) },
    )
}

/// The scope stack after a targeted write: into the bottom scope when
/// `glob`, into the top scope otherwise.
pub open spec fn spec_set_target(stack: Seq<ScopeV>, k: Seq<char>, v: Seq<char>, glob: bool) -> Seq<
    ScopeV,
> {
    if glob {
        stack.update(0, ScopeV { name: stack[0].name, data: stack[0].data.insert(k, v) })
    } else {
        spec_set_top(stack, k, v)
    }
}

/// The scope stack after a by-name promotion: the first scope named `from`
/// is copied into the first named `to`, overwrite semantics; nothing happens
/// when either name is absent.
pub open spec fn spec_promote_by_name(stack: Seq<ScopeV>, from: Seq<char>, to: Seq<char>) -> Seq<
    ScopeV,
> {
    if find_scope(stack, from) < stack.len() && find_scope(stack, to) < stack.len() {
        stack.update(
            find_scope(stack, to),
            ScopeV {
                name: to,
                data: stack[find_scope(stack, to)].data.union_prefer_right(
                    stack[find_scope(stack, from)].data,
                ),
            },
        )
    } else {
        stack
    }
}

/// The scope stack after leaving the top scope: popped unless only "global"
/// remains, with the popped bindings copied into the bottom scope when the
/// promotion flag is set.
pub open spec fn spec_exit(stack: Seq<ScopeV>, mflag: bool) -> Seq<ScopeV> {
    if stack.len() > 1 {
        if mflag {
            stack.drop_last().update(
                0,
                ScopeV {
                    name: stack[0].name,
                    data: stack[0].data.union_prefer_right(stack.last().data),
                },
            )
        } else {
            stack.drop_last()
        }
    } else {
        stack
    }
}

/// What executing one node does to the scope stack and the outputs, and
/// whether it was a `stop`: conditionals gate their children on the resolved
/// value, responses render against the flat view, triggers dispatch, loads
/// and remembers write memory, and unrecognized types run their children.
/// The call stack never changes across a node, so it is a plain parameter.
pub open spec fn spec_exec_node(
    reg: Seq<(Seq<char>, NodeV)>,
    pflag: bool,
    mflag: bool,
    stack: Seq<Seq<char>>,
    mem: Seq<ScopeV>,
    out: Seq<Seq<char>>,
    n: NodeV,
) -> (Seq<ScopeV>, Seq<Seq<char>>, bool)
    decreases sfree(reg, stack), node_size(n), 1nat,
{
    let flat = spec_flat(mem);
    if n.typ == "if"@ || n.typ == "unless"@ {
        match crate::utils::spec_resolve_key_or_expression(n.value, flat) {
            Ok(v) => {
                let run = if n.typ == "if"@ {
                    v != "0"@
                } else {
                    v == "0"@
                };
                if run {
                    let r = spec_exec_children(reg, pflag, mflag, stack, mem, out, n.children);
                    (r.0, r.1, false)
                } else {
                    (mem, out, false)
                }
            },
            Err(_) => (mem, out, false),
        }
    } else if n.typ == "respond"@ {
        (
            mem,
            out.push(crate::math::spec_math_subst(spec_joined(n.value, n.modifiers), 0, flat)),
            false,
        )
    } else if n.typ == "respond_event"@ {
        match crate::utils::spec_resolve_key_or_expression(n.value, flat) {
            Ok(v) => (mem, out.push(v), false),
            Err(_) => (mem, out, false),
        }
    } else if n.typ == "trigger"@ {
        let name = spec_trim_quotes(crate::math::spec_math_subst(n.value, 0, flat));
        let r = spec_trigger(reg, pflag, mflag, stack, mem, out, name);
        (r.0, r.1, false)
    } else if n.typ == "load"@ {
        let opts = spec_load_opts(n.modifiers, 0, n.value, false);
        match crate::utils::spec_resolve_key_or_expression(n.value, flat) {
            Ok(v) => (spec_set_target(mem, opts.0, v, opts.1), out, false),
            Err(_) => {
                let fk = if n.modifiers.len() > 0 {
                    n.modifiers[0]
                } else {
                    n.value
                };
                (spec_set_target(mem, fk, n.value, false), out, false)
            },
        }
    } else if n.typ == "remember"@ {
        (spec_set_top(mem, n.value, "0"@), out, false)
    } else if n.typ == "wait"@ {
        (mem, out.push("[WAIT]"@), false)
    } else if n.typ == "reflect"@ {
        (mem, out.add(spec_reflect_lines(reg, pflag, stack, mem, n)), false)
    } else if n.typ == "stop"@ {
        (mem, out, true)
    } else {
        let r = spec_exec_children(reg, pflag, mflag, stack, mem, out, n.children);
        (r.0, r.1, false)
    }
}

/// What executing a run of siblings does: each in order, ending early at a
/// `stop`.
pub open spec fn spec_exec_children(
    reg: Seq<(Seq<char>, NodeV)>,
    pflag: bool,
    mflag: bool,
    stack: Seq<Seq<char>>,
    mem: Seq<ScopeV>,
    out: Seq<Seq<char>>,
    children: Seq<NodeV>,
) -> (Seq<ScopeV>, Seq<Seq<char>>)
    decreases sfree(reg, stack), nodes_size(children), 2nat,
    via spec_exec_children_dec
{
    if children.len() == 0 {
        (mem, out)
    } else {
        let r = spec_exec_node(reg, pflag, mflag, stack, mem, out, children[0]);
        if r.2 {
            (r.0, r.1)
        } else {
            spec_exec_children(reg, pflag, mflag, stack, r.0, r.1, children.drop_first())
        }
    }
}

#[via_fn]
proof fn spec_exec_children_dec(
    reg: Seq<(Seq<char>, NodeV)>,
    pflag: bool,
    mflag: bool,
    stack: Seq<Seq<char>>,
    mem: Seq<ScopeV>,
    out: Seq<Seq<char>>,
    children: Seq<NodeV>,
) {
    if children.len() > 0 {
        assert(nodes_size(children) == node_size(children[0]) + nodes_size(children.drop_first()));
        assert(node_size(children[0]) >= 1);
    }
}

/// What dispatching an event does: a name already on the call stack changes
/// nothing; a registered name runs its handler's children in a fresh
/// "event:" scope with the name pushed, promotes that scope for "start"
/// under the engine flag, and leaves the scope; an unregistered name runs
/// the "missing" handler, if any and not itself active, with `event_name`
/// bound to the unresolved name.
pub open spec fn spec_trigger(
    reg: Seq<(Seq<char>, NodeV)>,
    pflag: bool,
    mflag: bool,
    stack: Seq<Seq<char>>,
    mem: Seq<ScopeV>,
    out: Seq<Seq<char>>,
    name: Seq<char>,
) -> (Seq<ScopeV>, Seq<Seq<char>>)
    decreases sfree(reg, stack), 0nat, 0nat,
    via spec_trigger_dec
{
    if sset(stack).contains(name) {
        (mem, out)
    } else {
        match reg_find(reg, name) {
            Some(h) => {
                let sn = "event:"@.add(name);
                let entered = mem.push(ScopeV { name: sn, data: Map::empty() });
                let r = spec_exec_children(
                    reg,
                    pflag,
                    mflag,
                    stack.push(name),
                    entered,
                    out,
                    h.children,
                );
                let promoted = if name == "start"@ && pflag {
                    spec_promote_by_name(r.0, sn, "global"@)
                } else {
                    r.0
                };
                (spec_exit(promoted, mflag), r.1)
            },
            None => {
                match reg_find(reg, "missing"@) {
                    Some(h) => {
                        if sset(stack).contains("missing"@) {
                            (mem, out)
                        } else {
                            let sn = "event:missing:"@.add(name);
                            let entered = mem.push(ScopeV { name: sn, data: Map::empty() });
                            let bound = spec_set_top(entered, "event_name"@, name);
                            let r = spec_exec_children(
                                reg,
                                pflag,
                                mflag,
                                stack.push("missing"@),
                                bound,
                                out,
                                h.children,
                            );
                            (spec_exit(r.0, mflag), r.1)
                        }
                    },
                    None => (mem, out),
                }
            },
        }
    }
}

#[via_fn]
proof fn spec_trigger_dec(
    reg: Seq<(Seq<char>, NodeV)>,
    pflag: bool,
    mflag: bool,
    stack: Seq<Seq<char>>,
    mem: Seq<ScopeV>,
    out: Seq<Seq<char>>,
    name: Seq<char>,
) {
    if !sset(stack).contains(name) {
        if reg_find(reg, name) is Some {
            lemma_reg_find_in_names(reg, name);
            lemma_sfree_decreases(reg, stack, name);
        } else if reg_find(reg, "missing"@) is Some && !sset(stack).contains("missing"@) {
            lemma_reg_find_in_names(reg, "missing"@);
            lemma_sfree_decreases(reg, stack, "missing"@);
        }
    }
}

/// What draining the pending queue does: each node in first-in first-out
/// order, with its descendants.
pub open spec fn spec_run_queue(
    reg: Seq<(Seq<char>, NodeV)>,
    pflag: bool,
    mflag: bool,
    stack: Seq<Seq<char>>,
    mem: Seq<ScopeV>,
    out: Seq<Seq<char>>,
    queue: Seq<NodeV>,
) -> (Seq<ScopeV>, Seq<Seq<char>>)
    decreases queue.len(),
{
    if queue.len() == 0 {
        (mem, out)
    } else {
        let r = spec_exec_node(reg, pflag, mflag, stack, mem, out, queue[0]);
        spec_run_queue(reg, pflag, mflag, stack, r.0, r.1, queue.drop_first())
    }
}

/// What one tick does to the periodic blocks, in declaration order: each
/// block whose interval divides the new count runs its children in a fresh
/// scope named for the tick, promotes it into "global" under the engine
/// flag, and leaves it.
pub open spec fn spec_tick_blocks(
    reg: Seq<(Seq<char>, NodeV)>,
    pflag: bool,
    mflag: bool,
    stack: Seq<Seq<char>>,
    mem: Seq<ScopeV>,
    out: Seq<Seq<char>>,
    blocks: Seq<(int, NodeV)>,
    count: nat,
) -> (Seq<ScopeV>, Seq<Seq<char>>)
    decreases blocks.len(),
{
    if blocks.len() == 0 {
        (mem, out)
    } else {
        let step: (Seq<ScopeV>, Seq<Seq<char>>) = if spec_fires(blocks[0].0, count as int) {
            let sn = "tick:"@.add(spec_dec_digits(count));
            let entered = mem.push(ScopeV { name: sn, data: Map::empty() });
            let r = spec_exec_children(reg, pflag, mflag, stack, entered, out, blocks[0].1.children);
            let promoted = if pflag {
                spec_promote_by_name(r.0, sn, "global"@)
            } else {
                r.0
            };
            (spec_exit(promoted, mflag), r.1)
        } else {
            (mem, out)
        };
        spec_tick_blocks(reg, pflag, mflag, stack, step.0, step.1, blocks.drop_first(), count)
    }
}

proof fn lemma_reg_name_list_len(reg: Seq<(Seq<char>, NodeV)>)
    ensures
        reg_name_list(reg).len() == reg.len(),
    decreases reg.len(),
{
    if reg.len() > 0 {
        lemma_reg_name_list_len(reg.drop_last());
    }
}

proof fn lemma_reg_name_list_index(reg: Seq<(Seq<char>, NodeV)>, i: int)
    requires
        0 <= i < reg.len(),
    ensures
        reg_name_list(reg).len() == reg.len(),
        reg_name_list(reg)[i] == reg[i].0,
    decreases reg.len(),
{
    lemma_reg_name_list_len(reg);
    if i < reg.len() - 1 {
        lemma_reg_name_list_index(reg.drop_last(), i);
        assert(reg.drop_last()[i] == reg[i]);
        lemma_reg_name_list_len(reg.drop_last());
    }
}

/// The given names joined with " > ", first to last.
fn join_names(names: &Vec<String>) -> (r: String)
    ensures
        r@ == spec_join_list(strs_of(names@)),
{
    let n = names.len();
    let mut r = String::new();
    let mut i: usize = 0;
    proof {
        broadcast use crate::strutil::strs_of_len;

        assert(strs_of(names@).take(0) =~= Seq::<Seq<char>>::empty());
    }
    while i < n
        invariant
            n == names@.len(),
            i <= n,
            r@ == spec_join_list(strs_of(names@).take(i as int)),
        decreases n - i,
    {
        let ghost sv = strs_of(names@);
        if i > 0 {
            r.append(" > ");
        }
        r.append(names[i].as_str());
        proof {
            broadcast use crate::strutil::strs_of_len, crate::strutil::strs_of_index;

            assert(sv.take(i + 1).drop_last() =~= sv.take(i as int));
            assert(sv.take(i + 1).last() == names@[i as int]@);
            if i == 0 {
                assert(spec_join_list(sv.take(1)) == sv[0]);
            }
        }
        i += 1;
    }
    proof {
        broadcast use crate::strutil::strs_of_len;

        assert(strs_of(names@).take(n as int) =~= strs_of(names@));
    }
    r
}

impl Runtime {
    /// The store is well formed and every periodic interval is positive.
    pub open spec fn wf(&self) -> bool {
        &&& self.memory.wf()
        &&& forall|i: int|
            0 <= i < self.every_blocks@.len() ==> (#[trigger] self.every_blocks@[i]).interval > 0
    }

    pub fn new(trace_enabled: bool) -> (r: Runtime)
        ensures
            r.wf(),
            r.memory@.len() == 1,
            r.memory@[0].data == Map::<Seq<char>, Seq<char>>::empty(),
            !r.memory.spec_promote_on_tick(),
            r.event_registry@.len() == 0,
            r.execution_queue@.len() == 0,
            r.every_blocks@.len() == 0,
            r.tick_counter == 0,
            r.event_stack@.len() == 0,
            r.promote_on_tick,
            r.outputs@.len() == 0,
    {
        let mut logger = Logger::new();
        logger.set_verbose(trace_enabled);
        Runtime {
            memory: MemoryStore::new(),
            logger,
            event_registry: Vec::new(),
            execution_queue: Vec::new(),
            every_blocks: Vec::new(),
            tick_counter: 0,
            event_stack: Vec::new(),
            promote_on_tick: true,
            outputs: Vec::new(),
        }
    }

    /// Set the promotion flag, on the engine and on the store.
    pub fn set_promote_on_tick(&mut self, value: bool)
        requires
            old(self).wf(),
        ensures
            final(self).wf(),
            final(self).promote_on_tick == value,
            final(self).memory.spec_promote_on_tick() == value,
            final(self).memory@ == old(self).memory@,
            final(self).event_registry@ == old(self).event_registry@,
            final(self).execution_queue@ == old(self).execution_queue@,
            final(self).every_blocks@ == old(self).every_blocks@,
            final(self).tick_counter == old(self).tick_counter,
            final(self).event_stack@ == old(self).event_stack@,
            final(self).outputs@ == old(self).outputs@,
    {
        self.promote_on_tick = value;
        self.memory.set_promote_on_tick(value);
        if value {
            self.logger.debug("[FLAG] promote_on_tick = true");
        } else {
            self.logger.debug("[FLAG] promote_on_tick = false");
        }
    }

    /// The `set promote_always` toggle: same flag, logged.
    pub fn set_promote_always(&mut self, value: bool)
        requires
            old(self).wf(),
        ensures
            final(self).wf(),
            final(self).promote_on_tick == value,
            final(self).memory.spec_promote_on_tick() == value,
            final(self).memory@ == old(self).memory@,
            final(self).event_registry@ == old(self).event_registry@,
            final(self).execution_queue@ == old(self).execution_queue@,
            final(self).every_blocks@ == old(self).every_blocks@,
            final(self).tick_counter == old(self).tick_counter,
            final(self).event_stack@ == old(self).event_stack@,
            final(self).outputs@ == old(self).outputs@,
    {
        if value {
            self.logger.debug("Set promote_always = true");
        } else {
            self.logger.debug("Set promote_always = false");
        }
        self.set_promote_on_tick(value);
    }

    /// Copy the whole top scope into "global" unconditionally.
    pub fn promote_memory(&mut self)
        requires
            old(self).wf(),
        ensures
            final(self).wf(),
            old(self).memory@.len() < 2 ==> final(self).memory@ == old(self).memory@,
            old(self).memory@.len() >= 2 ==> final(self).memory@ == old(self).memory@.update(
                0,
                crate::memory::ScopeV {
                    name: old(self).memory@[0].name,
                    data: old(self).memory@[0].data.union_prefer_right(
                        old(self).memory@.last().data,
                    ),
                },
            ),
            final(self).event_registry@ == old(self).event_registry@,
            final(self).execution_queue@ == old(self).execution_queue@,
            final(self).every_blocks@ == old(self).every_blocks@,
            final(self).tick_counter == old(self).tick_counter,
            final(self).event_stack@ == old(self).event_stack@,
            final(self).outputs@ == old(self).outputs@,
            final(self).promote_on_tick == old(self).promote_on_tick,
    {
        self.memory.promote_all();
    }

    /// Promote when the condition resolves to anything but zero; a condition
    /// that fails to evaluate promotes nothing.
    pub fn promote_memory_if(&mut self, condition: &str)
        requires
            old(self).wf(),
        ensures
            final(self).wf(),
            ({
                let res = spec_resolve_key_or_expression(
                    condition@,
                    spec_flat(old(self).memory@),
                );
                if res matches Ok(v) && v != "0"@ {
                    old(self).memory@.len() < 2 && final(self).memory@ == old(self).memory@ || (old(
                        self,
                    ).memory@.len() >= 2 && final(self).memory@ == old(self).memory@.update(
                        0,
                        crate::memory::ScopeV {
                            name: old(self).memory@[0].name,
                            data: old(self).memory@[0].data.union_prefer_right(
                                old(self).memory@.last().data,
                            ),
                        },
                    ))
                } else {
                    final(self).memory@ == old(self).memory@
                }
            }),
            final(self).event_registry@ == old(self).event_registry@,
            final(self).execution_queue@ == old(self).execution_queue@,
            final(self).every_blocks@ == old(self).every_blocks@,
            final(self).tick_counter == old(self).tick_counter,
            final(self).event_stack@ == old(self).event_stack@,
            final(self).outputs@ == old(self).outputs@,
            final(self).promote_on_tick == old(self).promote_on_tick,
    {
        let res = resolve_key_or_expression(condition, &self.memory);
        match res {
            Ok(val) => {
                if !str_eq(val.as_str(), "0") {
                    proof {
                        reveal_strlit("0");
                    }
                    self.logger.debug("[PROMOTE] condition => true");
                    self.memory.promote_all();
                } else {
                    self.logger.debug("[PROMOTE] condition => false");
                }
            },
            Err(_) => {
                self.logger.warn("[PROMOTE] Failed to evaluate condition");
            },
        }
    }

    /// Classify the loaded nodes: events register, periodic blocks gather,
    /// the promotion toggle applies at once, everything else queues in
    /// source order. A bad `every` interval is logged and its block dropped.
    pub fn load_script(&mut self, ast_nodes: Vec<AstNode>)
        requires
            old(self).wf(),
        ensures
            final(self).wf(),
            ({
                let out = spec_load(
                    nodes_v(ast_nodes@),
                    reg_v(old(self).event_registry@),
                    blocks_v(old(self).every_blocks@),
                    nodes_v(old(self).execution_queue@),
                    None,
                );
                &&& reg_v(final(self).event_registry@) == out.0
                &&& blocks_v(final(self).every_blocks@) == out.1
                &&& nodes_v(final(self).execution_queue@) == out.2
                &&& final(self).promote_on_tick == (match out.3 {
                    Some(b) => b,
                    None => old(self).promote_on_tick,
                })
                &&& final(self).memory.spec_promote_on_tick() == (match out.3 {
                    Some(b) => b,
                    None => old(self).memory.spec_promote_on_tick(),
                })
            }),
            final(self).memory@ == old(self).memory@,
            final(self).tick_counter == old(self).tick_counter,
            final(self).event_stack@ == old(self).event_stack@,
            final(self).outputs@ == old(self).outputs@,
    {
        let ghost nv0 = nodes_v(ast_nodes@);
        let ghost reg0 = reg_v(self.event_registry@);
        let ghost blocks0 = blocks_v(self.every_blocks@);
        let ghost queue0 = nodes_v(self.execution_queue@);
        let mut nodes = ast_nodes;
        let ghost mut gflag: Option<bool> = None;
        proof {
            assert(nv0.skip(0) =~= nv0);
            broadcast use crate::ast::nodes_v_len;

        }
        while nodes.len() > 0
            invariant
                self.wf(),
                old(self).wf(),
                nodes_v(nodes@) == nv0.skip(nv0.len() - nodes@.len()),
                nodes@.len() <= nv0.len(),
                spec_load(nv0, reg0, blocks0, queue0, None) == spec_load(
                    nodes_v(nodes@),
                    reg_v(self.event_registry@),
                    blocks_v(self.every_blocks@),
                    nodes_v(self.execution_queue@),
                    gflag,
                ),
                self.promote_on_tick == (match gflag {
                    Some(b) => b,
                    None => old(self).promote_on_tick,
                }),
                self.memory.spec_promote_on_tick() == (match gflag {
                    Some(b) => b,
                    None => old(self).memory.spec_promote_on_tick(),
                }),
                self.memory@ == old(self).memory@,
                self.tick_counter == old(self).tick_counter,
                self.event_stack@ == old(self).event_stack@,
                self.outputs@ == old(self).outputs@,
            decreases nodes@.len(),
        {
            let ghost nodes_raw = nodes@;
            let ghost cur = nodes_v(nodes@);
            let node = nodes.remove(0);
            proof {
                broadcast use crate::ast::nodes_v_len, crate::ast::nodes_v_index;

                assert(nodes@ =~= nodes_raw.drop_first());
                assert forall|j: int| 0 <= j < nodes@.len() implies nodes_v(nodes@)[j] == cur[j
                    + 1] by {
                    assert(nodes@[j] == nodes_raw[j + 1]);
                }
                assert(nodes_v(nodes@) =~= cur.drop_first());
                assert(cur.drop_first() =~= nv0.skip(nv0.len() - nodes_raw.len() + 1));
                assert(cur[0] == node_v(node));
            }
            let ghost n_v = node_v(node);
            if str_eq(node.node_type.as_str(), "on") {
                let ghost rraw = self.event_registry@;
                let name = node.value.clone();
                self.event_registry.push((name, node));
                proof {
                    assert(self.event_registry@.drop_last() =~= rraw);
                    assert(reg_v(self.event_registry@) =~= reg_v(rraw).push((n_v.value, n_v)));
                }
            } else if str_eq(node.node_type.as_str(), "every") {
                let raw = chars_of(node.value.as_str());
                let chars = if raw.len() > 0 && raw[0] == '+' {
                    crate::strutil::copy_range(&raw, 1, raw.len())
                } else {
                    crate::strutil::copy_range(&raw, 0, raw.len())
                };
                proof {
                    assert(chars@ =~= spec_interval_digits(n_v.value));
                }
                match crate::strutil::parse_dec_chars(&chars, u32::MAX) {
                    Some(x) => {
                        if x > 0 {
                            let ghost braw = self.every_blocks@;
                            self.every_blocks.push(PeriodicBlock { interval: x, node });
                            proof {
                                assert(self.every_blocks@.drop_last() =~= braw);
                                assert(blocks_v(self.every_blocks@) =~= blocks_v(braw).push(
                                    (x as int, n_v),
                                ));
                                assert(forall|i: int|
                                    0 <= i < self.every_blocks@.len() ==> (#[trigger] self
                                        .every_blocks@[i]).interval > 0);
                            }
                        } else {
                            self.logger.warn("Invalid interval in 'every' block");
                        }
                    },
                    None => {
                        self.logger.warn("Invalid interval in 'every' block");
                    },
                }
            } else if str_eq(node.node_type.as_str(), "set") {
                if str_eq(node.value.as_str(), "promote_always") && node.modifiers.len() > 0 {
                    proof {
                        crate::strutil::strs_of_len(node.modifiers@);
                        crate::strutil::strs_of_index(node.modifiers@, 0);
                    }
                    let v = is_true_word(node.modifiers[0].as_str());
                    self.set_promote_always(v);
                    proof {
                        gflag = Some(v);
                    }
                } else {
                    proof {
                        crate::strutil::strs_of_len(node.modifiers@);
                    }
                }
            } else {
                let ghost qraw = self.execution_queue@;
                self.execution_queue.push(node);
                proof {
                    assert(self.execution_queue@.drop_last() =~= qraw);
                    assert(nodes_v(self.execution_queue@) =~= nodes_v(qraw).push(n_v));
                }
            }
        }
        proof {
            assert(nodes_v(nodes@) =~= Seq::<NodeV>::empty());
            assert(spec_load(
                Seq::<NodeV>::empty(),
                reg_v(self.event_registry@),
                blocks_v(self.every_blocks@),
                nodes_v(self.execution_queue@),
                gflag,
            ) == (
                reg_v(self.event_registry@),
                blocks_v(self.every_blocks@),
                nodes_v(self.execution_queue@),
                gflag,
            ));
        }
    }
}


/// Clone a tree node, children included.
fn clone_ast(n: &AstNode) -> (r: AstNode)
    ensures
        node_v(r) == node_v(*n),
    decreases *n,
{
    let node_type = n.node_type.clone();
    let value = n.value.clone();
    let mut modifiers: Vec<String> = Vec::new();
    let mut mi: usize = 0;
    while mi < n.modifiers.len()
        invariant
            mi <= n.modifiers@.len(),
            crate::strutil::strs_of(modifiers@) =~= crate::strutil::strs_of(n.modifiers@).take(
                mi as int,
            ),
        decreases n.modifiers@.len() - mi,
    {
        let ghost raw_b = modifiers@;
        modifiers.push(n.modifiers[mi].clone());
        proof {
            broadcast use crate::strutil::strs_of_len, crate::strutil::strs_of_index;

            assert(modifiers@.drop_last() =~= raw_b);
            assert(crate::strutil::strs_of(modifiers@) =~= crate::strutil::strs_of(raw_b).push(
                n.modifiers@[mi as int]@,
            ));
        }
        mi += 1;
    }
    proof {
        broadcast use crate::strutil::strs_of_len;

        assert(crate::strutil::strs_of(n.modifiers@).take(
            n.modifiers@.len() as int,
        ) =~= crate::strutil::strs_of(n.modifiers@));
    }
    let mut children: Vec<AstNode> = Vec::new();
    let mut ci: usize = 0;
    while ci < n.children.len()
        invariant
            ci <= n.children@.len(),
            nodes_v(children@) =~= nodes_v(n.children@).take(ci as int),
        decreases n.children@.len() - ci,
    {
        proof {
            broadcast use crate::ast::nodes_v_len, crate::ast::nodes_v_index;

            assert(decreases_to!(*n => n.children));
            assert(decreases_to!(n.children => n.children@));
            assert(decreases_to!(n.children@ => n.children@[ci as int]));
        }
        let c = clone_ast(&n.children[ci]);
        let ghost raw_b = children@;
        children.push(c);
        proof {
            broadcast use crate::ast::nodes_v_len, crate::ast::nodes_v_index;

            assert(children@.drop_last() =~= raw_b);
            assert(nodes_v(children@) =~= nodes_v(raw_b).push(node_v(children@.last())));
        }
        ci += 1;
    }
    proof {
        broadcast use crate::ast::nodes_v_len;

        assert(nodes_v(n.children@).take(n.children@.len() as int) =~= nodes_v(n.children@));
    }
    AstNode { node_type, value, modifiers, children }
}

/// Whether the given tick count fires a block with the given interval.
pub open spec fn spec_fires(interval: int, tick: int) -> bool {
    interval > 0 && tick % interval == 0
}

/// A block with interval three fires exactly at the third, sixth and ninth
/// tick of the first nine: firing is exactly divisibility by the interval.
pub proof fn lemma_interval_three_firing()
    ensures
        forall|t: int| 1 <= t <= 9 ==> (spec_fires(3, t) <==> (t == 3 || t == 6 || t == 9)),
{
    assert forall|t: int| 1 <= t <= 9 implies (spec_fires(3, t) <==> (t == 3 || t == 6 || t == 9)) by {
        assert(3int % 3 == 0 && 6int % 3 == 0 && 9int % 3 == 0);
        assert(1int % 3 != 0 && 2int % 3 != 0 && 4int % 3 != 0 && 5int % 3 != 0 && 7int % 3 != 0
            && 8int % 3 != 0);
    }
}

impl Runtime {
    /// Whether a name is on the active call stack.
    fn stack_contains(&self, name: &str) -> (r: bool)
        ensures
            r == sset(strs_of(self.event_stack@)).contains(name@),
    {
        let n = self.event_stack.len();
        let mut i: usize = 0;
        while i < n
            invariant
                n == self.event_stack@.len(),
                i <= n,
                forall|j: int| 0 <= j < i ==> (#[trigger] self.event_stack@[j])@ != name@,
            decreases n - i,
        {
            if str_eq(self.event_stack[i].as_str(), name) {
                proof {
                    lemma_sset_strs_contains(self.event_stack@, name@);
                }
                return true;
            }
            i += 1;
        }
        proof {
            lemma_sset_strs_contains(self.event_stack@, name@);
        }
        false
    }

    /// The index of the most recent registration of an event name.
    fn find_event(&self, name: &str) -> (r: Option<usize>)
        ensures
            match r {
                Some(i) => i < self.event_registry@.len() && self.event_registry@[i as int].0@
                    == name@ && reg_find(reg_v(self.event_registry@), name@) == Some(
                    node_v(self.event_registry@[i as int].1),
                ),
                None => reg_find(reg_v(self.event_registry@), name@) is None,
            },
    {
        let n = self.event_registry.len();
        let mut i: usize = n;
        while i > 0
            invariant
                n == self.event_registry@.len(),
                i <= n,
                forall|j: int|
                    i <= j < n ==> (#[trigger] self.event_registry@[j]).0@ != name@,
            decreases i,
        {
            i -= 1;
            if str_eq(self.event_registry[i].0.as_str(), name) {
                proof {
                    broadcast use reg_v_len, reg_v_index;

                    let regv = reg_v(self.event_registry@);
                    assert forall|j: int| i < j < regv.len() implies (#[trigger] regv[j]).0
                        != name@ by {
                        assert(regv[j] == (self.event_registry@[j].0@, node_v(
                            self.event_registry@[j].1,
                        )));
                    }
                    lemma_reg_find_at(regv, name@, i as int);
                }
                return Some(i);
            }
        }
        proof {
            broadcast use reg_v_len, reg_v_index;

            let regv = reg_v(self.event_registry@);
            assert forall|j: int| 0 <= j < regv.len() implies (#[trigger] regv[j]).0 != name@ by {
                assert(regv[j] == (self.event_registry@[j].0@, node_v(self.event_registry@[j].1)));
            }
            lemma_reg_find_none(regv, name@);
        }
        None
    }

    /// Execute one node: conditionals gate their children, responses render
    /// into the output list, triggers dispatch events, loads and remembers
    /// write memory, and unrecognized types are transparent grouping. The
    /// result says whether a `stop` was hit, which ends the remaining
    /// siblings of the current context only.
    fn execute_node(&mut self, node: &AstNode) -> (stopped: bool)
        requires
            old(self).wf(),
        ensures
            final(self).wf(),
            final(self).event_registry@ == old(self).event_registry@,
            final(self).every_blocks@ == old(self).every_blocks@,
            final(self).execution_queue@ == old(self).execution_queue@,
            final(self).event_stack@ == old(self).event_stack@,
            final(self).tick_counter == old(self).tick_counter,
            final(self).promote_on_tick == old(self).promote_on_tick,
            final(self).memory.spec_promote_on_tick() == old(self).memory.spec_promote_on_tick(),
            final(self).memory@.len() == old(self).memory@.len(),
            old(self).outputs@.is_prefix_of(final(self).outputs@),
            ({
                let r = spec_exec_node(
                    reg_v(old(self).event_registry@),
                    old(self).promote_on_tick,
                    old(self).memory.spec_promote_on_tick(),
                    strs_of(old(self).event_stack@),
                    old(self).memory@,
                    strs_of(old(self).outputs@),
                    node_v(*node),
                );
                final(self).memory@ == r.0 && strs_of(final(self).outputs@) == r.1 && stopped
                    == r.2
            }),
        decreases sfree(reg_v(old(self).event_registry@), strs_of(old(self).event_stack@)),
            node_size(node_v(*node)),
            1nat,
    {
        let ghost regv = reg_v(old(self).event_registry@);
        let ghost pf = old(self).promote_on_tick;
        let ghost mf = old(self).memory.spec_promote_on_tick();
        let ghost stk = strs_of(old(self).event_stack@);
        let ghost mem0 = old(self).memory@;
        let ghost out0 = strs_of(old(self).outputs@);
        let ghost nv = node_v(*node);
        self.logger.trace("Executing node");
        let t = node.node_type.as_str();
        if str_eq(t, "if") || str_eq(t, "unless") {
            let res = resolve_key_or_expression(node.value.as_str(), &self.memory);
            match res {
                Ok(result) => {
                    let is_if = str_eq(t, "if");
                    let nonzero = !str_eq(result.as_str(), "0");
                    let should_run = if is_if {
                        nonzero
                    } else {
                        !nonzero
                    };
                    self.logger.trace("[EVAL] condition evaluated");
                    if should_run {
                        self.run_children(node);
                    }
                    proof {
                        assert(spec_exec_node(regv, pf, mf, stk, mem0, out0, nv) == (
                            self.memory@,
                            strs_of(self.outputs@),
                            false,
                        ));
                    }
                },
                Err(_) => {
                    self.logger.warn("[EVAL] Failed");
                    proof {
                        assert(spec_exec_node(regv, pf, mf, stk, mem0, out0, nv) == (
                            self.memory@,
                            strs_of(self.outputs@),
                            false,
                        ));
                    }
                },
            }
            false
        } else if str_eq(t, "respond") {
            let mut text = node.value.clone();
            let ghost self_b = *self;
            let ghost mods_v = strs_of(node.modifiers@);
            let mut mi: usize = 0;
            while mi < node.modifiers.len()
                invariant
                    *self == self_b,
                    mi <= node.modifiers@.len(),
                    mods_v == strs_of(node.modifiers@),
                    text@ == spec_joined(node.value@, mods_v.take(mi as int)),
                decreases node.modifiers@.len() - mi,
            {
                text.append(" ");
                text.append(node.modifiers[mi].as_str());
                proof {
                    broadcast use crate::strutil::strs_of_len, crate::strutil::strs_of_index;

                    assert(mods_v.take(mi + 1).drop_last() =~= mods_v.take(mi as int));
                    assert(mods_v.take(mi + 1).last() == node.modifiers@[mi as int]@);
                }
                mi += 1;
            }
            proof {
                broadcast use crate::strutil::strs_of_len;

                assert(mods_v.take(node.modifiers@.len() as int) =~= mods_v);
            }
            let rendered = self.memory.resolve_placeholders(text.as_str());
            self.logger.trace("Respond output recorded");
            let ghost oraw = self.outputs@;
            self.outputs.push(rendered);
            proof {
                assert(self.outputs@.drop_last() =~= oraw);
                assert(strs_of(self.outputs@) =~= out0.push(rendered@));
                assert(spec_exec_node(regv, pf, mf, stk, mem0, out0, nv) == (
                    self.memory@,
                    strs_of(self.outputs@),
                    false,
                ));
            }
            false
        } else if str_eq(t, "respond_event") {
            match resolve_key_or_expression(node.value.as_str(), &self.memory) {
                Ok(result) => {
                    self.logger.trace("Respond_event output recorded");
                    let ghost oraw = self.outputs@;
                    let ghost rv = result@;
                    self.outputs.push(result);
                    proof {
                        assert(self.outputs@.drop_last() =~= oraw);
                        assert(strs_of(self.outputs@) =~= out0.push(rv));
                        assert(spec_exec_node(regv, pf, mf, stk, mem0, out0, nv) == (
                            self.memory@,
                            strs_of(self.outputs@),
                            false,
                        ));
                    }
                },
                Err(_) => {
                    self.logger.warn("Evaluation failed");
                    proof {
                        assert(spec_exec_node(regv, pf, mf, stk, mem0, out0, nv) == (
                            self.memory@,
                            strs_of(self.outputs@),
                            false,
                        ));
                    }
                },
            }
            false
        } else if str_eq(t, "trigger") {
            let rendered = self.memory.resolve_placeholders(node.value.as_str());
            let chars = chars_of(rendered.as_str());
            let trimmed = trim_quote_chars(&chars);
            let event_name = string_from_chars(&trimmed);
            self.logger.trace("Triggering event via 'trigger'");
            proof {
                assert(node_size(node_v(*node)) >= 1);
                assert(event_name@ == spec_trim_quotes(
                    crate::math::spec_math_subst(nv.value, 0, spec_flat(mem0)),
                ));
            }
            self.trigger_event(event_name.as_str());
            proof {
                assert(spec_exec_node(regv, pf, mf, stk, mem0, out0, nv) == (
                    self.memory@,
                    strs_of(self.outputs@),
                    false,
                ));
            }
            false
        } else if str_eq(t, "load") {
            let mut resolved_key: &String = &node.value;
            let mut dest_global = false;
            let ghost self_b = *self;
            let ghost mods_v = strs_of(node.modifiers@);
            let mut i: usize = 0;
            while i < node.modifiers.len()
                invariant
                    *self == self_b,
                    i <= node.modifiers@.len(),
                    mods_v == strs_of(node.modifiers@),
                    spec_load_opts(mods_v, 0, node.value@, false) == spec_load_opts(
                        mods_v,
                        i as int,
                        resolved_key@,
                        dest_global,
                    ),
                decreases node.modifiers@.len() - i,
            {
                let ghost i0 = i as int;
                let ghost key0 = resolved_key@;
                let ghost glob0 = dest_global;
                proof {
                    broadcast use crate::strutil::strs_of_len, crate::strutil::strs_of_index;

                    assert(mods_v[i0] == node.modifiers@[i0]@);
                }
                if str_eq(node.modifiers[i].as_str(), "as") {
                    if i + 1 < node.modifiers.len() {
                        proof {
                            broadcast use crate::strutil::strs_of_len,
                                crate::strutil::strs_of_index;

                            assert(spec_load_opts(mods_v, i0, key0, glob0) == spec_load_opts(
                                mods_v,
                                i0 + 2,
                                mods_v[i0 + 1],
                                glob0,
                            ));
                        }
                        resolved_key = &node.modifiers[i + 1];
                        i += 1;
                    } else {
                        proof {
                            assert(spec_load_opts(mods_v, i0, key0, glob0) == spec_load_opts(
                                mods_v,
                                i0 + 1,
                                key0,
                                glob0,
                            ));
                        }
                    }
                } else if str_eq(node.modifiers[i].as_str(), "to") {
                    if i + 1 < node.modifiers.len() {
                        proof {
                            broadcast use crate::strutil::strs_of_len,
                                crate::strutil::strs_of_index;

                            assert(spec_load_opts(mods_v, i0, key0, glob0) == spec_load_opts(
                                mods_v,
                                i0 + 2,
                                key0,
                                glob0 || mods_v[i0 + 1] == "global"@,
                            ));
                        }
                        if str_eq(node.modifiers[i + 1].as_str(), "global") {
                            dest_global = true;
                        } else {
                            proof {
                                broadcast use crate::strutil::strs_of_len,
                                    crate::strutil::strs_of_index;

                                assert(mods_v[i0 + 1] != "global"@);
                            }
                        }
                        i += 1;
                    } else {
                        proof {
                            assert(spec_load_opts(mods_v, i0, key0, glob0) == spec_load_opts(
                                mods_v,
                                i0 + 1,
                                key0,
                                glob0,
                            ));
                        }
                    }
                } else {
                    proof {
                        assert(spec_load_opts(mods_v, i0, key0, glob0) == spec_load_opts(
                            mods_v,
                            i0 + 1,
                            key0,
                            glob0,
                        ));
                    }
                }
                i += 1;
            }
            proof {
                crate::memory::lemma_store_wf(self.memory);
                broadcast use crate::strutil::strs_of_len;

                assert(spec_load_opts(mods_v, 0, nv.value, false) == (
                    resolved_key@,
                    dest_global,
                ));
            }
            match resolve_key_or_expression(node.value.as_str(), &self.memory) {
                Ok(result) => {
                    self.logger.trace("[PROMOTE] load resolved");
                    if dest_global {
                        self.memory.set_target(resolved_key.as_str(), result.as_str(), Some("global"));
                        proof {
                            reveal_strlit("local");
                            reveal_strlit("global");
                            assert("local"@.len() == 5 && "global"@.len() == 6);
                        }
                    } else {
                        self.memory.set_target(resolved_key.as_str(), result.as_str(), None);
                    }
                    proof {
                        assert(self.memory@ == spec_set_target(
                            mem0,
                            resolved_key@,
                            result@,
                            dest_global,
                        ));
                        assert(spec_exec_node(regv, pf, mf, stk, mem0, out0, nv) == (
                            self.memory@,
                            strs_of(self.outputs@),
                            false,
                        ));
                    }
                },
                Err(_) => {
                    self.logger.warn("[LOAD] Failed to evaluate");
                    let fallback: &String = if node.modifiers.len() > 0 {
                        &node.modifiers[0]
                    } else {
                        &node.value
                    };
                    proof {
                        broadcast use crate::strutil::strs_of_len, crate::strutil::strs_of_index;

                    }
                    self.memory.set_target(fallback.as_str(), node.value.as_str(), None);
                    proof {
                        assert(self.memory@ == spec_set_target(mem0, fallback@, nv.value, false));
                        assert(spec_exec_node(regv, pf, mf, stk, mem0, out0, nv) == (
                            self.memory@,
                            strs_of(self.outputs@),
                            false,
                        ));
                    }
                },
            }
            false
        } else if str_eq(t, "remember") {
            proof {
                crate::memory::lemma_store_wf(self.memory);
            }
            self.memory.set(node.value.as_str(), "0");
            proof {
                assert(self.memory@ == spec_set_top(mem0, nv.value, "0"@));
                assert(spec_exec_node(regv, pf, mf, stk, mem0, out0, nv) == (
                    self.memory@,
                    strs_of(self.outputs@),
                    false,
                ));
            }
            false
        } else if str_eq(t, "wait") {
            // the engine records the request as an output marker; the
            // fixed-duration pause itself is the host's concern, and no
            // engine state changes while it lasts
            self.logger.trace("wait requested");
            let marker = String::from_str("[WAIT]");
            let ghost oraw = self.outputs@;
            self.outputs.push(marker);
            proof {
                assert(self.outputs@.drop_last() =~= oraw);
                assert(strs_of(self.outputs@) =~= out0.push("[WAIT]"@));
                assert(spec_exec_node(regv, pf, mf, stk, mem0, out0, nv) == (
                    self.memory@,
                    strs_of(self.outputs@),
                    false,
                ));
            }
            false
        } else if str_eq(t, "reflect") {
            // the views that are deterministic in the execution state are
            // emitted here; key-to-value contents and the trace buffer are
            // rendered by the host from the public accessors
            self.logger.trace("reflect requested");
            let ghost oraw0 = self.outputs@;
            if str_eq(node.value.as_str(), "stack") {
                let line = String::from_str("[REFLECT stack] ").concat(
                    join_names(&self.event_stack).as_str(),
                );
                let ghost lv = line@;
                self.outputs.push(line);
                proof {
                    assert(self.outputs@.drop_last() =~= oraw0);
                    assert(strs_of(self.outputs@) =~= out0.push(lv));
                    assert(out0.push(lv) =~= out0.add(
                        spec_reflect_lines(regv, pf, stk, mem0, nv),
                    ));
                }
            } else if str_eq(node.value.as_str(), "event") {
                let mut names: Vec<String> = Vec::new();
                let ghost self_b = *self;
                let mut ei: usize = 0;
                while ei < self.event_registry.len()
                    invariant
                        *self == self_b,
                        ei <= self.event_registry@.len(),
                        strs_of(names@) =~= reg_name_list(
                            reg_v(self.event_registry@),
                        ).take(ei as int),
                    decreases self.event_registry@.len() - ei,
                {
                    let ghost nraw = names@;
                    names.push(self.event_registry[ei].0.clone());
                    proof {
                        broadcast use reg_v_len, reg_v_index;
                        broadcast use crate::strutil::strs_of_len, crate::strutil::strs_of_index;

                        let rl = reg_name_list(reg_v(self.event_registry@));
                        lemma_reg_name_list_index(reg_v(self.event_registry@), ei as int);
                        assert(names@.drop_last() =~= nraw);
                        assert(strs_of(names@) =~= strs_of(nraw).push(
                            self.event_registry@[ei as int].0@,
                        ));
                        assert(rl.take(ei + 1) =~= rl.take(ei as int).push(rl[ei as int]));
                    }
                    ei += 1;
                }
                proof {
                    lemma_reg_name_list_len(reg_v(self.event_registry@));
                    broadcast use reg_v_len;

                    assert(reg_name_list(reg_v(self.event_registry@)).take(
                        self.event_registry@.len() as int,
                    ) =~= reg_name_list(reg_v(self.event_registry@)));
                }
                let line = String::from_str("[REFLECT event] ").concat(
                    join_names(&names).as_str(),
                );
                let ghost lv = line@;
                self.outputs.push(line);
                proof {
                    assert(self.outputs@.drop_last() =~= oraw0);
                    assert(strs_of(self.outputs@) =~= out0.push(lv));
                    assert(out0.push(lv) =~= out0.add(
                        spec_reflect_lines(regv, pf, stk, mem0, nv),
                    ));
                }
            } else if str_eq(node.value.as_str(), "flags") {
                let flag_word = if self.promote_on_tick {
                    "true"
                } else {
                    "false"
                };
                let line = String::from_str("[REFLECT flags] promote_on_tick: ").concat(
                    flag_word,
                ).concat(" scope chain: [").concat(self.memory.format_scope_chain().as_str())
                    .concat("]");
                let ghost lv = line@;
                self.outputs.push(line);
                proof {
                    assert(self.outputs@.drop_last() =~= oraw0);
                    assert(strs_of(self.outputs@) =~= out0.push(lv));
                    assert(out0.push(lv) =~= out0.add(
                        spec_reflect_lines(regv, pf, stk, mem0, nv),
                    ));
                }
            } else {
                proof {
                    assert(out0.add(spec_reflect_lines(regv, pf, stk, mem0, nv)) =~= out0);
                }
            }
            proof {
                assert(spec_exec_node(regv, pf, mf, stk, mem0, out0, nv) == (
                    self.memory@,
                    strs_of(self.outputs@),
                    false,
                ));
            }
            false
        } else if str_eq(t, "stop") {
            proof {
                assert(spec_exec_node(regv, pf, mf, stk, mem0, out0, nv) == (
                    self.memory@,
                    strs_of(self.outputs@),
                    true,
                ));
            }
            true
        } else {
            self.run_children(node);
            proof {
                assert(spec_exec_node(regv, pf, mf, stk, mem0, out0, nv) == (
                    self.memory@,
                    strs_of(self.outputs@),
                    false,
                ));
            }
            false
        }
    }

    /// Execute a node's children in order, stopping at a `stop`.
    fn run_children(&mut self, node: &AstNode)
        requires
            old(self).wf(),
        ensures
            final(self).wf(),
            final(self).event_registry@ == old(self).event_registry@,
            final(self).every_blocks@ == old(self).every_blocks@,
            final(self).execution_queue@ == old(self).execution_queue@,
            final(self).event_stack@ == old(self).event_stack@,
            final(self).tick_counter == old(self).tick_counter,
            final(self).promote_on_tick == old(self).promote_on_tick,
            final(self).memory.spec_promote_on_tick() == old(self).memory.spec_promote_on_tick(),
            final(self).memory@.len() == old(self).memory@.len(),
            old(self).outputs@.is_prefix_of(final(self).outputs@),
            ({
                let r = spec_exec_children(
                    reg_v(old(self).event_registry@),
                    old(self).promote_on_tick,
                    old(self).memory.spec_promote_on_tick(),
                    strs_of(old(self).event_stack@),
                    old(self).memory@,
                    strs_of(old(self).outputs@),
                    node_v(*node).children,
                );
                final(self).memory@ == r.0 && strs_of(final(self).outputs@) == r.1
            }),
        decreases sfree(reg_v(old(self).event_registry@), strs_of(old(self).event_stack@)),
            node_size(node_v(*node)),
            0nat,
    {
        let ghost regv = reg_v(old(self).event_registry@);
        let ghost pf = old(self).promote_on_tick;
        let ghost mf = old(self).memory.spec_promote_on_tick();
        let ghost stk = strs_of(old(self).event_stack@);
        let ghost mem0 = old(self).memory@;
        let ghost out0 = strs_of(old(self).outputs@);
        let ghost cv = node_v(*node).children;
        let mut ci: usize = 0;
        let mut halted = false;
        proof {
            broadcast use crate::ast::nodes_v_len;

            assert(cv.skip(0) =~= cv);
        }
        while ci < node.children.len() && !halted
            invariant
                self.wf(),
                old(self).wf(),
                old(self).outputs@.is_prefix_of(self.outputs@),
                ci <= node.children@.len(),
                cv == nodes_v(node.children@),
                regv == reg_v(old(self).event_registry@),
                pf == old(self).promote_on_tick,
                mf == old(self).memory.spec_promote_on_tick(),
                stk == strs_of(old(self).event_stack@),
                mem0 == old(self).memory@,
                out0 == strs_of(old(self).outputs@),
                self.event_registry@ == old(self).event_registry@,
                self.every_blocks@ == old(self).every_blocks@,
                self.execution_queue@ == old(self).execution_queue@,
                self.event_stack@ == old(self).event_stack@,
                self.tick_counter == old(self).tick_counter,
                self.promote_on_tick == old(self).promote_on_tick,
                self.memory.spec_promote_on_tick() == old(self).memory.spec_promote_on_tick(),
                self.memory@.len() == old(self).memory@.len(),
                !halted ==> spec_exec_children(regv, pf, mf, stk, mem0, out0, cv)
                    == spec_exec_children(
                    regv,
                    pf,
                    mf,
                    stk,
                    self.memory@,
                    strs_of(self.outputs@),
                    cv.skip(ci as int),
                ),
                halted ==> spec_exec_children(regv, pf, mf, stk, mem0, out0, cv) == (
                    self.memory@,
                    strs_of(self.outputs@),
                ),
            decreases node.children@.len() - ci,
        {
            proof {
                broadcast use crate::ast::nodes_v_len, crate::ast::nodes_v_index;

                lemma_nodes_size_index(nodes_v(node.children@), ci as int);
                assert(node_size(node_v(node.children@[ci as int])) < node_size(node_v(*node)));
            }
            let ghost m_b = self.memory@;
            let ghost o_b = strs_of(self.outputs@);
            let stopped = self.execute_node(&node.children[ci]);
            proof {
                broadcast use crate::ast::nodes_v_len, crate::ast::nodes_v_index;

                let tail = cv.skip(ci as int);
                assert(tail.len() > 0);
                assert(tail[0] == node_v(node.children@[ci as int]));
                assert(tail.drop_first() =~= cv.skip(ci + 1));
                assert(spec_exec_node(regv, pf, mf, stk, m_b, o_b, tail[0]) == (
                    self.memory@,
                    strs_of(self.outputs@),
                    stopped,
                ));
            }
            if stopped {
                halted = true;
            }
            ci += 1;
        }
        proof {
            if !halted {
                assert(ci as int == cv.len());
                assert(cv.skip(ci as int) =~= Seq::<NodeV>::empty());
            }
        }
    }

    /// Dispatch an event by name. A name already on the call stack is a
    /// logged no-op, which is what keeps a handler from re-entering itself
    /// directly or transitively. An unregistered name falls back to the
    /// "missing" handler, run under the call-stack entry "missing" so that
    /// fallbacks cannot loop either. The effect on memory and outputs is
    /// exactly `spec_trigger`.
    pub fn trigger_event(&mut self, event_name: &str)
        requires
            old(self).wf(),
        ensures
            final(self).wf(),
            final(self).event_registry@ == old(self).event_registry@,
            final(self).every_blocks@ == old(self).every_blocks@,
            final(self).execution_queue@ == old(self).execution_queue@,
            final(self).event_stack@ == old(self).event_stack@,
            final(self).tick_counter == old(self).tick_counter,
            final(self).promote_on_tick == old(self).promote_on_tick,
            final(self).memory.spec_promote_on_tick() == old(self).memory.spec_promote_on_tick(),
            final(self).memory@.len() == old(self).memory@.len(),
            old(self).outputs@.is_prefix_of(final(self).outputs@),
            sset(strs_of(old(self).event_stack@)).contains(event_name@) ==> ({
                &&& final(self).memory@ == old(self).memory@
                &&& final(self).outputs@ == old(self).outputs@
                &&& final(self).logger.recorded_view() == (if old(self).logger.enabled {
                    old(self).logger.recorded_view().push(
                        (
                            crate::logger::LogLevel::Warn,
                            "Skipping recursive event: already in call stack"@,
                        ),
                    )
                } else {
                    old(self).logger.recorded_view()
                })
            }),
            ({
                let r = spec_trigger(
                    reg_v(old(self).event_registry@),
                    old(self).promote_on_tick,
                    old(self).memory.spec_promote_on_tick(),
                    strs_of(old(self).event_stack@),
                    old(self).memory@,
                    strs_of(old(self).outputs@),
                    event_name@,
                );
                final(self).memory@ == r.0 && strs_of(final(self).outputs@) == r.1
            }),
        decreases sfree(reg_v(old(self).event_registry@), strs_of(old(self).event_stack@)),
            0nat,
            0nat,
    {
        let ghost regv = reg_v(old(self).event_registry@);
        let ghost pf = old(self).promote_on_tick;
        let ghost mf = old(self).memory.spec_promote_on_tick();
        let ghost stk = strs_of(old(self).event_stack@);
        let ghost mem0 = old(self).memory@;
        let ghost out0 = strs_of(old(self).outputs@);
        let ghost name_v = event_name@;
        if self.stack_contains(event_name) {
            self.logger.warn("Skipping recursive event: already in call stack");
            return ;
        }
        let found = self.find_event(event_name);
        match found {
            Some(idx) => {
                let node = clone_ast(&self.event_registry[idx].1);
                let ghost hv = node_v(node);
                let scope_name = String::from_str("event:").concat(event_name);
                self.logger.trace("Triggering event");
                proof {
                    crate::memory::lemma_store_wf(self.memory);
                    assert(reg_find(regv, name_v) == Some(hv));
                    assert(scope_name@ == "event:"@.add(name_v));
                }
                self.memory.enter_scope(scope_name.as_str());
                let ghost entered = self.memory@;
                let pushed = event_name.to_owned();
                proof {
                    lemma_reg_find_in_names(regv, name_v);
                    lemma_sfree_decreases(regv, stk, name_v);
                    assert(strs_of(self.event_stack@.push(pushed)) =~= stk.push(name_v)) by {
                        assert(self.event_stack@.push(pushed).drop_last() =~= self.event_stack@);
                        broadcast use crate::strutil::strs_of_len, crate::strutil::strs_of_index;

                    }
                }
                self.event_stack.push(pushed);
                let ghost stack_in = self.event_stack@;
                let ghost cv = hv.children;
                let mut ci: usize = 0;
                let mut halted = false;
                proof {
                    broadcast use crate::ast::nodes_v_len;

                    assert(cv == nodes_v(node.children@));
                    assert(cv.skip(0) =~= cv);
                }
                while ci < node.children.len() && !halted
                    invariant
                        self.wf(),
                        old(self).wf(),
                        old(self).outputs@.is_prefix_of(self.outputs@),
                        ci <= node.children@.len(),
                        cv == nodes_v(node.children@),
                        regv == reg_v(old(self).event_registry@),
                        pf == old(self).promote_on_tick,
                        mf == old(self).memory.spec_promote_on_tick(),
                        stk == strs_of(old(self).event_stack@),
                        out0 == strs_of(old(self).outputs@),
                        self.event_registry@ == old(self).event_registry@,
                        self.every_blocks@ == old(self).every_blocks@,
                        self.execution_queue@ == old(self).execution_queue@,
                        self.event_stack@ == stack_in,
                        strs_of(stack_in) == stk.push(name_v),
                        sfree(reg_v(self.event_registry@), strs_of(self.event_stack@)) < sfree(
                            regv,
                            stk,
                        ),
                        self.tick_counter == old(self).tick_counter,
                        self.promote_on_tick == old(self).promote_on_tick,
                        self.memory.spec_promote_on_tick() == old(
                            self,
                        ).memory.spec_promote_on_tick(),
                        self.memory@.len() == old(self).memory@.len() + 1,
                        !halted ==> spec_exec_children(regv, pf, mf, stk.push(name_v), entered, out0, cv)
                            == spec_exec_children(
                            regv,
                            pf,
                            mf,
                            stk.push(name_v),
                            self.memory@,
                            strs_of(self.outputs@),
                            cv.skip(ci as int),
                        ),
                        halted ==> spec_exec_children(
                            regv,
                            pf,
                            mf,
                            stk.push(name_v),
                            entered,
                            out0,
                            cv,
                        ) == (self.memory@, strs_of(self.outputs@)),
                    decreases node.children@.len() - ci,
                {
                    let ghost m_b = self.memory@;
                    let ghost o_b = strs_of(self.outputs@);
                    let stopped = self.execute_node(&node.children[ci]);
                    proof {
                        broadcast use crate::ast::nodes_v_len, crate::ast::nodes_v_index;

                        let tail = cv.skip(ci as int);
                        assert(tail.len() > 0);
                        assert(tail[0] == node_v(node.children@[ci as int]));
                        assert(tail.drop_first() =~= cv.skip(ci + 1));
                        assert(spec_exec_node(regv, pf, mf, stk.push(name_v), m_b, o_b, tail[0])
                            == (self.memory@, strs_of(self.outputs@), stopped));
                    }
                    if stopped {
                        halted = true;
                    }
                    ci += 1;
                }
                proof {
                    if !halted {
                        assert(cv.skip(ci as int) =~= Seq::<NodeV>::empty());
                    }
                    assert(spec_exec_children(regv, pf, mf, stk.push(name_v), entered, out0, cv)
                        == (self.memory@, strs_of(self.outputs@)));
                }
                let ghost m_c = self.memory@;
                if str_eq(event_name, "start") && self.promote_on_tick {
                    self.logger.trace("[PROMOTE] From start event to global");
                    let promoted = self.memory.promote_scope(scope_name.as_str(), "global");
                    if !promoted {
                        self.logger.warn("[PROMOTE] Failed: missing scope");
                    }
                    proof {
                        assert(self.memory@ == spec_promote_by_name(
                            m_c,
                            "event:"@.add(name_v),
                            "global"@,
                        ));
                    }
                } else {
                    proof {
                        assert(self.memory@ == m_c);
                    }
                }
                let ghost m_p = self.memory@;
                let _ = self.event_stack.pop();
                proof {
                    assert(self.event_stack@ =~= old(self).event_stack@);
                    crate::memory::lemma_store_wf(old(self).memory);
                }
                self.memory.exit_scope();
                self.logger.trace("Event dispatch complete");
                proof {
                    assert(self.memory@ == spec_exit(m_p, mf));
                    assert(spec_trigger(regv, pf, mf, stk, mem0, out0, name_v) == (
                        self.memory@,
                        strs_of(self.outputs@),
                    ));
                }
            },
            None => {
                self.logger.warn("Attempted to trigger unknown event");
                let missing_found = self.find_event("missing");
                let missing_busy = self.stack_contains("missing");
                match missing_found {
                    Some(midx) => {
                        if missing_busy {
                            // the fallback is itself mid-execution; running it
                            // again could only loop
                            self.logger.warn("'on missing' handler is already active; ignored.");
                            proof {
                                assert(spec_trigger(regv, pf, mf, stk, mem0, out0, name_v) == (
                                    self.memory@,
                                    strs_of(self.outputs@),
                                ));
                            }
                        } else {
                            self.logger.warn("Falling back to 'on missing' handler");
                            let node = clone_ast(&self.event_registry[midx].1);
                            let ghost hv = node_v(node);
                            let scope_name = String::from_str("event:missing:").concat(event_name);
                            proof {
                                crate::memory::lemma_store_wf(self.memory);
                                assert(reg_find(regv, "missing"@) == Some(hv));
                                assert(scope_name@ == "event:missing:"@.add(name_v));
                            }
                            self.memory.enter_scope(scope_name.as_str());
                            proof {
                                crate::memory::lemma_store_wf(self.memory);
                            }
                            self.memory.set("event_name", event_name);
                            let ghost bound = self.memory@;
                            let pushed = String::from_str("missing");
                            proof {
                                lemma_reg_find_in_names(regv, "missing"@);
                                lemma_sfree_decreases(regv, stk, "missing"@);
                                assert(strs_of(self.event_stack@.push(pushed)) =~= stk.push(
                                    "missing"@,
                                )) by {
                                    assert(self.event_stack@.push(pushed).drop_last()
                                        =~= self.event_stack@);
                                    broadcast use crate::strutil::strs_of_len,
                                        crate::strutil::strs_of_index;

                                }
                            }
                            self.event_stack.push(pushed);
                            let ghost stack_in = self.event_stack@;
                            let ghost cv = hv.children;
                            let mut ci: usize = 0;
                            let mut halted = false;
                            proof {
                                broadcast use crate::ast::nodes_v_len;

                                assert(cv == nodes_v(node.children@));
                                assert(cv.skip(0) =~= cv);
                            }
                            while ci < node.children.len() && !halted
                                invariant
                                    self.wf(),
                                    old(self).wf(),
                                    old(self).outputs@.is_prefix_of(self.outputs@),
                                    ci <= node.children@.len(),
                                    cv == nodes_v(node.children@),
                                    regv == reg_v(old(self).event_registry@),
                                    pf == old(self).promote_on_tick,
                                    mf == old(self).memory.spec_promote_on_tick(),
                                    stk == strs_of(old(self).event_stack@),
                                    out0 == strs_of(old(self).outputs@),
                                    self.event_registry@ == old(self).event_registry@,
                                    self.every_blocks@ == old(self).every_blocks@,
                                    self.execution_queue@ == old(self).execution_queue@,
                                    self.event_stack@ == stack_in,
                                    strs_of(stack_in) == stk.push("missing"@),
                                    sfree(
                                        reg_v(self.event_registry@),
                                        strs_of(self.event_stack@),
                                    ) < sfree(regv, stk),
                                    self.tick_counter == old(self).tick_counter,
                                    self.promote_on_tick == old(self).promote_on_tick,
                                    self.memory.spec_promote_on_tick() == old(
                                        self,
                                    ).memory.spec_promote_on_tick(),
                                    self.memory@.len() == old(self).memory@.len() + 1,
                                    !halted ==> spec_exec_children(
                                        regv,
                                        pf,
                                        mf,
                                        stk.push("missing"@),
                                        bound,
                                        out0,
                                        cv,
                                    ) == spec_exec_children(
                                        regv,
                                        pf,
                                        mf,
                                        stk.push("missing"@),
                                        self.memory@,
                                        strs_of(self.outputs@),
                                        cv.skip(ci as int),
                                    ),
                                    halted ==> spec_exec_children(
                                        regv,
                                        pf,
                                        mf,
                                        stk.push("missing"@),
                                        bound,
                                        out0,
                                        cv,
                                    ) == (self.memory@, strs_of(self.outputs@)),
                                decreases node.children@.len() - ci,
                            {
                                let ghost m_b = self.memory@;
                                let ghost o_b = strs_of(self.outputs@);
                                let stopped = self.execute_node(&node.children[ci]);
                                proof {
                                    broadcast use crate::ast::nodes_v_len,
                                        crate::ast::nodes_v_index;

                                    let tail = cv.skip(ci as int);
                                    assert(tail.len() > 0);
                                    assert(tail[0] == node_v(node.children@[ci as int]));
                                    assert(tail.drop_first() =~= cv.skip(ci + 1));
                                    assert(spec_exec_node(
                                        regv,
                                        pf,
                                        mf,
                                        stk.push("missing"@),
                                        m_b,
                                        o_b,
                                        tail[0],
                                    ) == (self.memory@, strs_of(self.outputs@), stopped));
                                }
                                if stopped {
                                    halted = true;
                                }
                                ci += 1;
                            }
                            proof {
                                if !halted {
                                    assert(cv.skip(ci as int) =~= Seq::<NodeV>::empty());
                                }
                                assert(spec_exec_children(
                                    regv,
                                    pf,
                                    mf,
                                    stk.push("missing"@),
                                    bound,
                                    out0,
                                    cv,
                                ) == (self.memory@, strs_of(self.outputs@)));
                            }
                            let ghost m_c = self.memory@;
                            let _ = self.event_stack.pop();
                            proof {
                                assert(self.event_stack@ =~= old(self).event_stack@);
                                crate::memory::lemma_store_wf(old(self).memory);
                            }
                            self.memory.exit_scope();
                            proof {
                                assert(self.memory@ == spec_exit(m_c, mf));
                                assert(spec_trigger(regv, pf, mf, stk, mem0, out0, name_v) == (
                                    self.memory@,
                                    strs_of(self.outputs@),
                                ));
                            }
                        }
                    },
                    None => {
                        self.logger.warn("No 'on missing' handler found; trigger ignored.");
                        proof {
                            assert(spec_trigger(regv, pf, mf, stk, mem0, out0, name_v) == (
                                self.memory@,
                                strs_of(self.outputs@),
                            ));
                        }
                    },
                }
            },
        }
    }

    /// Start the run: fire the synthetic "start" event once, then drain the
    /// pending queue strictly first-in first-out.
    pub fn run(&mut self)
        requires
            old(self).wf(),
        ensures
            final(self).wf(),
            final(self).event_registry@ == old(self).event_registry@,
            final(self).every_blocks@ == old(self).every_blocks@,
            final(self).execution_queue@.len() == 0,
            final(self).event_stack@ == old(self).event_stack@,
            final(self).tick_counter == old(self).tick_counter,
            final(self).promote_on_tick == old(self).promote_on_tick,
            final(self).memory.spec_promote_on_tick() == old(self).memory.spec_promote_on_tick(),
            final(self).memory@.len() == old(self).memory@.len(),
            old(self).outputs@.is_prefix_of(final(self).outputs@),
            ({
                let regv = reg_v(old(self).event_registry@);
                let pf = old(self).promote_on_tick;
                let mf = old(self).memory.spec_promote_on_tick();
                let stk = strs_of(old(self).event_stack@);
                let started = spec_trigger(
                    regv,
                    pf,
                    mf,
                    stk,
                    old(self).memory@,
                    strs_of(old(self).outputs@),
                    "start"@,
                );
                let drained = spec_run_queue(
                    regv,
                    pf,
                    mf,
                    stk,
                    started.0,
                    started.1,
                    nodes_v(old(self).execution_queue@),
                );
                final(self).memory@ == drained.0 && strs_of(final(self).outputs@) == drained.1
            }),
    {
        let ghost regv = reg_v(old(self).event_registry@);
        let ghost pf = old(self).promote_on_tick;
        let ghost mf = old(self).memory.spec_promote_on_tick();
        let ghost stk = strs_of(old(self).event_stack@);
        let ghost qv = nodes_v(old(self).execution_queue@);
        self.logger.info("Runtime started.");
        self.trigger_event("start");
        let ghost started = spec_trigger(
            regv,
            pf,
            mf,
            stk,
            old(self).memory@,
            strs_of(old(self).outputs@),
            "start"@,
        );
        proof {
            broadcast use crate::ast::nodes_v_len;

            assert(qv.skip(0) =~= qv);
        }
        while self.execution_queue.len() > 0
            invariant
                self.wf(),
                old(self).wf(),
                old(self).outputs@.is_prefix_of(self.outputs@),
                regv == reg_v(old(self).event_registry@),
                pf == old(self).promote_on_tick,
                mf == old(self).memory.spec_promote_on_tick(),
                stk == strs_of(old(self).event_stack@),
                qv == nodes_v(old(self).execution_queue@),
                self.execution_queue@.len() <= qv.len(),
                nodes_v(self.execution_queue@) == qv.skip(
                    qv.len() - self.execution_queue@.len(),
                ),
                self.event_registry@ == old(self).event_registry@,
                self.every_blocks@ == old(self).every_blocks@,
                self.event_stack@ == old(self).event_stack@,
                self.tick_counter == old(self).tick_counter,
                self.promote_on_tick == old(self).promote_on_tick,
                self.memory.spec_promote_on_tick() == old(self).memory.spec_promote_on_tick(),
                self.memory@.len() == old(self).memory@.len(),
                spec_run_queue(regv, pf, mf, stk, started.0, started.1, qv) == spec_run_queue(
                    regv,
                    pf,
                    mf,
                    stk,
                    self.memory@,
                    strs_of(self.outputs@),
                    nodes_v(self.execution_queue@),
                ),
            decreases self.execution_queue@.len(),
        {
            let ghost qraw = self.execution_queue@;
            let ghost qcur = nodes_v(self.execution_queue@);
            let node = self.execution_queue.remove(0);
            proof {
                broadcast use crate::ast::nodes_v_len, crate::ast::nodes_v_index;

                assert(self.execution_queue@ =~= qraw.drop_first());
                assert forall|j: int| 0 <= j < self.execution_queue@.len() implies nodes_v(
                    self.execution_queue@,
                )[j] == qcur[j + 1] by {
                    assert(self.execution_queue@[j] == qraw[j + 1]);
                }
                assert(nodes_v(self.execution_queue@) =~= qcur.drop_first());
                assert(qcur.drop_first() =~= qv.skip(qv.len() - qraw.len() + 1));
                assert(qcur[0] == node_v(node));
            }
            let ghost m_b = self.memory@;
            let ghost o_b = strs_of(self.outputs@);
            let _ = self.execute_node(&node);
            proof {
                assert(spec_exec_node(regv, pf, mf, stk, m_b, o_b, node_v(node)) == (
                    self.memory@,
                    strs_of(self.outputs@),
                    spec_exec_node(regv, pf, mf, stk, m_b, o_b, node_v(node)).2,
                ));
                assert(spec_run_queue(regv, pf, mf, stk, m_b, o_b, qcur) == spec_run_queue(
                    regv,
                    pf,
                    mf,
                    stk,
                    self.memory@,
                    strs_of(self.outputs@),
                    nodes_v(self.execution_queue@),
                ));
            }
        }
        proof {
            assert(nodes_v(self.execution_queue@) =~= Seq::<NodeV>::empty());
        }
    }

    /// Advance the tick counter by one; every periodic block whose interval
    /// divides the new count runs in a fresh scope named for the tick, with
    /// promotion into "global" under the flag; afterwards a registered
    /// "on tick" handler fires unconditionally, once.
    pub fn tick(&mut self)
        requires
            old(self).wf(),
            old(self).tick_counter < u32::MAX,
        ensures
            final(self).wf(),
            final(self).tick_counter == old(self).tick_counter + 1,
            final(self).event_registry@ == old(self).event_registry@,
            final(self).every_blocks@ == old(self).every_blocks@,
            final(self).execution_queue@ == old(self).execution_queue@,
            final(self).event_stack@ == old(self).event_stack@,
            final(self).promote_on_tick == old(self).promote_on_tick,
            final(self).memory.spec_promote_on_tick() == old(self).memory.spec_promote_on_tick(),
            final(self).memory@.len() == old(self).memory@.len(),
            old(self).outputs@.is_prefix_of(final(self).outputs@),
            ({
                let regv = reg_v(old(self).event_registry@);
                let pf = old(self).promote_on_tick;
                let mf = old(self).memory.spec_promote_on_tick();
                let stk = strs_of(old(self).event_stack@);
                let count = (old(self).tick_counter + 1) as nat;
                let marker = "[TICK "@.add(spec_dec_digits(count)).add("]"@);
                let fired = spec_tick_blocks(
                    regv,
                    pf,
                    mf,
                    stk,
                    old(self).memory@,
                    strs_of(old(self).outputs@).push(marker),
                    blocks_v(old(self).every_blocks@),
                    count,
                );
                let handled = if reg_find(regv, "tick"@) is Some {
                    spec_trigger(regv, pf, mf, stk, fired.0, fired.1, "tick"@)
                } else {
                    fired
                };
                final(self).memory@ == handled.0 && strs_of(final(self).outputs@) == handled.1
            }),
    {
        let ghost regv = reg_v(old(self).event_registry@);
        let ghost pf = old(self).promote_on_tick;
        let ghost mf = old(self).memory.spec_promote_on_tick();
        let ghost stk = strs_of(old(self).event_stack@);
        let ghost count = (old(self).tick_counter + 1) as nat;
        let ghost bv = blocks_v(old(self).every_blocks@);
        self.tick_counter = self.tick_counter + 1;
        let digits = u32_string(self.tick_counter);
        let marker = String::from_str("[TICK ").concat(digits.as_str()).concat("]");
        let ghost oraw = self.outputs@;
        proof {
            assert(marker@ == "[TICK "@.add(spec_dec_digits(count)).add("]"@));
        }
        self.outputs.push(marker);
        let ghost out1 = strs_of(self.outputs@);
        proof {
            assert(self.outputs@.drop_last() =~= oraw);
            assert(out1 =~= strs_of(old(self).outputs@).push(
                "[TICK "@.add(spec_dec_digits(count)).add("]"@),
            ));
        }
        self.logger.debug("Tick");
        let ghost mem1 = self.memory@;
        let n = self.every_blocks.len();
        let mut i: usize = 0;
        proof {
            broadcast use blocks_v_len;

            assert(bv.skip(0) =~= bv);
        }
        while i < n
            invariant
                self.wf(),
                old(self).wf(),
                old(self).outputs@.is_prefix_of(self.outputs@),
                i <= n,
                n == self.every_blocks@.len(),
                regv == reg_v(old(self).event_registry@),
                pf == old(self).promote_on_tick,
                mf == old(self).memory.spec_promote_on_tick(),
                stk == strs_of(old(self).event_stack@),
                count == (old(self).tick_counter + 1) as nat,
                bv == blocks_v(old(self).every_blocks@),
                mem1 == old(self).memory@,
                self.event_registry@ == old(self).event_registry@,
                self.every_blocks@ == old(self).every_blocks@,
                self.execution_queue@ == old(self).execution_queue@,
                self.event_stack@ == old(self).event_stack@,
                self.tick_counter == old(self).tick_counter + 1,
                self.promote_on_tick == old(self).promote_on_tick,
                self.memory.spec_promote_on_tick() == old(self).memory.spec_promote_on_tick(),
                self.memory@.len() == old(self).memory@.len(),
                spec_tick_blocks(regv, pf, mf, stk, mem1, out1, bv, count) == spec_tick_blocks(
                    regv,
                    pf,
                    mf,
                    stk,
                    self.memory@,
                    strs_of(self.outputs@),
                    bv.skip(i as int),
                    count,
                ),
            decreases n - i,
        {
            let ghost m_i = self.memory@;
            let ghost o_i = strs_of(self.outputs@);
            proof {
                broadcast use blocks_v_len, blocks_v_index;

                assert(bv.skip(i as int)[0] == bv[i as int]);
                assert(bv.skip(i as int).drop_first() =~= bv.skip(i + 1));
            }
            let interval = self.every_blocks[i].interval;
            if self.tick_counter % interval == 0 {
                proof {
                    assert(spec_fires(interval as int, self.tick_counter as int));
                }
                self.logger.trace("Tick matched interval");
                let node = clone_ast(&self.every_blocks[i].node);
                let ghost hv = node_v(node);
                let scope_name = String::from_str("tick:").concat(
                    u32_string(self.tick_counter).as_str(),
                );
                proof {
                    crate::memory::lemma_store_wf(self.memory);
                    assert(scope_name@ == "tick:"@.add(spec_dec_digits(count)));
                }
                self.memory.enter_scope(scope_name.as_str());
                let ghost entered = self.memory@;
                let ghost cv = hv.children;
                let mut ci: usize = 0;
                let mut halted = false;
                proof {
                    broadcast use crate::ast::nodes_v_len;

                    assert(cv == nodes_v(node.children@));
                    assert(cv.skip(0) =~= cv);
                }
                while ci < node.children.len() && !halted
                    invariant
                        self.wf(),
                        old(self).wf(),
                        old(self).outputs@.is_prefix_of(self.outputs@),
                        ci <= node.children@.len(),
                        cv == nodes_v(node.children@),
                        regv == reg_v(old(self).event_registry@),
                        pf == old(self).promote_on_tick,
                        mf == old(self).memory.spec_promote_on_tick(),
                        stk == strs_of(old(self).event_stack@),
                        self.event_registry@ == old(self).event_registry@,
                        self.every_blocks@ == old(self).every_blocks@,
                        self.execution_queue@ == old(self).execution_queue@,
                        self.event_stack@ == old(self).event_stack@,
                        self.tick_counter == old(self).tick_counter + 1,
                        self.promote_on_tick == old(self).promote_on_tick,
                        self.memory.spec_promote_on_tick() == old(
                            self,
                        ).memory.spec_promote_on_tick(),
                        self.memory@.len() == old(self).memory@.len() + 1,
                        !halted ==> spec_exec_children(regv, pf, mf, stk, entered, o_i, cv)
                            == spec_exec_children(
                            regv,
                            pf,
                            mf,
                            stk,
                            self.memory@,
                            strs_of(self.outputs@),
                            cv.skip(ci as int),
                        ),
                        halted ==> spec_exec_children(regv, pf, mf, stk, entered, o_i, cv) == (
                            self.memory@,
                            strs_of(self.outputs@),
                        ),
                    decreases node.children@.len() - ci,
                {
                    let ghost m_b = self.memory@;
                    let ghost o_b = strs_of(self.outputs@);
                    let stopped = self.execute_node(&node.children[ci]);
                    proof {
                        broadcast use crate::ast::nodes_v_len, crate::ast::nodes_v_index;

                        let tail = cv.skip(ci as int);
                        assert(tail.len() > 0);
                        assert(tail[0] == node_v(node.children@[ci as int]));
                        assert(tail.drop_first() =~= cv.skip(ci + 1));
                        assert(spec_exec_node(regv, pf, mf, stk, m_b, o_b, tail[0]) == (
                            self.memory@,
                            strs_of(self.outputs@),
                            stopped,
                        ));
                    }
                    if stopped {
                        halted = true;
                    }
                    ci += 1;
                }
                proof {
                    if !halted {
                        assert(cv.skip(ci as int) =~= Seq::<NodeV>::empty());
                    }
                    assert(spec_exec_children(regv, pf, mf, stk, entered, o_i, cv) == (
                        self.memory@,
                        strs_of(self.outputs@),
                    ));
                }
                let ghost m_c = self.memory@;
                if self.promote_on_tick {
                    self.logger.trace("[PROMOTE] From tick scope to global");
                    let promoted = self.memory.promote_scope(scope_name.as_str(), "global");
                    if !promoted {
                        self.logger.warn("[PROMOTE] Failed: missing scope");
                    }
                    proof {
                        assert(self.memory@ == spec_promote_by_name(
                            m_c,
                            "tick:"@.add(spec_dec_digits(count)),
                            "global"@,
                        ));
                    }
                } else {
                    proof {
                        assert(self.memory@ == m_c);
                    }
                }
                let ghost m_p = self.memory@;
                proof {
                    crate::memory::lemma_store_wf(old(self).memory);
                }
                self.memory.exit_scope();
                proof {
                    assert(self.memory@ == spec_exit(m_p, mf));
                    assert(spec_tick_blocks(regv, pf, mf, stk, m_i, o_i, bv.skip(i as int), count)
                        == spec_tick_blocks(
                        regv,
                        pf,
                        mf,
                        stk,
                        self.memory@,
                        strs_of(self.outputs@),
                        bv.skip(i + 1),
                        count,
                    ));
                }
            } else {
                proof {
                    assert(!spec_fires(bv[i as int].0, count as int));
                    assert(spec_tick_blocks(regv, pf, mf, stk, m_i, o_i, bv.skip(i as int), count)
                        == spec_tick_blocks(
                        regv,
                        pf,
                        mf,
                        stk,
                        self.memory@,
                        strs_of(self.outputs@),
                        bv.skip(i + 1),
                        count,
                    ));
                }
            }
            i += 1;
        }
        proof {
            assert(bv.skip(n as int) =~= Seq::<(int, NodeV)>::empty());
        }
        let ghost m_2 = self.memory@;
        let ghost o_2 = strs_of(self.outputs@);
        let has_tick_handler = match self.find_event("tick") {
            Some(_) => true,
            None => false,
        };
        proof {
            assert(has_tick_handler == (reg_find(regv, "tick"@) is Some));
        }
        if has_tick_handler {
            self.logger.trace("Triggering generic 'on tick' handler");
            self.trigger_event("tick");
            proof {
                assert((self.memory@, strs_of(self.outputs@)) == spec_trigger(
                    regv,
                    pf,
                    mf,
                    stk,
                    m_2,
                    o_2,
                    "tick"@,
                ));
            }
        }
    }
}

} // verus!
