//! Semantic validation: a read-only walk over the whole forest that gathers
//! advisory warnings. Every child is visited whatever its parent earned;
//! warnings never block execution.

use vstd::prelude::*;
use crate::ast::{AstNode, NodeV, node_v, nodes_v};
use crate::strutil::{str_eq};

verus! {

/// A semantic-level concern found during validation.
#[derive(Debug, Clone)]
pub enum SemanticWarning {
    /// A `get` or `remember` with nothing to refer to.
    UnresolvedReference(String),
    /// A `respond` with nothing to say.
    MissingRespond,
    /// A control-flow block with no body.
    InvalidFlow(String),
    /// A first word outside the keyword vocabulary.
    UnknownNodeType(String),
    /// A `set` without a target, or a malformed `set promote_always`.
    InvalidConfiguration(String),
}

/// The abstract value of a warning.
pub enum WarningV {
    UnresolvedReference(Seq<char>),
    MissingRespond,
    InvalidFlow(Seq<char>),
    UnknownNodeType(Seq<char>),
    InvalidConfiguration(Seq<char>),
}

/// The abstract value of one warning.
pub open spec fn warning_v(w: SemanticWarning) -> WarningV {
    match w {
        SemanticWarning::UnresolvedReference(m) => WarningV::UnresolvedReference(m@),
        SemanticWarning::MissingRespond => WarningV::MissingRespond,
        SemanticWarning::InvalidFlow(m) => WarningV::InvalidFlow(m@),
        SemanticWarning::UnknownNodeType(m) => WarningV::UnknownNodeType(m@),
        SemanticWarning::InvalidConfiguration(m) => WarningV::InvalidConfiguration(m@),
    }
}

/// The abstract values of a warning list.
pub open spec fn warnings_v(s: Seq<SemanticWarning>) -> Seq<WarningV>
    decreases s.len(),
{
    if s.len() == 0 {
        Seq::empty()
    } else {
        warnings_v(s.drop_last()).push(warning_v(s.last()))
    }
}

/// The warnings a single node earns for itself, children aside.
pub open spec fn own_warnings(n: NodeV) -> Seq<WarningV> {
    if n.typ == "get"@ && n.value.len() == 0 {
        seq![WarningV::UnresolvedReference("Missing key in `get` statement"@)]
    } else if n.typ == "remember"@ && n.value.len() == 0 {
        seq![WarningV::UnresolvedReference("`remember` used with no target"@)]
    } else if n.typ == "respond"@ && n.value.len() == 0 {
        seq![WarningV::MissingRespond]
    } else if n.typ == "if"@ || n.typ == "while"@ {
        if n.children.len() == 0 {
            seq![WarningV::InvalidFlow(n.typ.add(" block has no body"@))]
        } else {
            Seq::empty()
        }
    } else if n.typ == "set"@ {
        if n.value.len() == 0 {
            seq![WarningV::InvalidConfiguration("`set` used with no config target"@)]
        } else if n.value == "promote_always"@ {
            if n.modifiers.len() == 0 {
                seq![WarningV::InvalidConfiguration("`set promote_always` used with no value"@)]
            } else if n.modifiers[0] != "true"@ && n.modifiers[0] != "false"@ {
                seq![
                    WarningV::InvalidConfiguration(
                        "`set promote_always` expects 'true' or 'false', got '"@.add(
                            n.modifiers[0],
                        ).add("'"@),
                    ),
                ]
            } else {
                Seq::empty()
            }
        } else {
            Seq::empty()
        }
    } else if n.typ == "unknown"@ {
        seq![WarningV::UnknownNodeType(n.value)]
    } else {
        Seq::empty()
    }
}

/// The warnings of one node and all its descendants, in walk order.
pub open spec fn spec_check_node(n: NodeV) -> Seq<WarningV>
    decreases n,
{
    own_warnings(n).add(spec_check_seq(n.children))
}

/// The warnings of a forest, in walk order.
pub open spec fn spec_check_seq(nodes: Seq<NodeV>) -> Seq<WarningV>
    decreases nodes,
{
    if nodes.len() == 0 {
        Seq::empty()
    } else {
        spec_check_node(nodes[0]).add(spec_check_seq(nodes.drop_first()))
    }
}

fn node_type_is(n: &AstNode, t: &str) -> (r: bool)
    ensures
        r == (n.node_type@ == t@),
{
    str_eq(n.node_type.as_str(), t)
}

fn own_warnings_exec(n: &AstNode, warnings: &mut Vec<SemanticWarning>)
    ensures
        warnings_v(final(warnings)@) == warnings_v(old(warnings)@).add(own_warnings(node_v(*n))),
{
    let ghost w0 = warnings_v(warnings@);
    let ghost raw0 = warnings@;
    let ghost nv = node_v(*n);
    if node_type_is(n, "get") && n.value.as_str().unicode_len() == 0 {
        warnings.push(
            SemanticWarning::UnresolvedReference("Missing key in `get` statement".to_owned()),
        );
    } else if node_type_is(n, "remember") && n.value.as_str().unicode_len() == 0 {
        warnings.push(
            SemanticWarning::UnresolvedReference("`remember` used with no target".to_owned()),
        );
    } else if node_type_is(n, "respond") && n.value.as_str().unicode_len() == 0 {
        warnings.push(SemanticWarning::MissingRespond);
    } else if node_type_is(n, "if") || node_type_is(n, "while") {
        proof {
            crate::ast::nodes_v_len(n.children@);
        }
        if n.children.len() == 0 {
            let msg = n.node_type.clone().concat(" block has no body");
            warnings.push(SemanticWarning::InvalidFlow(msg));
        }
    } else if node_type_is(n, "set") {
        if n.value.as_str().unicode_len() == 0 {
            warnings.push(
                SemanticWarning::InvalidConfiguration("`set` used with no config target".to_owned()),
            );
        } else if str_eq(n.value.as_str(), "promote_always") {
            if n.modifiers.len() == 0 {
                proof {
                    crate::strutil::strs_of_len(n.modifiers@);
                }
                warnings.push(
                    SemanticWarning::InvalidConfiguration(
                        "`set promote_always` used with no value".to_owned(),
                    ),
                );
            } else {
                proof {
                    crate::strutil::strs_of_len(n.modifiers@);
                    crate::strutil::strs_of_index(n.modifiers@, 0);
                }
                let m0 = &n.modifiers[0];
                if !str_eq(m0.as_str(), "true") && !str_eq(m0.as_str(), "false") {
                    let msg = String::from_str(
                        "`set promote_always` expects 'true' or 'false', got '",
                    ).concat(m0.as_str()).concat("'");
                    warnings.push(SemanticWarning::InvalidConfiguration(msg));
                }
            }
        }
    } else if node_type_is(n, "unknown") {
        warnings.push(SemanticWarning::UnknownNodeType(n.value.clone()));
    }
    proof {
        if warnings@.len() > raw0.len() {
            assert(warnings@.drop_last() =~= raw0);
            assert(warnings_v(warnings@) == w0.push(warning_v(warnings@.last())));
            assert(w0.push(warning_v(warnings@.last())) =~= w0.add(
                seq![warning_v(warnings@.last())],
            ));
            assert(seq![warning_v(warnings@.last())] =~= own_warnings(nv));
        } else {
            assert(warnings@ == raw0);
            assert(own_warnings(nv) =~= Seq::<WarningV>::empty());
            assert(w0.add(Seq::<WarningV>::empty()) =~= w0);
        }
    }
}

fn check_node(n: &AstNode, warnings: &mut Vec<SemanticWarning>)
    ensures
        warnings_v(final(warnings)@) == warnings_v(old(warnings)@).add(spec_check_node(node_v(*n))),
    decreases *n,
{
    let ghost w0 = warnings_v(warnings@);
    own_warnings_exec(n, warnings);
    let mut ci: usize = 0;
    while ci < n.children.len()
        invariant
            ci <= n.children@.len(),
            warnings_v(warnings@) == w0.add(own_warnings(node_v(*n))).add(
                spec_check_seq(nodes_v(n.children@).take(ci as int)),
            ),
        decreases n.children@.len() - ci,
    {
        let ghost acc_b = warnings_v(warnings@);
        check_node(&n.children[ci], warnings);
        proof {
            broadcast use crate::ast::nodes_v_len, crate::ast::nodes_v_index;

            let cs = nodes_v(n.children@);
            lemma_check_seq_take(cs, ci as int);
            assert(warnings_v(warnings@) =~= w0.add(own_warnings(node_v(*n))).add(
                spec_check_seq(cs.take(ci + 1)),
            ));
        }
        ci += 1;
    }
    proof {
        broadcast use crate::ast::nodes_v_len;

        assert(nodes_v(n.children@).take(n.children@.len() as int) =~= nodes_v(n.children@));
        assert(warnings_v(warnings@) =~= w0.add(spec_check_node(node_v(*n))));
    }
}

proof fn lemma_check_seq_take(nodes: Seq<NodeV>, i: int)
    requires
        0 <= i < nodes.len(),
    ensures
        spec_check_seq(nodes.take(i + 1)) == spec_check_seq(nodes.take(i)).add(
            spec_check_node(nodes[i]),
        ),
    decreases i,
{
    if i == 0 {
        assert(nodes.take(1).drop_first() =~= nodes.take(0));
        assert(spec_check_seq(nodes.take(0)) =~= Seq::<WarningV>::empty());
        assert(nodes.take(1)[0] == nodes[0]);
        assert(spec_check_seq(nodes.take(1)) == spec_check_node(nodes[0]).add(
            spec_check_seq(nodes.take(0)),
        ));
        assert(spec_check_node(nodes[0]).add(Seq::<WarningV>::empty()) =~= spec_check_node(
            nodes[0],
        ));
        assert(Seq::<WarningV>::empty().add(spec_check_node(nodes[0])) =~= spec_check_node(
            nodes[0],
        ));
    } else {
        lemma_check_seq_take(nodes.drop_first(), i - 1);
        let t = nodes.drop_first();
        assert(nodes.take(i + 1).drop_first() =~= t.take(i));
        assert(nodes.take(i).drop_first() =~= t.take(i - 1));
        assert(nodes.take(i + 1)[0] == nodes[0]);
        assert(nodes.take(i)[0] == nodes[0]);
        assert(t[i - 1] == nodes[i]);
        assert(spec_check_seq(nodes.take(i + 1)) == spec_check_node(nodes[0]).add(
            spec_check_seq(t.take(i)),
        ));
        assert(spec_check_seq(nodes.take(i)) == spec_check_node(nodes[0]).add(
            spec_check_seq(t.take(i - 1)),
        ));
        assert(spec_check_node(nodes[0]).add(
            spec_check_seq(t.take(i - 1)).add(spec_check_node(nodes[i])),
        ) =~= spec_check_seq(nodes.take(i)).add(spec_check_node(nodes[i])));
    }
}

/// Walk the whole forest and gather every warning it earns, in order.
pub fn analyze_semantics(ast: &Vec<AstNode>) -> (r: Vec<SemanticWarning>)
    ensures
        warnings_v(r@) == spec_check_seq(nodes_v(ast@)),
{
    let mut warnings: Vec<SemanticWarning> = Vec::new();
    let mut i: usize = 0;
    proof {
        assert(warnings_v(warnings@) =~= Seq::<WarningV>::empty());
        broadcast use crate::ast::nodes_v_len;

        assert(Seq::<WarningV>::empty().add(
            spec_check_seq(nodes_v(ast@).take(0)),
        ) =~= spec_check_seq(nodes_v(ast@).take(0)));
        assert(spec_check_seq(nodes_v(ast@).take(0)) =~= Seq::<WarningV>::empty());
    }
    while i < ast.len()
        invariant
            i <= ast@.len(),
            warnings_v(warnings@) == spec_check_seq(nodes_v(ast@).take(i as int)),
        decreases ast@.len() - i,
    {
        check_node(&ast[i], &mut warnings);
        proof {
            broadcast use crate::ast::nodes_v_len, crate::ast::nodes_v_index;

            lemma_check_seq_take(nodes_v(ast@), i as int);
        }
        i += 1;
    }
    proof {
        broadcast use crate::ast::nodes_v_len;

        assert(nodes_v(ast@).take(ast@.len() as int) =~= nodes_v(ast@));
    }
    warnings
}

/// How many warnings in a list satisfy the matter at hand.
pub open spec fn count_flow(ws: Seq<WarningV>) -> nat
    decreases ws.len(),
{
    if ws.len() == 0 {
        0
    } else {
        count_flow(ws.drop_last()) + (if ws.last() is InvalidFlow {
            1nat
        } else {
            0nat
        })
    }
}

/// How many nodes of a forest, descendants included, are empty control-flow
/// blocks.
pub open spec fn count_flow_nodes(nodes: Seq<NodeV>) -> nat
    decreases nodes,
{
    if nodes.len() == 0 {
        0
    } else {
        count_flow_node(nodes[0]) + count_flow_nodes(nodes.drop_first())
    }
}

pub open spec fn count_flow_node(n: NodeV) -> nat
    decreases n,
{
    (if (n.typ == "if"@ || n.typ == "while"@) && n.children.len() == 0 {
        1nat
    } else {
        0nat
    }) + count_flow_nodes(n.children)
}

proof fn lemma_count_flow_cat(a: Seq<WarningV>, b: Seq<WarningV>)
    ensures
        count_flow(a.add(b)) == count_flow(a) + count_flow(b),
    decreases b.len(),
{
    if b.len() == 0 {
        assert(a.add(b) =~= a);
    } else {
        lemma_count_flow_cat(a, b.drop_last());
        assert(a.add(b).drop_last() =~= a.add(b.drop_last()));
        assert(a.add(b).last() == b.last());
    }
}

proof fn lemma_count_singleton(w: WarningV)
    ensures
        count_flow(seq![w]) == (if w is InvalidFlow {
            1nat
        } else {
            0nat
        }),
        count_unresolved(seq![w]) == (if w is UnresolvedReference {
            1nat
        } else {
            0nat
        }),
        count_missing_respond(seq![w]) == (if w is MissingRespond {
            1nat
        } else {
            0nat
        }),
{
    let sw = seq![w];
    assert(sw.len() == 1);
    assert(sw.last() == w);
    assert(sw.drop_last() =~= Seq::<WarningV>::empty());
    assert(count_flow(Seq::<WarningV>::empty()) == 0);
    assert(count_unresolved(Seq::<WarningV>::empty()) == 0);
    assert(count_missing_respond(Seq::<WarningV>::empty()) == 0);
    assert(count_flow(sw) == count_flow(sw.drop_last()) + (if sw.last() is InvalidFlow {
        1nat
    } else {
        0nat
    }));
    assert(count_unresolved(sw) == count_unresolved(sw.drop_last()) + (if sw.last()
        is UnresolvedReference {
        1nat
    } else {
        0nat
    }));
    assert(count_missing_respond(sw) == count_missing_respond(sw.drop_last()) + (if sw.last()
        is MissingRespond {
        1nat
    } else {
        0nat
    }));
}

proof fn lemma_type_literals_distinct()
    ensures
        "get"@ != "remember"@,
        "get"@ != "respond"@,
        "get"@ != "if"@,
        "get"@ != "while"@,
        "get"@ != "set"@,
        "get"@ != "unknown"@,
        "remember"@ != "respond"@,
        "remember"@ != "if"@,
        "remember"@ != "while"@,
        "remember"@ != "set"@,
        "remember"@ != "unknown"@,
        "respond"@ != "if"@,
        "respond"@ != "while"@,
        "respond"@ != "set"@,
        "respond"@ != "unknown"@,
        "if"@ != "set"@,
        "if"@ != "unknown"@,
        "while"@ != "set"@,
        "while"@ != "unknown"@,
        "if"@ != "while"@,
        "set"@ != "unknown"@,
{
    reveal_strlit("get");
    reveal_strlit("remember");
    reveal_strlit("respond");
    reveal_strlit("if");
    reveal_strlit("while");
    reveal_strlit("set");
    reveal_strlit("unknown");
    assert("get"@.len() == 3);
    assert("remember"@.len() == 8);
    assert("respond"@.len() == 7);
    assert("if"@.len() == 2);
    assert("while"@.len() == 5);
    assert("set"@.len() == 3);
    assert("unknown"@.len() == 7);
    assert("get"@[0] == 'g' && "set"@[0] == 's');
    assert("respond"@[0] == 'r' && "unknown"@[0] == 'u');
}

proof fn lemma_flow_count_node(n: NodeV)
    ensures
        count_flow(spec_check_node(n)) == count_flow_node(n),
    decreases n,
{
    lemma_count_flow_cat(own_warnings(n), spec_check_seq(n.children));
    assert(count_flow(own_warnings(n)) == (if (n.typ == "if"@ || n.typ == "while"@)
        && n.children.len() == 0 {
        1nat
    } else {
        0nat
    })) by {
        lemma_type_literals_distinct();
        let ow = own_warnings(n);
        if ow.len() == 0 {
            assert(count_flow(ow) == 0);
        } else {
            lemma_count_singleton(ow.last());
            assert(ow =~= seq![ow.last()]);
        }
    }
    lemma_flow_count_seq(n.children);
}

proof fn lemma_flow_count_seq(nodes: Seq<NodeV>)
    ensures
        count_flow(spec_check_seq(nodes)) == count_flow_nodes(nodes),
    decreases nodes,
{
    if nodes.len() > 0 {
        lemma_count_flow_cat(spec_check_node(nodes[0]), spec_check_seq(nodes.drop_first()));
        lemma_flow_count_node(nodes[0]);
        lemma_flow_count_seq(nodes.drop_first());
    }
}

/// An `if` or `while` with no body earns exactly one InvalidFlow warning:
/// over any forest, the number of InvalidFlow warnings the walk gathers is
/// exactly the number of empty control-flow nodes.
pub proof fn lemma_one_flow_warning_per_empty_block(nodes: Seq<NodeV>)
    ensures
        count_flow(spec_check_seq(nodes)) == count_flow_nodes(nodes),
{
    lemma_flow_count_seq(nodes);
}

/// How many warnings are unresolved references.
pub open spec fn count_unresolved(ws: Seq<WarningV>) -> nat
    decreases ws.len(),
{
    if ws.len() == 0 {
        0
    } else {
        count_unresolved(ws.drop_last()) + (if ws.last() is UnresolvedReference {
            1nat
        } else {
            0nat
        })
    }
}

/// How many warnings are missing responds.
pub open spec fn count_missing_respond(ws: Seq<WarningV>) -> nat
    decreases ws.len(),
{
    if ws.len() == 0 {
        0
    } else {
        count_missing_respond(ws.drop_last()) + (if ws.last() is MissingRespond {
            1nat
        } else {
            0nat
        })
    }
}

/// How many nodes of a forest are a `get` or `remember` with an empty value.
pub open spec fn count_unresolved_nodes(nodes: Seq<NodeV>) -> nat
    decreases nodes,
{
    if nodes.len() == 0 {
        0
    } else {
        count_unresolved_node(nodes[0]) + count_unresolved_nodes(nodes.drop_first())
    }
}

pub open spec fn count_unresolved_node(n: NodeV) -> nat
    decreases n,
{
    (if (n.typ == "get"@ || n.typ == "remember"@) && n.value.len() == 0 {
        1nat
    } else {
        0nat
    }) + count_unresolved_nodes(n.children)
}

/// How many nodes of a forest are a `respond` with an empty value.
pub open spec fn count_respond_nodes(nodes: Seq<NodeV>) -> nat
    decreases nodes,
{
    if nodes.len() == 0 {
        0
    } else {
        count_respond_node(nodes[0]) + count_respond_nodes(nodes.drop_first())
    }
}

pub open spec fn count_respond_node(n: NodeV) -> nat
    decreases n,
{
    (if n.typ == "respond"@ && n.value.len() == 0 {
        1nat
    } else {
        0nat
    }) + count_respond_nodes(n.children)
}

proof fn lemma_count_unresolved_cat(a: Seq<WarningV>, b: Seq<WarningV>)
    ensures
        count_unresolved(a.add(b)) == count_unresolved(a) + count_unresolved(b),
        count_missing_respond(a.add(b)) == count_missing_respond(a) + count_missing_respond(b),
    decreases b.len(),
{
    if b.len() == 0 {
        assert(a.add(b) =~= a);
    } else {
        lemma_count_unresolved_cat(a, b.drop_last());
        assert(a.add(b).drop_last() =~= a.add(b.drop_last()));
        assert(a.add(b).last() == b.last());
    }
}

proof fn lemma_unresolved_count_node(n: NodeV)
    ensures
        count_unresolved(spec_check_node(n)) == count_unresolved_node(n),
        count_missing_respond(spec_check_node(n)) == count_respond_node(n),
    decreases n,
{
    lemma_count_unresolved_cat(own_warnings(n), spec_check_seq(n.children));
    assert(count_unresolved(own_warnings(n)) == (if (n.typ == "get"@ || n.typ == "remember"@)
        && n.value.len() == 0 {
        1nat
    } else {
        0nat
    }) && count_missing_respond(own_warnings(n)) == (if n.typ == "respond"@ && n.value.len() == 0 {
        1nat
    } else {
        0nat
    })) by {
        lemma_type_literals_distinct();
        let ow = own_warnings(n);
        if ow.len() == 0 {
            assert(count_unresolved(ow) == 0);
            assert(count_missing_respond(ow) == 0);
        } else {
            lemma_count_singleton(ow.last());
            assert(ow =~= seq![ow.last()]);
        }
    }
    lemma_unresolved_count_seq(n.children);
}

proof fn lemma_unresolved_count_seq(nodes: Seq<NodeV>)
    ensures
        count_unresolved(spec_check_seq(nodes)) == count_unresolved_nodes(nodes),
        count_missing_respond(spec_check_seq(nodes)) == count_respond_nodes(nodes),
    decreases nodes,
{
    if nodes.len() > 0 {
        lemma_count_unresolved_cat(spec_check_node(nodes[0]), spec_check_seq(nodes.drop_first()));
        lemma_unresolved_count_node(nodes[0]);
        lemma_unresolved_count_seq(nodes.drop_first());
    }
}

/// A `get` or `remember` with an empty value earns exactly one
/// UnresolvedReference warning, and a `respond` with an empty value exactly
/// one MissingRespond warning: over any forest, the counts agree with the
/// counts of such nodes.
pub proof fn lemma_one_warning_per_empty_value(nodes: Seq<NodeV>)
    ensures
        count_unresolved(spec_check_seq(nodes)) == count_unresolved_nodes(nodes),
        count_missing_respond(spec_check_seq(nodes)) == count_respond_nodes(nodes),
{
    lemma_unresolved_count_seq(nodes);
}

} // verus!
