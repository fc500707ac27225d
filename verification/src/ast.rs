//! Tree construction: the flat token list becomes an ordered forest, with
//! parent/child relations derived solely from indentation. A token's children
//! are the following tokens of strictly greater indentation, up to the next
//! token at or below its own.

use vstd::prelude::*;
use crate::tokenizer::{Token, TokenV, tokens_v};

verus! {

broadcast use crate::tokenizer::tokens_v_len, crate::tokenizer::tokens_v_index;

/// A node of the tree: the token's data plus ordered children.
pub struct AstNode {
    pub node_type: String,
    pub value: String,
    pub modifiers: Vec<String>,
    pub children: Vec<AstNode>,
}

/// The abstract value of a node.
pub struct NodeV {
    pub typ: Seq<char>,
    pub value: Seq<char>,
    pub modifiers: Seq<Seq<char>>,
    pub children: Seq<NodeV>,
}

/// Why tree construction can fail.
#[derive(Debug)]
pub enum AstBuildError {
    /// The token list was empty.
    EmptyTokenList,
}

/// The abstract value of a node, children included.
pub open spec fn node_v(n: AstNode) -> NodeV
    decreases n,
{
    NodeV {
        typ: n.node_type@,
        value: n.value@,
        modifiers: crate::strutil::strs_of(n.modifiers@),
        children: nodes_v(n.children@),
    }
}

/// The abstract values of a node list.
pub open spec fn nodes_v(s: Seq<AstNode>) -> Seq<NodeV>
    decreases s,
{
    if s.len() == 0 {
        Seq::empty()
    } else {
        nodes_v(s.drop_last()).push(node_v(s.last()))
    }
}

pub broadcast proof fn nodes_v_len(s: Seq<AstNode>)
    ensures
        (#[trigger] nodes_v(s)).len() == s.len(),
    decreases s.len(),
{
    if s.len() > 0 {
        nodes_v_len(s.drop_last());
    }
}

pub broadcast proof fn nodes_v_index(s: Seq<AstNode>, i: int)
    requires
        0 <= i < s.len(),
    ensures
        #[trigger] nodes_v(s)[i] == node_v(s[i]),
    decreases s.len(),
{
    nodes_v_len(s);
    if i < s.len() - 1 {
        nodes_v_index(s.drop_last(), i);
        assert(s.drop_last()[i] == s[i]);
        nodes_v_len(s.drop_last());
    }
}

/// The first position at or after `i` whose token is indented less than
/// `bound`, or the end of the list: the end of the block that starts at `i`.
pub open spec fn scan_end(tokens: Seq<TokenV>, i: int, bound: int) -> int
    decreases tokens.len() - i,
    when 0 <= i
{
    if i >= tokens.len() {
        tokens.len() as int
    } else if tokens[i].ind < bound {
        i
    } else {
        scan_end(tokens, i + 1, bound)
    }
}

pub proof fn lemma_scan_end_bounds(tokens: Seq<TokenV>, i: int, bound: int)
    requires
        0 <= i <= tokens.len(),
    ensures
        i <= scan_end(tokens, i, bound) <= tokens.len(),
        forall|j: int| i <= j < scan_end(tokens, i, bound) ==> (#[trigger] tokens[j]).ind >= bound,
        scan_end(tokens, i, bound) < tokens.len() ==> tokens[scan_end(tokens, i, bound)].ind
            < bound,
    decreases tokens.len() - i,
{
    if i < tokens.len() && tokens[i].ind >= bound {
        lemma_scan_end_bounds(tokens, i + 1, bound);
    }
}

/// The forest built from the block starting at `i` with parent bound `bound`:
/// one node per token, where a token is followed by children exactly when the
/// next token is indented strictly deeper, the children being the whole run
/// up to the next token at or below that deeper indentation.
pub open spec fn spec_build(tokens: Seq<TokenV>, i: int, bound: int) -> Seq<NodeV>
    decreases tokens.len() - i,
    when 0 <= i <= tokens.len()
    via spec_build_dec
{
    if i >= tokens.len() || tokens[i].ind < bound {
        Seq::empty()
    } else {
        let t = tokens[i];
        if i + 1 < tokens.len() && tokens[i + 1].ind > t.ind {
            let cb = tokens[i + 1].ind;
            let j = scan_end(tokens, i + 1, cb);
            let node = NodeV {
                typ: t.typ,
                value: t.value,
                modifiers: t.modifiers,
                children: spec_build(tokens, i + 1, cb),
            };
            seq![node].add(spec_build(tokens, j, bound))
        } else {
            let node = NodeV {
                typ: t.typ,
                value: t.value,
                modifiers: t.modifiers,
                children: Seq::empty(),
            };
            seq![node].add(spec_build(tokens, i + 1, bound))
        }
    }
}

#[via_fn]
proof fn spec_build_dec(tokens: Seq<TokenV>, i: int, bound: int) {
    if 0 <= i < tokens.len() && tokens[i].ind >= bound {
        if i + 1 < tokens.len() && tokens[i + 1].ind > tokens[i].ind {
            lemma_scan_end_bounds(tokens, i + 1, tokens[i + 1].ind);
        }
    }
}

/// The data of each token in `[i, j)`, as childless node values: what a
/// pre-order walk is compared against.
pub open spec fn tokens_data(tokens: Seq<TokenV>, i: int, j: int) -> Seq<NodeV>
    decreases j - i,
{
    if i >= j {
        Seq::empty()
    } else {
        seq![
            NodeV {
                typ: tokens[i].typ,
                value: tokens[i].value,
                modifiers: tokens[i].modifiers,
                children: Seq::empty(),
            },
        ].add(tokens_data(tokens, i + 1, j))
    }
}

/// A pre-order walk of a forest: each node's own data, then its descendants,
/// then its later siblings.
pub open spec fn preorder(nodes: Seq<NodeV>) -> Seq<NodeV>
    decreases nodes,
{
    if nodes.len() == 0 {
        Seq::empty()
    } else {
        let n = nodes[0];
        seq![NodeV { typ: n.typ, value: n.value, modifiers: n.modifiers, children: Seq::empty() }]
            .add(preorder(n.children).add(preorder(nodes.drop_first())))
    }
}

proof fn lemma_preorder_build(tokens: Seq<TokenV>, i: int, bound: int)
    requires
        0 <= i <= tokens.len(),
    ensures
        preorder(spec_build(tokens, i, bound)) == tokens_data(
            tokens,
            i,
            scan_end(tokens, i, bound),
        ),
    decreases tokens.len() - i,
{
    lemma_scan_end_bounds(tokens, i, bound);
    if i >= tokens.len() || tokens[i].ind < bound {
        assert(scan_end(tokens, i, bound) == i);
        assert(preorder(spec_build(tokens, i, bound)) =~= tokens_data(tokens, i, i));
    } else {
        let t = tokens[i];
        let e = scan_end(tokens, i, bound);
        assert(scan_end(tokens, i, bound) == scan_end(tokens, i + 1, bound));
        if i + 1 < tokens.len() && tokens[i + 1].ind > t.ind {
            let cb = tokens[i + 1].ind;
            let j = scan_end(tokens, i + 1, cb);
            lemma_scan_end_bounds(tokens, i + 1, cb);
            lemma_preorder_build(tokens, i + 1, cb);
            lemma_preorder_build(tokens, j, bound);
            let children = spec_build(tokens, i + 1, cb);
            let siblings = spec_build(tokens, j, bound);
            let built = spec_build(tokens, i, bound);
            let head = NodeV {
                typ: t.typ,
                value: t.value,
                modifiers: t.modifiers,
                children: children,
            };
            assert(built == seq![head].add(siblings));
            assert(built.len() > 0);
            assert(built[0] == head);
            assert(built.drop_first() =~= siblings);
            // the sibling block ends where the whole block ends
            assert(scan_end(tokens, j, bound) == e) by {
                lemma_scan_end_eq(tokens, i + 1, j, bound, cb);
            }
            assert(preorder(built) == seq![
                NodeV {
                    typ: t.typ,
                    value: t.value,
                    modifiers: t.modifiers,
                    children: Seq::empty(),
                },
            ].add(preorder(children).add(preorder(siblings))));
            lemma_tokens_data_cat(tokens, i + 1, j, e);
            assert(preorder(children).add(preorder(siblings)) == tokens_data(tokens, i + 1, j).add(
                tokens_data(tokens, j, e),
            ));
            assert(preorder(built) =~= tokens_data(tokens, i, e));
        } else {
            lemma_preorder_build(tokens, i + 1, bound);
            let built = spec_build(tokens, i, bound);
            let siblings = spec_build(tokens, i + 1, bound);
            let head = NodeV {
                typ: t.typ,
                value: t.value,
                modifiers: t.modifiers,
                children: Seq::<NodeV>::empty(),
            };
            assert(built == seq![head].add(siblings));
            assert(built[0] == head);
            assert(built.drop_first() =~= siblings);
            assert(preorder(head.children) =~= Seq::<NodeV>::empty());
            assert(preorder(built) =~= seq![head].add(preorder(siblings)));
            assert(preorder(built) =~= tokens_data(tokens, i, e));
        }
    }
}

/// Scanning to the end of a nested block and then onward with the outer bound
/// reaches the same end as scanning with the outer bound from the start.
proof fn lemma_scan_end_eq(tokens: Seq<TokenV>, i: int, j: int, bound: int, cb: int)
    requires
        0 <= i <= j <= tokens.len(),
        j == scan_end(tokens, i, cb),
        cb >= bound,
    ensures
        scan_end(tokens, j, bound) == scan_end(tokens, i, bound),
    decreases j - i,
{
    lemma_scan_end_bounds(tokens, i, cb);
    if i < j {
        assert(tokens[i].ind >= cb >= bound);
        assert(scan_end(tokens, i, bound) == scan_end(tokens, i + 1, bound));
        assert(scan_end(tokens, i + 1, cb) == j);
        lemma_scan_end_eq(tokens, i + 1, j, bound, cb);
    }
}

proof fn lemma_tokens_data_cat(tokens: Seq<TokenV>, i: int, j: int, k: int)
    requires
        i <= j <= k,
    ensures
        tokens_data(tokens, i, k) == tokens_data(tokens, i, j).add(tokens_data(tokens, j, k)),
    decreases j - i,
{
    if i < j {
        lemma_tokens_data_cat(tokens, i + 1, j, k);
        assert(tokens_data(tokens, i, k) =~= tokens_data(tokens, i, j).add(
            tokens_data(tokens, j, k),
        ));
    } else {
        assert(tokens_data(tokens, i, j) =~= Seq::<NodeV>::empty());
        assert(tokens_data(tokens, i, j).add(tokens_data(tokens, j, k)) =~= tokens_data(
            tokens,
            j,
            k,
        ));
    }
}

/// A pre-order walk of the built forest reproduces the original token order,
/// whatever the indentation: construction consumes every token exactly once,
/// in order.
pub proof fn lemma_preorder_reproduces_tokens(tokens: Seq<TokenV>)
    requires
        forall|i: int| 0 <= i < tokens.len() ==> (#[trigger] tokens[i]).ind >= 0,
    ensures
        preorder(spec_build(tokens, 0, 0)) == tokens_data(tokens, 0, tokens.len() as int),
{
    lemma_scan_end_bounds(tokens, 0, 0);
    lemma_preorder_build(tokens, 0, 0);
    assert(scan_end(tokens, 0, 0) == tokens.len()) by {
        if scan_end(tokens, 0, 0) < tokens.len() {
            assert(tokens[scan_end(tokens, 0, 0)].ind < 0);
        }
    }
}

/// Build one block: the nodes starting at `start` whose indentation stays at
/// or above `bound`, and the position where the block ends.
fn build_nested(tokens: &Vec<Token>, start: usize, bound: usize) -> (r: (Vec<AstNode>, usize))
    requires
        start <= tokens@.len(),
    ensures
        nodes_v(r.0@) == spec_build(tokens_v(tokens@), start as int, bound as int),
        r.1 as int == scan_end(tokens_v(tokens@), start as int, bound as int),
        start <= r.1 <= tokens@.len(),
    decreases tokens@.len() - start,
{
    let ghost tv = tokens_v(tokens@);
    let n = tokens.len();
    let mut nodes: Vec<AstNode> = Vec::new();
    let mut index: usize = start;
    proof {
        lemma_scan_end_bounds(tv, start as int, bound as int);
    }
    while index < n
        invariant
            n == tokens@.len(),
            tv == tokens_v(tokens@),
            start <= index <= n,
            scan_end(tv, start as int, bound as int) == scan_end(tv, index as int, bound as int),
            spec_build(tv, start as int, bound as int) == nodes_v(nodes@).add(
                spec_build(tv, index as int, bound as int),
            ),
        decreases n - index,
    {
        let ghost nodes_b = nodes_v(nodes@);
        let ghost raw_b = nodes@;
        let ghost idx_b = index as int;
        let tok = &tokens[index];
        if tok.indentation < bound {
            proof {
                assert(spec_build(tv, idx_b, bound as int) =~= Seq::<NodeV>::empty());
                assert(nodes_b.add(Seq::<NodeV>::empty()) =~= nodes_b);
                assert(scan_end(tv, idx_b, bound as int) == idx_b);
            }
            return (nodes, index);
        }
        let node_type = tok.token_type.clone();
        let value = tok.value.clone();
        let mut modifiers: Vec<String> = Vec::new();
        let mut mi: usize = 0;
        while mi < tok.modifiers.len()
            invariant
                mi <= tok.modifiers@.len(),
                crate::strutil::strs_of(modifiers@) =~= crate::strutil::strs_of(
                    tok.modifiers@,
                ).take(mi as int),
            decreases tok.modifiers@.len() - mi,
        {
            let ghost mods_b = modifiers@;
            modifiers.push(tok.modifiers[mi].clone());
            proof {
                broadcast use crate::strutil::strs_of_len, crate::strutil::strs_of_index;

                assert(modifiers@.drop_last() =~= mods_b);
                assert(crate::strutil::strs_of(modifiers@) =~= crate::strutil::strs_of(
                    mods_b,
                ).push(tok.modifiers@[mi as int]@));
            }
            mi += 1;
        }
        proof {
            broadcast use crate::strutil::strs_of_len;

            assert(crate::strutil::strs_of(tok.modifiers@).take(
                tok.modifiers@.len() as int,
            ) =~= crate::strutil::strs_of(tok.modifiers@));
        }
        let has_children = index + 1 < n && tokens[index + 1].indentation > tok.indentation;
        if has_children {
            let cb = tokens[index + 1].indentation;
            let (child_nodes, consumed) = build_nested(tokens, index + 1, cb);
            let node = AstNode { node_type, value, modifiers, children: child_nodes };
            nodes.push(node);
            proof {
                assert(nodes@.drop_last() =~= raw_b);
                assert(nodes_v(nodes@) =~= nodes_b.push(node_v(nodes@.last())));
                assert(node_v(nodes@.last()) == NodeV {
                    typ: tv[idx_b].typ,
                    value: tv[idx_b].value,
                    modifiers: tv[idx_b].modifiers,
                    children: spec_build(tv, idx_b + 1, cb as int),
                });
                assert(spec_build(tv, idx_b, bound as int) == seq![node_v(nodes@.last())].add(
                    spec_build(tv, consumed as int, bound as int),
                ));
                assert(nodes_b.add(seq![node_v(nodes@.last())].add(
                    spec_build(tv, consumed as int, bound as int),
                )) =~= nodes_v(nodes@).add(spec_build(tv, consumed as int, bound as int)));
                lemma_scan_end_bounds(tv, idx_b + 1, cb as int);
                lemma_scan_end_eq(tv, idx_b + 1, consumed as int, bound as int, cb as int);
                assert(scan_end(tv, idx_b, bound as int) == scan_end(
                    tv,
                    consumed as int,
                    bound as int,
                ));
            }
            index = consumed;
        } else {
            let node = AstNode { node_type, value, modifiers, children: Vec::new() };
            nodes.push(node);
            proof {
                assert(nodes@.drop_last() =~= raw_b);
                assert(nodes_v(nodes@.last().children@) =~= Seq::<NodeV>::empty());
                assert(nodes_v(nodes@) =~= nodes_b.push(node_v(nodes@.last())));
                assert(node_v(nodes@.last()) == NodeV {
                    typ: tv[idx_b].typ,
                    value: tv[idx_b].value,
                    modifiers: tv[idx_b].modifiers,
                    children: Seq::<NodeV>::empty(),
                });
                assert(spec_build(tv, idx_b, bound as int) == seq![node_v(nodes@.last())].add(
                    spec_build(tv, idx_b + 1, bound as int),
                ));
                assert(nodes_b.add(seq![node_v(nodes@.last())].add(
                    spec_build(tv, idx_b + 1, bound as int),
                )) =~= nodes_v(nodes@).add(spec_build(tv, idx_b + 1, bound as int)));
            }
            index += 1;
        }
    }
    proof {
        assert(spec_build(tv, index as int, bound as int) =~= Seq::<NodeV>::empty());
        assert(nodes_v(nodes@).add(Seq::<NodeV>::empty()) =~= nodes_v(nodes@));
        assert(scan_end(tv, index as int, bound as int) == index as int);
    }
    (nodes, index)
}

/// Build the forest from a token stream; an empty stream is an error.
pub fn build_ast(tokens: &Vec<Token>) -> (r: Result<Vec<AstNode>, AstBuildError>)
    ensures
        match r {
            Ok(nodes) => tokens@.len() > 0 && nodes_v(nodes@) == spec_build(
                tokens_v(tokens@),
                0,
                0,
            ),
            Err(_) => tokens@.len() == 0,
        },
{
    if tokens.len() == 0 {
        return Err(AstBuildError::EmptyTokenList);
    }
    let (nodes, _) = build_nested(tokens, 0, 0);
    Ok(nodes)
}

} // verus!
