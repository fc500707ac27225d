//! Integer and comparison expression evaluation: placeholder substitution,
//! tokenization, shunting-yard conversion to postfix, and stack evaluation.
//! Every stage has a specification mirror, and the executable code is proved
//! to compute exactly what the mirror describes.

use vstd::prelude::*;
use crate::memory::StrMap;
use crate::strutil::{
    copy_range, is_digit, parse_dec_chars, spec_digits_val, spec_is_digit, spec_parse_dec,
    spec_all_digits, ints_of, append_chars, chars_of, i32_chars, spec_int_str, spec_trim_ws,
    spec_trim_quotes, string_from_chars, trim_quote_chars, trim_ws_chars,
};
use vstd::arithmetic::div_mod::lemma_fundamental_div_mod;

verus! {

/// A binary operator of the expression language.
#[derive(Clone, Copy, PartialEq, Eq, Structural, Debug)]
pub enum MathOp {
    Add,
    Sub,
    Mul,
    Div,
    Mod,
    CmpEq,
    CmpNe,
    CmpLt,
    CmpLe,
    CmpGt,
    CmpGe,
}

/// A token of the expression language.
#[derive(Clone, Copy, PartialEq, Eq, Structural, Debug)]
pub enum MathToken {
    /// An integer literal.
    Number(i32),
    /// A binary operator.
    Operator(MathOp),
    /// An opening parenthesis.
    OpenParen,
    /// A closing parenthesis.
    CloseParen,
    /// A `=` or `!` that did not form a comparison operator; rejected later.
    Stray(char),
}

/// Why an expression failed to evaluate. Every failure is recoverable for
/// callers: substitution treats it as zero, conditions log and skip.
#[derive(Clone, Copy, PartialEq, Eq, Structural, Debug)]
pub enum MathError {
    /// A character outside the expression alphabet.
    UnexpectedChar(char),
    /// An integer literal too large for the value range.
    NumberTooLarge,
    /// A `)` with no matching `(`.
    UnmatchedClose,
    /// A `(` left over when the input ended.
    MismatchedParens,
    /// A token that is neither a number nor a usable operator.
    UnknownToken(char),
    /// An operator with fewer than two stacked operands.
    MissingOperand,
    /// Division with a zero divisor.
    DivisionByZero,
    /// Modulo with a zero divisor.
    ModuloByZero,
    /// An arithmetic result outside the value range.
    Overflow,
    /// An input that produced no value at all.
    EmptyResult,
}

/// Operator precedence: comparisons bind loosest, then additive, then
/// multiplicative.
pub open spec fn spec_prec(op: MathOp) -> int {
    match op {
        MathOp::CmpEq | MathOp::CmpNe | MathOp::CmpLt | MathOp::CmpLe | MathOp::CmpGt
            | MathOp::CmpGe => 0,
        MathOp::Add | MathOp::Sub => 1,
        MathOp::Mul | MathOp::Div | MathOp::Mod => 2,
    }
}

pub fn precedence(op: &MathOp) -> (p: i32)
    ensures
        p as int == spec_prec(*op),
{
    match op {
        MathOp::CmpEq | MathOp::CmpNe | MathOp::CmpLt | MathOp::CmpLe | MathOp::CmpGt
            | MathOp::CmpGe => 0,
        MathOp::Add | MathOp::Sub => 1,
        MathOp::Mul | MathOp::Div | MathOp::Mod => 2,
    }
}

pub fn is_operator(t: &MathToken) -> (r: bool)
    ensures
        r == (*t is Operator),
{
    match t {
        MathToken::Operator(_) => true,
        _ => false,
    }
}

/// The end of the digit run starting at `i`.
pub open spec fn digit_run_end(s: Seq<char>, i: int) -> int
    decreases s.len() - i,
{
    if i >= s.len() || !spec_is_digit(s[i]) {
        i
    } else {
        digit_run_end(s, i + 1)
    }
}

proof fn lemma_digit_run_end_bounds(s: Seq<char>, i: int)
    requires
        0 <= i <= s.len(),
    ensures
        i <= digit_run_end(s, i) <= s.len(),
        forall|j: int| i <= j < digit_run_end(s, i) ==> spec_is_digit(#[trigger] s[j]),
        digit_run_end(s, i) < s.len() ==> !spec_is_digit(s[digit_run_end(s, i)]),
    decreases s.len() - i,
{
    if i < s.len() && spec_is_digit(s[i]) {
        lemma_digit_run_end_bounds(s, i + 1);
    }
}

proof fn lemma_digit_run_end_eq(s: Seq<char>, i: int, j: int)
    requires
        0 <= i <= j <= s.len(),
        forall|k: int| i <= k < j ==> spec_is_digit(#[trigger] s[k]),
        j < s.len() ==> !spec_is_digit(s[j]),
    ensures
        digit_run_end(s, i) == j,
    decreases j - i,
{
    if i < j {
        lemma_digit_run_end_eq(s, i + 1, j);
    }
}

/// Prepend `pre` to the token list of a tokenization outcome.
pub open spec fn spec_cat(pre: Seq<MathToken>, r: Result<Seq<MathToken>, MathError>) -> Result<
    Seq<MathToken>,
    MathError,
> {
    match r {
        Ok(rest) => Ok(pre.add(rest)),
        Err(e) => Err(e),
    }
}

proof fn lemma_spec_cat_assoc(
    a: Seq<MathToken>,
    b: Seq<MathToken>,
    r: Result<Seq<MathToken>, MathError>,
)
    ensures
        spec_cat(a, spec_cat(b, r)) == spec_cat(a.add(b), r),
{
    match r {
        Ok(rest) => {
            assert(a.add(b.add(rest)) =~= a.add(b).add(rest));
        },
        Err(_) => {},
    }
}

/// What tokenizing `s` from position `i` yields: integer literals, the
/// operators `+ - * / %`, parentheses, and the comparisons `== != < <= > >=`
/// formed by greedily taking a trailing `=`; spaces are skipped; any other
/// character fails.
pub open spec fn spec_mtokenize(s: Seq<char>, i: int) -> Result<Seq<MathToken>, MathError>
    decreases s.len() - i,
    when 0 <= i
    via spec_mtokenize_dec
{
    if i >= s.len() {
        Ok(Seq::empty())
    } else {
        let c = s[i];
        if spec_is_digit(c) {
            let j = digit_run_end(s, i);
            let val = spec_digits_val(s.subrange(i, j));
            if val > i32::MAX as nat {
                Err(MathError::NumberTooLarge)
            } else {
                spec_cat(seq![MathToken::Number(val as i32)], spec_mtokenize(s, j))
            }
        } else if c == '+' {
            spec_cat(seq![MathToken::Operator(MathOp::Add)], spec_mtokenize(s, i + 1))
        } else if c == '-' {
            spec_cat(seq![MathToken::Operator(MathOp::Sub)], spec_mtokenize(s, i + 1))
        } else if c == '*' {
            spec_cat(seq![MathToken::Operator(MathOp::Mul)], spec_mtokenize(s, i + 1))
        } else if c == '/' {
            spec_cat(seq![MathToken::Operator(MathOp::Div)], spec_mtokenize(s, i + 1))
        } else if c == '%' {
            spec_cat(seq![MathToken::Operator(MathOp::Mod)], spec_mtokenize(s, i + 1))
        } else if c == '(' {
            spec_cat(seq![MathToken::OpenParen], spec_mtokenize(s, i + 1))
        } else if c == ')' {
            spec_cat(seq![MathToken::CloseParen], spec_mtokenize(s, i + 1))
        } else if c == '=' || c == '!' || c == '<' || c == '>' {
            if i + 1 < s.len() && s[i + 1] == '=' {
                let op = if c == '=' {
                    MathOp::CmpEq
                } else if c == '!' {
                    MathOp::CmpNe
                } else if c == '<' {
                    MathOp::CmpLe
                } else {
                    MathOp::CmpGe
                };
                spec_cat(seq![MathToken::Operator(op)], spec_mtokenize(s, i + 2))
            } else if c == '<' {
                spec_cat(seq![MathToken::Operator(MathOp::CmpLt)], spec_mtokenize(s, i + 1))
            } else if c == '>' {
                spec_cat(seq![MathToken::Operator(MathOp::CmpGt)], spec_mtokenize(s, i + 1))
            } else {
                spec_cat(seq![MathToken::Stray(c)], spec_mtokenize(s, i + 1))
            }
        } else if c == ' ' {
            spec_mtokenize(s, i + 1)
        } else {
            Err(MathError::UnexpectedChar(c))
        }
    }
}

#[via_fn]
proof fn spec_mtokenize_dec(s: Seq<char>, i: int) {
    if 0 <= i < s.len() && spec_is_digit(s[i]) {
        lemma_digit_run_end_bounds(s, i + 1);
    }
}

/// Split an expression into tokens.
pub fn tokenize(v: &Vec<char>) -> (r: Result<Vec<MathToken>, MathError>)
    ensures
        match r {
            Ok(toks) => spec_mtokenize(v@, 0) == Ok::<Seq<MathToken>, MathError>(toks@),
            Err(e) => spec_mtokenize(v@, 0) == Err::<Seq<MathToken>, MathError>(e),
        },
{
    let n = v.len();
    let mut out: Vec<MathToken> = Vec::new();
    let mut i: usize = 0;
    proof {
        match spec_mtokenize(v@, 0) {
            Ok(rest) => {
                assert(Seq::<MathToken>::empty().add(rest) =~= rest);
            },
            Err(_) => {},
        }
    }
    while i < n
        invariant
            n == v@.len(),
            i <= n,
            spec_mtokenize(v@, 0) == spec_cat(out@, spec_mtokenize(v@, i as int)),
        decreases n - i,
    {
        let ghost out0 = out@;
        let ghost i0 = i as int;
        let c = v[i];
        if is_digit(c) {
            let mut j: usize = i;
            while j < n && is_digit(v[j])
                invariant
                    n == v@.len(),
                    i <= j <= n,
                    forall|k: int| i <= k < j ==> spec_is_digit(#[trigger] v@[k]),
                decreases n - j,
            {
                j += 1;
            }
            proof {
                lemma_digit_run_end_eq(v@, i as int, j as int);
            }
            let digits = copy_range(v, i, j);
            match parse_dec_chars(&digits, 0x7fffffff) {
                Some(x) => {
                    out.push(MathToken::Number(x as i32));
                    proof {
                        assert(spec_all_digits(digits@));
                        assert(spec_parse_dec(digits@, 0x7fffffff as nat) == Some(x as nat));
                        assert(spec_mtokenize(v@, i0) == spec_cat(
                            seq![MathToken::Number(x as i32)],
                            spec_mtokenize(v@, j as int),
                        ));
                        lemma_spec_cat_assoc(
                            out0,
                            seq![MathToken::Number(x as i32)],
                            spec_mtokenize(v@, j as int),
                        );
                        assert(out0.add(seq![MathToken::Number(x as i32)]) =~= out@);
                    }
                    i = j;
                },
                None => {
                    proof {
                        assert(spec_all_digits(digits@));
                        assert(spec_digits_val(digits@) > 0x7fffffff as nat);
                        assert(spec_mtokenize(v@, i0) == Err::<Seq<MathToken>, MathError>(
                            MathError::NumberTooLarge,
                        ));
                    }
                    return Err(MathError::NumberTooLarge);
                },
            }
        } else if c == '+' || c == '-' || c == '*' || c == '/' || c == '%' || c == '(' || c == ')' {
            let t = if c == '+' {
                MathToken::Operator(MathOp::Add)
            } else if c == '-' {
                MathToken::Operator(MathOp::Sub)
            } else if c == '*' {
                MathToken::Operator(MathOp::Mul)
            } else if c == '/' {
                MathToken::Operator(MathOp::Div)
            } else if c == '%' {
                MathToken::Operator(MathOp::Mod)
            } else if c == '(' {
                MathToken::OpenParen
            } else {
                MathToken::CloseParen
            };
            out.push(t);
            proof {
                lemma_spec_cat_assoc(out0, seq![t], spec_mtokenize(v@, i0 + 1));
                assert(out0.add(seq![t]) =~= out@);
            }
            i += 1;
        } else if c == '=' || c == '!' || c == '<' || c == '>' {
            if i + 1 < n && v[i + 1] == '=' {
                let op = if c == '=' {
                    MathOp::CmpEq
                } else if c == '!' {
                    MathOp::CmpNe
                } else if c == '<' {
                    MathOp::CmpLe
                } else {
                    MathOp::CmpGe
                };
                out.push(MathToken::Operator(op));
                proof {
                    lemma_spec_cat_assoc(
                        out0,
                        seq![MathToken::Operator(op)],
                        spec_mtokenize(v@, i0 + 2),
                    );
                    assert(out0.add(seq![MathToken::Operator(op)]) =~= out@);
                }
                i += 2;
            } else {
                let t = if c == '<' {
                    MathToken::Operator(MathOp::CmpLt)
                } else if c == '>' {
                    MathToken::Operator(MathOp::CmpGt)
                } else {
                    MathToken::Stray(c)
                };
                out.push(t);
                proof {
                    lemma_spec_cat_assoc(out0, seq![t], spec_mtokenize(v@, i0 + 1));
                    assert(out0.add(seq![t]) =~= out@);
                }
                i += 1;
            }
        } else if c == ' ' {
            i += 1;
        } else {
            proof {
                assert(spec_mtokenize(v@, i0) == Err::<Seq<MathToken>, MathError>(
                    MathError::UnexpectedChar(c),
                ));
            }
            return Err(MathError::UnexpectedChar(c));
        }
    }
    proof {
        assert(spec_mtokenize(v@, i as int) == Ok::<Seq<MathToken>, MathError>(Seq::empty()));
        assert(out@.add(Seq::<MathToken>::empty()) =~= out@);
    }
    Ok(out)
}

/// Whether an operator stack still holds an opening parenthesis.
pub open spec fn has_open(ops: Seq<MathToken>) -> bool {
    exists|k: int| 0 <= k < ops.len() && ops[k] is OpenParen
}

/// Pop operators of precedence at least `p` from the stack onto the output.
pub open spec fn pop_ge(ops: Seq<MathToken>, out: Seq<MathToken>, p: int) -> (Seq<MathToken>, Seq<
    MathToken,
>)
    decreases ops.len(),
{
    if ops.len() > 0 && (ops.last() is Operator) && spec_prec(ops.last()->Operator_0) >= p {
        pop_ge(ops.drop_last(), out.push(ops.last()), p)
    } else {
        (ops, out)
    }
}

/// Pop the stack onto the output until an opening parenthesis is removed;
/// nothing if the stack runs out first.
pub open spec fn pop_to_open(ops: Seq<MathToken>, out: Seq<MathToken>) -> Option<(Seq<MathToken>, Seq<
    MathToken,
>)>
    decreases ops.len(),
{
    if ops.len() == 0 {
        None
    } else if ops.last() is OpenParen {
        Some((ops.drop_last(), out))
    } else {
        pop_to_open(ops.drop_last(), out.push(ops.last()))
    }
}

/// What the shunting-yard conversion yields from position `i` with operator
/// stack `ops` and output so far `out`: the tokens in postfix order, or the
/// parenthesis error the input earns.
pub open spec fn spec_sy(
    tokens: Seq<MathToken>,
    i: int,
    ops: Seq<MathToken>,
    out: Seq<MathToken>,
) -> Result<Seq<MathToken>, MathError>
    decreases tokens.len() - i,
    when 0 <= i
{
    if i >= tokens.len() {
        if has_open(ops) {
            Err(MathError::MismatchedParens)
        } else {
            Ok(out.add(ops.reverse()))
        }
    } else {
        match tokens[i] {
            MathToken::Number(_) => spec_sy(tokens, i + 1, ops, out.push(tokens[i])),
            MathToken::Operator(o) => {
                let (ops2, out2) = pop_ge(ops, out, spec_prec(o));
                spec_sy(tokens, i + 1, ops2.push(tokens[i]), out2)
            },
            MathToken::OpenParen => spec_sy(tokens, i + 1, ops.push(tokens[i]), out),
            MathToken::CloseParen => match pop_to_open(ops, out) {
                None => Err(MathError::UnmatchedClose),
                Some((ops2, out2)) => spec_sy(tokens, i + 1, ops2, out2),
            },
            MathToken::Stray(c) => Err(MathError::UnknownToken(c)),
        }
    }
}

proof fn lemma_pop_nonparen_keeps_open(ops: Seq<MathToken>)
    requires
        ops.len() > 0,
        !(ops.last() is OpenParen),
    ensures
        has_open(ops.drop_last()) == has_open(ops),
{
    if has_open(ops) {
        let k = choose|k: int| 0 <= k < ops.len() && ops[k] is OpenParen;
        assert(k < ops.len() - 1);
        assert(ops.drop_last()[k] is OpenParen);
    }
    if has_open(ops.drop_last()) {
        let k = choose|k: int| 0 <= k < ops.drop_last().len() && ops.drop_last()[k] is OpenParen;
        assert(ops[k] is OpenParen);
    }
}

/// Convert an infix token list to postfix order.
pub fn shunting_yard(tokens: &Vec<MathToken>) -> (r: Result<Vec<MathToken>, MathError>)
    ensures
        match r {
            Ok(rpn) => spec_sy(tokens@, 0, Seq::empty(), Seq::empty()) == Ok::<
                Seq<MathToken>,
                MathError,
            >(rpn@),
            Err(e) => spec_sy(tokens@, 0, Seq::empty(), Seq::empty()) == Err::<
                Seq<MathToken>,
                MathError,
            >(e),
        },
{
    let n = tokens.len();
    let mut ops: Vec<MathToken> = Vec::new();
    let mut out: Vec<MathToken> = Vec::new();
    let mut i: usize = 0;
    while i < n
        invariant
            n == tokens@.len(),
            i <= n,
            spec_sy(tokens@, 0, Seq::empty(), Seq::empty()) == spec_sy(
                tokens@,
                i as int,
                ops@,
                out@,
            ),
        decreases n - i,
    {
        let t = tokens[i];
        match t {
            MathToken::Number(_) => {
                out.push(t);
            },
            MathToken::Operator(o) => {
                let p = precedence(&o);
                let ghost gops = ops@;
                let ghost gout = out@;
                loop
                    invariant_except_break
                        p as int == spec_prec(o),
                        pop_ge(gops, gout, spec_prec(o)) == pop_ge(ops@, out@, spec_prec(o)),
                    ensures
                        (ops@, out@) == pop_ge(gops, gout, spec_prec(o)),
                    decreases ops@.len(),
                {
                    let ghost ops_b = ops@;
                    let ghost out_b = out@;
                    if ops.len() == 0 {
                        proof {
                            assert(pop_ge(ops_b, out_b, spec_prec(o)) == (ops_b, out_b));
                        }
                        break;
                    }
                    let top = ops[ops.len() - 1];
                    proof {
                        assert(top == ops_b.last());
                    }
                    match top {
                        MathToken::Operator(oo) => {
                            proof {
                                assert(top == MathToken::Operator(oo));
                                assert(ops_b.last()->Operator_0 == oo);
                            }
                            if precedence(&oo) >= p {
                                proof {
                                    assert(spec_prec(oo) >= p as int);
                                    assert(p as int == spec_prec(o));
                                }
                                let popped = ops.pop().unwrap();
                                out.push(popped);
                                proof {
                                    assert(ops_b.drop_last() =~= ops@);
                                    assert(ops_b.last() == popped);
                                    assert(ops_b.len() > 0);
                                    assert(ops_b.last() is Operator);
                                    assert(spec_prec(ops_b.last()->Operator_0) >= spec_prec(o));
                                    assert(out@ == out_b.push(ops_b.last()));
                                    assert(ops@ == ops_b.drop_last());
                                    assert(pop_ge(ops_b, out_b, spec_prec(o)) == pop_ge(
                                        ops_b.drop_last(),
                                        out_b.push(ops_b.last()),
                                        spec_prec(o),
                                    ));
                                    assert(pop_ge(ops_b, out_b, spec_prec(o)) == pop_ge(
                                        ops@,
                                        out@,
                                        spec_prec(o),
                                    ));
                                }
                            } else {
                                proof {
                                    assert(pop_ge(ops_b, out_b, spec_prec(o)) == (ops_b, out_b));
                                }
                                break;
                            }
                        },
                        _ => {
                            proof {
                                assert(pop_ge(ops_b, out_b, spec_prec(o)) == (ops_b, out_b));
                            }
                            break;
                        },
                    }
                }
                ops.push(t);
            },
            MathToken::OpenParen => {
                ops.push(t);
            },
            MathToken::CloseParen => {
                let ghost gops = ops@;
                let ghost gout = out@;
                let mut matched = false;
                loop
                    invariant_except_break
                        !matched,
                        pop_to_open(gops, gout) == pop_to_open(ops@, out@),
                    ensures
                        matched ==> pop_to_open(gops, gout) == Some((ops@, out@)),
                        !matched ==> {
                            &&& pop_to_open(gops, gout) is None
                            &&& ops@.len() == 0
                        },
                    decreases ops@.len(),
                {
                    let ghost ops_b = ops@;
                    let ghost out_b = out@;
                    match ops.pop() {
                        None => {
                            proof {
                                assert(pop_to_open(ops_b, out_b) is None);
                            }
                            break;
                        },
                        Some(op) => {
                            proof {
                                assert(ops_b.drop_last() =~= ops@);
                                assert(ops_b.last() == op);
                            }
                            match op {
                                MathToken::OpenParen => {
                                    proof {
                                        assert(pop_to_open(ops_b, out_b) == Some((ops@, out@)));
                                    }
                                    matched = true;
                                    break;
                                },
                                _ => {
                                    out.push(op);
                                    proof {
                                        assert(pop_to_open(ops_b, out_b) == pop_to_open(
                                            ops@,
                                            out@,
                                        ));
                                    }
                                },
                            }
                        },
                    }
                }
                if !matched {
                    return Err(MathError::UnmatchedClose);
                }
            },
            MathToken::Stray(c) => {
                return Err(MathError::UnknownToken(c));
            },
        }
        i += 1;
    }
    let ghost gops = ops@;
    let ghost gout = out@;
    let mut saw_paren = false;
    loop
        invariant_except_break
            !saw_paren,
            out@.add(ops@.reverse()) == gout.add(gops.reverse()),
            has_open(ops@) == has_open(gops),
        ensures
            saw_paren ==> has_open(gops),
            !saw_paren ==> {
                &&& !has_open(gops)
                &&& out@ == gout.add(gops.reverse())
            },
        decreases ops@.len(),
    {
        let ghost ops_b = ops@;
        let ghost out_b = out@;
        match ops.pop() {
            None => {
                proof {
                    assert(ops_b.reverse() =~= Seq::<MathToken>::empty());
                    assert(out_b.add(ops_b.reverse()) =~= out_b);
                }
                break;
            },
            Some(op) => {
                proof {
                    assert(ops_b.drop_last() =~= ops@);
                    assert(ops_b.last() == op);
                }
                match op {
                    MathToken::OpenParen => {
                        saw_paren = true;
                        proof {
                            assert(ops_b[ops_b.len() - 1] is OpenParen);
                        }
                        break;
                    },
                    _ => {
                        out.push(op);
                        proof {
                            lemma_pop_nonparen_keeps_open(ops_b);
                            assert(ops_b.reverse() =~= seq![op].add(ops@.reverse()));
                            assert(out_b.add(ops_b.reverse()) =~= out@.add(ops@.reverse()));
                        }
                    },
                }
            },
        }
    }
    if saw_paren {
        return Err(MathError::MismatchedParens);
    }
    Ok(out)
}

broadcast use crate::strutil::ints_of_len, crate::strutil::ints_of_index;

/// The magnitude of an integer.
pub open spec fn iabs(a: int) -> int {
    if a >= 0 {
        a
    } else {
        -a
    }
}

/// Truncating division, as the machine division operator computes it: the
/// quotient of the magnitudes, carrying the sign of the exact quotient.
pub open spec fn tdiv(a: int, b: int) -> int {
    if (a >= 0) == (b >= 0) {
        iabs(a) / iabs(b)
    } else {
        -(iabs(a) / iabs(b))
    }
}

/// Truncating remainder: what is left after truncating division, carrying
/// the sign of the dividend.
pub open spec fn tmod(a: int, b: int) -> int {
    a - b * tdiv(a, b)
}

/// The exact outcome of one operator on two operands, before any range check.
pub open spec fn spec_apply(op: MathOp, a: int, b: int) -> Result<int, MathError> {
    match op {
        MathOp::Add => Ok(a + b),
        MathOp::Sub => Ok(a - b),
        MathOp::Mul => Ok(a * b),
        MathOp::Div => if b == 0 {
            Err(MathError::DivisionByZero)
        } else {
            Ok(tdiv(a, b))
        },
        MathOp::Mod => if b == 0 {
            Err(MathError::ModuloByZero)
        } else {
            Ok(tmod(a, b))
        },
        MathOp::CmpEq => Ok(if a == b { 1int } else { 0int }),
        MathOp::CmpNe => Ok(if a != b { 1int } else { 0int }),
        MathOp::CmpLt => Ok(if a < b { 1int } else { 0int }),
        MathOp::CmpLe => Ok(if a <= b { 1int } else { 0int }),
        MathOp::CmpGt => Ok(if a > b { 1int } else { 0int }),
        MathOp::CmpGe => Ok(if a >= b { 1int } else { 0int }),
    }
}

/// What evaluating a postfix token list from position `i` on the given value
/// stack yields: each operator pops its right then left operand and pushes
/// one result; a result outside the `i32` range is an overflow failure; the
/// final value is the top of the stack.
pub open spec fn spec_rpn(tokens: Seq<MathToken>, i: int, stack: Seq<int>) -> Result<
    int,
    MathError,
>
    decreases tokens.len() - i,
    when 0 <= i
{
    if i >= tokens.len() {
        if stack.len() == 0 {
            Err(MathError::EmptyResult)
        } else {
            Ok(stack.last())
        }
    } else {
        match tokens[i] {
            MathToken::Number(n) => spec_rpn(tokens, i + 1, stack.push(n as int)),
            MathToken::Operator(o) => if stack.len() < 2 {
                Err(MathError::MissingOperand)
            } else {
                let b = stack.last();
                let a = stack[stack.len() - 2];
                match spec_apply(o, a, b) {
                    Err(e) => Err(e),
                    Ok(v) => if v < i32::MIN as int || v > i32::MAX as int {
                        Err(MathError::Overflow)
                    } else {
                        spec_rpn(tokens, i + 1, stack.drop_last().drop_last().push(v))
                    },
                }
            },
            MathToken::OpenParen => if stack.len() < 2 {
                Err(MathError::MissingOperand)
            } else {
                Err(MathError::UnknownToken('('))
            },
            MathToken::CloseParen => if stack.len() < 2 {
                Err(MathError::MissingOperand)
            } else {
                Err(MathError::UnknownToken(')'))
            },
            MathToken::Stray(c) => if stack.len() < 2 {
                Err(MathError::MissingOperand)
            } else {
                Err(MathError::UnknownToken(c))
            },
        }
    }
}

/// Truncating division and remainder of two machine integers, computed on
/// magnitudes so that no intermediate step can overflow.
fn div_rem_trunc(a: i32, b: i32) -> (r: (i64, i64))
    requires
        b != 0,
    ensures
        r.0 as int == tdiv(a as int, b as int),
        r.1 as int == tmod(a as int, b as int),
{
    let au: u32 = if a >= 0 {
        a as u32
    } else {
        (-(a as i64)) as u32
    };
    let bu: u32 = if b >= 0 {
        b as u32
    } else {
        (-(b as i64)) as u32
    };
    let qu: u32 = au / bu;
    let ru: u32 = au % bu;
    proof {
        assert(au as int == iabs(a as int));
        assert(bu as int == iabs(b as int));
        lemma_fundamental_div_mod(au as int, bu as int);
        assert(au as int == bu as int * (au as int / bu as int) + (au as int % bu as int));
    }
    let q: i64 = if (a >= 0) == (b >= 0) {
        qu as i64
    } else {
        -(qu as i64)
    };
    let r: i64 = if a >= 0 {
        ru as i64
    } else {
        -(ru as i64)
    };
    proof {
        let ai = a as int;
        let bi = b as int;
        assert(q as int == tdiv(ai, bi));
        assert(ru as int == iabs(ai) - iabs(bi) * (iabs(ai) / iabs(bi)));
        if ai >= 0 && bi >= 0 {
            assert(r as int == ai - bi * tdiv(ai, bi));
        } else if ai >= 0 && bi < 0 {
            assert(r as int == ai - bi * tdiv(ai, bi)) by (nonlinear_arith)
                requires
                    q as int == tdiv(ai, bi),
                    r as int == ru as int,
                    ru as int == ai - (-bi) * (ai / -bi),
                    tdiv(ai, bi) == -(ai / -bi),
            ;
        } else if ai < 0 && bi >= 0 {
            assert(r as int == ai - bi * tdiv(ai, bi)) by (nonlinear_arith)
                requires
                    r as int == -(ru as int),
                    ru as int == (-ai) - bi * ((-ai) / bi),
                    tdiv(ai, bi) == -((-ai) / bi),
            ;
        } else {
            assert(r as int == ai - bi * tdiv(ai, bi)) by (nonlinear_arith)
                requires
                    r as int == -(ru as int),
                    ru as int == (-ai) - (-bi) * ((-ai) / -bi),
                    tdiv(ai, bi) == (-ai) / -bi,
            ;
        }
    }
    (q, r)
}

/// Evaluate a postfix token list on an integer stack.
pub fn evaluate_rpn(tokens: &Vec<MathToken>) -> (r: Result<i32, MathError>)
    ensures
        match r {
            Ok(v) => spec_rpn(tokens@, 0, Seq::empty()) == Ok::<int, MathError>(v as int),
            Err(e) => spec_rpn(tokens@, 0, Seq::empty()) == Err::<int, MathError>(e),
        },
{
    let n = tokens.len();
    let mut stack: Vec<i32> = Vec::new();
    let mut i: usize = 0;
    proof {
        assert(ints_of(stack@) =~= Seq::<int>::empty());
    }
    while i < n
        invariant
            n == tokens@.len(),
            i <= n,
            spec_rpn(tokens@, 0, Seq::empty()) == spec_rpn(tokens@, i as int, ints_of(stack@)),
        decreases n - i,
    {
        let ghost st_b = ints_of(stack@);
        let t = tokens[i];
        match t {
            MathToken::Number(x) => {
                stack.push(x);
                proof {
                    assert(ints_of(stack@) =~= st_b.push(x as int));
                }
            },
            MathToken::Operator(o) => {
                if stack.len() < 2 {
                    return Err(MathError::MissingOperand);
                }
                let bv = stack[stack.len() - 1];
                let av = stack[stack.len() - 2];
                let ghost ai = av as int;
                let ghost bi = bv as int;
                let applied: Result<i64, MathError> = match o {
                    MathOp::Add => Ok(av as i64 + bv as i64),
                    MathOp::Sub => Ok(av as i64 - bv as i64),
                    MathOp::Mul => {
                        proof {
                            assert(-0x8000_0000_0000_0000 <= ai * bi
                                <= 0x7fff_ffff_ffff_ffff) by (nonlinear_arith)
                                requires
                                    -0x8000_0000 <= ai <= 0x7fff_ffff,
                                    -0x8000_0000 <= bi <= 0x7fff_ffff,
                            ;
                        }
                        Ok(av as i64 * bv as i64)
                    },
                    MathOp::Div => {
                        if bv == 0 {
                            return Err(MathError::DivisionByZero);
                        }
                        let (q, _) = div_rem_trunc(av, bv);
                        Ok(q)
                    },
                    MathOp::Mod => {
                        if bv == 0 {
                            return Err(MathError::ModuloByZero);
                        }
                        let (_, rr) = div_rem_trunc(av, bv);
                        Ok(rr)
                    },
                    MathOp::CmpEq => Ok(if av == bv { 1 } else { 0 }),
                    MathOp::CmpNe => Ok(if av != bv { 1 } else { 0 }),
                    MathOp::CmpLt => Ok(if av < bv { 1 } else { 0 }),
                    MathOp::CmpLe => Ok(if av <= bv { 1 } else { 0 }),
                    MathOp::CmpGt => Ok(if av > bv { 1 } else { 0 }),
                    MathOp::CmpGe => Ok(if av >= bv { 1 } else { 0 }),
                };
                let v64 = match applied {
                    Ok(v) => v,
                    Err(e) => { return Err(e); },
                };
                proof {
                    assert(spec_apply(o, ai, bi) == Ok::<int, MathError>(v64 as int));
                }
                if v64 < -0x8000_0000i64 || v64 > 0x7fff_ffffi64 {
                    return Err(MathError::Overflow);
                }
                let v = v64 as i32;
                let _ = stack.pop();
                let _ = stack.pop();
                stack.push(v);
                proof {
                    assert(ints_of(stack@) =~= st_b.drop_last().drop_last().push(v as int));
                }
            },
            MathToken::OpenParen | MathToken::CloseParen | MathToken::Stray(_) => {
                if stack.len() < 2 {
                    return Err(MathError::MissingOperand);
                }
                let c = match t {
                    MathToken::OpenParen => '(',
                    MathToken::CloseParen => ')',
                    MathToken::Stray(cc) => cc,
                    _ => ' ',
                };
                return Err(MathError::UnknownToken(c));
            },
        }
        i += 1;
    }
    if stack.len() == 0 {
        return Err(MathError::EmptyResult);
    }
    let top = stack[stack.len() - 1];
    proof {
        assert(ints_of(stack@).last() == top as int);
    }
    Ok(top)
}

/// The key text of a placeholder starting at `i`, and the position after its
/// closing braces. A lone `}` is part of the key; the key ends at `}}` or at
/// the end of the input.
pub open spec fn scan_key(s: Seq<char>, i: int) -> (Seq<char>, int)
    decreases s.len() - i,
    when 0 <= i
{
    if i >= s.len() {
        (Seq::empty(), i)
    } else if s[i] == '}' && i + 1 < s.len() && s[i + 1] == '}' {
        (Seq::empty(), i + 2)
    } else {
        let (k, j) = scan_key(s, i + 1);
        (seq![s[i]].add(k), j)
    }
}

proof fn lemma_scan_key_ge(s: Seq<char>, i: int)
    requires
        0 <= i,
    ensures
        scan_key(s, i).1 >= i,
        scan_key(s, i).1 <= s.len() || scan_key(s, i).1 == i,
    decreases s.len() - i,
{
    if i < s.len() && !(s[i] == '}' && i + 1 < s.len() && s[i + 1] == '}') {
        lemma_scan_key_ge(s, i + 1);
    }
}

/// The replacement for a plain placeholder key: the mapped value of the
/// whitespace-trimmed key, or `0` when the key is unmapped.
/// Whether `c` can start an identifier inside an expression.
pub open spec fn spec_is_ident_start(c: char) -> bool {
    ('a' <= c && c <= 'z') || ('A' <= c && c <= 'Z') || c == '_'
}

/// Whether `c` can continue an identifier inside an expression.
pub open spec fn spec_is_ident_char(c: char) -> bool {
    spec_is_ident_start(c) || ('0' <= c && c <= '9')
}

fn is_ident_start(c: char) -> (r: bool)
    ensures
        r == spec_is_ident_start(c),
{
    ('a' <= c && c <= 'z') || ('A' <= c && c <= 'Z') || c == '_'
}

fn is_ident_char(c: char) -> (r: bool)
    ensures
        r == spec_is_ident_char(c),
{
    is_ident_start(c) || ('0' <= c && c <= '9')
}

/// The end of the identifier run starting at `i`.
pub open spec fn ident_run_end(s: Seq<char>, i: int) -> int
    decreases s.len() - i,
{
    if i >= s.len() || !spec_is_ident_char(s[i]) {
        i
    } else {
        ident_run_end(s, i + 1)
    }
}

proof fn lemma_ident_run_end_bounds(s: Seq<char>, i: int)
    requires
        0 <= i <= s.len(),
    ensures
        i <= ident_run_end(s, i) <= s.len(),
        forall|j: int| i <= j < ident_run_end(s, i) ==> spec_is_ident_char(#[trigger] s[j]),
        ident_run_end(s, i) < s.len() ==> !spec_is_ident_char(s[ident_run_end(s, i)]),
    decreases s.len() - i,
{
    if i < s.len() && spec_is_ident_char(s[i]) {
        lemma_ident_run_end_bounds(s, i + 1);
    }
}

proof fn lemma_ident_run_end_eq(s: Seq<char>, i: int, j: int)
    requires
        0 <= i <= j <= s.len(),
        forall|k: int| i <= k < j ==> spec_is_ident_char(#[trigger] s[k]),
        j < s.len() ==> !spec_is_ident_char(s[j]),
    ensures
        ident_run_end(s, i) == j,
    decreases j - i,
{
    if i < j {
        lemma_ident_run_end_eq(s, i + 1, j);
    }
}

/// The replacement for a bare identifier inside an expression: its mapped
/// value, or `0` when the name is unmapped.
pub open spec fn ident_value(mem: Map<Seq<char>, Seq<char>>, word: Seq<char>) -> Seq<char> {
    if mem.dom().contains(word) {
        mem[word]
    } else {
        seq!['0']
    }
}

pub open spec fn lookup_or_zero(mem: Map<Seq<char>, Seq<char>>, key: Seq<char>) -> Seq<char> {
    let k = spec_trim_ws(key);
    if mem.dom().contains(k) {
        mem[k]
    } else {
        seq!['0']
    }
}

/// The input with each `{{key}}` placeholder and each bare identifier
/// replaced by its mapped value, defaulting to `0`; substituted text is not
/// scanned again.
pub open spec fn spec_subst(s: Seq<char>, i: int, mem: Map<Seq<char>, Seq<char>>) -> Seq<char>
    decreases s.len() - i,
    when 0 <= i
    via spec_subst_dec
{
    if i >= s.len() {
        Seq::empty()
    } else if s[i] == '{' && i + 1 < s.len() && s[i + 1] == '{' {
        let (key, j) = scan_key(s, i + 2);
        lookup_or_zero(mem, key).add(spec_subst(s, j, mem))
    } else if spec_is_ident_start(s[i]) {
        let j = ident_run_end(s, i);
        ident_value(mem, s.subrange(i, j)).add(spec_subst(s, j, mem))
    } else {
        seq![s[i]].add(spec_subst(s, i + 1, mem))
    }
}

#[via_fn]
proof fn spec_subst_dec(s: Seq<char>, i: int, mem: Map<Seq<char>, Seq<char>>) {
    if 0 <= i < s.len() {
        if s[i] == '{' && i + 1 < s.len() && s[i + 1] == '{' {
            lemma_scan_key_ge(s, i + 2);
        } else if spec_is_ident_start(s[i]) {
            lemma_ident_run_end_bounds(s, i + 1);
        }
    }
}

/// One quote layer stripped: the input without its first and last characters
/// when both are double quotes.
pub open spec fn spec_strip_quotes(s: Seq<char>) -> Seq<char> {
    if s.len() >= 2 && s[0] == '"' && s[s.len() - 1] == '"' {
        s.subrange(1, s.len() - 1)
    } else {
        s
    }
}

/// What evaluating an expression against a flat memory yields: strip one
/// quote layer, substitute placeholders, trim stray quotes, tokenize,
/// convert to postfix, and evaluate.
pub open spec fn spec_evaluate(s: Seq<char>, mem: Map<Seq<char>, Seq<char>>) -> Result<
    int,
    MathError,
> {
    let cleaned = spec_strip_quotes(s);
    let resolved = spec_subst(cleaned, 0, mem);
    let stripped = spec_trim_quotes(resolved);
    match spec_mtokenize(stripped, 0) {
        Err(e) => Err(e),
        Ok(toks) => match spec_sy(toks, 0, Seq::empty(), Seq::empty()) {
            Err(e) => Err(e),
            Ok(rpn) => spec_rpn(rpn, 0, Seq::empty()),
        },
    }
}

/// The input with each `{{expr}}` replaced by the decimal value of the
/// evaluated expression, or `0` when evaluation fails.
pub open spec fn spec_math_subst(s: Seq<char>, i: int, mem: Map<Seq<char>, Seq<char>>) -> Seq<char>
    decreases s.len() - i,
    when 0 <= i
    via spec_math_subst_dec
{
    if i >= s.len() {
        Seq::empty()
    } else if s[i] == '{' && i + 1 < s.len() && s[i + 1] == '{' {
        let (key, j) = scan_key(s, i + 2);
        let rep = match spec_evaluate(key, mem) {
            Ok(v) => spec_int_str(v),
            Err(_) => seq!['0'],
        };
        rep.add(spec_math_subst(s, j, mem))
    } else {
        seq![s[i]].add(spec_math_subst(s, i + 1, mem))
    }
}

#[via_fn]
proof fn spec_math_subst_dec(s: Seq<char>, i: int, mem: Map<Seq<char>, Seq<char>>) {
    if 0 <= i < s.len() && s[i] == '{' && i + 1 < s.len() && s[i + 1] == '{' {
        lemma_scan_key_ge(s, i + 2);
    }
}

/// Strip one enclosing quote pair, if present.
pub fn strip_quotes(v: &Vec<char>) -> (r: Vec<char>)
    ensures
        r@ == spec_strip_quotes(v@),
{
    if v.len() >= 2 && v[0] == '"' && v[v.len() - 1] == '"' {
        copy_range(v, 1, v.len() - 1)
    } else {
        copy_range(v, 0, v.len())
    }
}

/// Scan the key of a placeholder whose `{{` has just been consumed; returns
/// the key and the position after the closing braces.
fn scan_key_exec(v: &Vec<char>, start: usize) -> (r: (Vec<char>, usize))
    requires
        start <= v@.len(),
    ensures
        (r.0@, r.1 as int) == scan_key(v@, start as int),
        start <= r.1 <= v@.len(),
{
    let n = v.len();
    let mut key: Vec<char> = Vec::new();
    let mut k: usize = start;
    loop
        invariant_except_break
            start <= k <= n,
            n == v@.len(),
            scan_key(v@, start as int) == (key@.add(scan_key(v@, k as int).0), scan_key(
                v@,
                k as int,
            ).1),
        ensures
            (key@, k as int) == scan_key(v@, start as int),
            start <= k <= n,
        decreases n - k,
    {
        let ghost key_b = key@;
        let ghost k_b = k as int;
        if k >= n {
            proof {
                assert(scan_key(v@, k_b) == (Seq::<char>::empty(), k_b));
                assert(key_b.add(Seq::<char>::empty()) =~= key_b);
            }
            break;
        }
        if v[k] == '}' && k + 1 < n && v[k + 1] == '}' {
            k += 2;
            proof {
                assert(scan_key(v@, k_b) == (Seq::<char>::empty(), k_b + 2));
                assert(key_b.add(Seq::<char>::empty()) =~= key_b);
            }
            break;
        }
        key.push(v[k]);
        k += 1;
        proof {
            let (k1, j1) = scan_key(v@, k as int);
            assert(scan_key(v@, k_b) == (seq![v@[k_b]].add(k1), j1));
            assert(key_b.add(seq![v@[k_b]].add(k1)) =~= key@.add(k1));
        }
    }
    (key, k)
}

/// Substitute each `{{key}}` placeholder and each bare identifier with its
/// mapped value, defaulting to `0`.
pub fn resolve_placeholders(v: &Vec<char>, mem: &StrMap) -> (r: Vec<char>)
    requires
        mem.wf(),
    ensures
        r@ == spec_subst(v@, 0, mem@),
{
    let n = v.len();
    let mut out: Vec<char> = Vec::new();
    let mut i: usize = 0;
    proof {
        assert(Seq::<char>::empty().add(spec_subst(v@, 0, mem@)) =~= spec_subst(v@, 0, mem@));
    }
    while i < n
        invariant
            n == v@.len(),
            i <= n,
            mem.wf(),
            spec_subst(v@, 0, mem@) == out@.add(spec_subst(v@, i as int, mem@)),
        decreases n - i,
    {
        let ghost out_b = out@;
        let ghost i_b = i as int;
        if v[i] == '{' && i + 1 < n && v[i + 1] == '{' {
            let (key, j) = scan_key_exec(v, i + 2);
            let trimmed = trim_ws_chars(&key);
            match mem.get_by_chars(&trimmed) {
                Some(val) => {
                    let chars = chars_of(val.as_str());
                    append_chars(&mut out, &chars);
                    proof {
                        assert(lookup_or_zero(mem@, key@) == chars@);
                    }
                },
                None => {
                    out.push('0');
                    proof {
                        assert(lookup_or_zero(mem@, key@) =~= seq!['0']);
                        assert(out@ =~= out_b.add(seq!['0']));
                    }
                },
            }
            proof {
                assert(spec_subst(v@, i_b, mem@) == lookup_or_zero(mem@, key@).add(
                    spec_subst(v@, j as int, mem@),
                ));
                assert(out_b.add(spec_subst(v@, i_b, mem@)) =~= out@.add(
                    spec_subst(v@, j as int, mem@),
                ));
            }
            i = j;
        } else if is_ident_start(v[i]) {
            let mut j: usize = i;
            while j < n && is_ident_char(v[j])
                invariant
                    n == v@.len(),
                    i <= j <= n,
                    forall|k: int| i <= k < j ==> spec_is_ident_char(#[trigger] v@[k]),
                decreases n - j,
            {
                j += 1;
            }
            proof {
                lemma_ident_run_end_eq(v@, i_b, j as int);
            }
            let word = copy_range(v, i, j);
            match mem.get_by_chars(&word) {
                Some(val) => {
                    let chars = chars_of(val.as_str());
                    append_chars(&mut out, &chars);
                    proof {
                        assert(ident_value(mem@, word@) == chars@);
                    }
                },
                None => {
                    out.push('0');
                    proof {
                        assert(ident_value(mem@, word@) =~= seq!['0']);
                        assert(out@ =~= out_b.add(seq!['0']));
                    }
                },
            }
            proof {
                assert(spec_subst(v@, i_b, mem@) == ident_value(mem@, word@).add(
                    spec_subst(v@, j as int, mem@),
                ));
                assert(out_b.add(spec_subst(v@, i_b, mem@)) =~= out@.add(
                    spec_subst(v@, j as int, mem@),
                ));
            }
            i = j;
        } else {
            out.push(v[i]);
            proof {
                assert(spec_subst(v@, i_b, mem@) == seq![v@[i_b]].add(
                    spec_subst(v@, i_b + 1, mem@),
                ));
                assert(out_b.add(spec_subst(v@, i_b, mem@)) =~= out@.add(
                    spec_subst(v@, i_b + 1, mem@),
                ));
            }
            i += 1;
        }
    }
    proof {
        assert(spec_subst(v@, i as int, mem@) == Seq::<char>::empty());
        assert(out@.add(Seq::<char>::empty()) =~= out@);
    }
    out
}

/// Evaluate an expression given as characters against a flat memory.
fn evaluate_expression_chars(v: &Vec<char>, mem: &StrMap) -> (r: Result<i32, MathError>)
    requires
        mem.wf(),
    ensures
        match r {
            Ok(x) => spec_evaluate(v@, mem@) == Ok::<int, MathError>(x as int),
            Err(e) => spec_evaluate(v@, mem@) == Err::<int, MathError>(e),
        },
{
    let cleaned = strip_quotes(v);
    let resolved = resolve_placeholders(&cleaned, mem);
    let stripped = trim_quote_chars(&resolved);
    let toks = match tokenize(&stripped) {
        Ok(t) => t,
        Err(e) => { return Err(e); },
    };
    let rpn = match shunting_yard(&toks) {
        Ok(t) => t,
        Err(e) => { return Err(e); },
    };
    evaluate_rpn(&rpn)
}

/// Evaluate a math or comparison expression with memory substitution.
pub fn evaluate_expression(expression: &str, memory: &StrMap) -> (r: Result<i32, MathError>)
    requires
        memory.wf(),
    ensures
        match r {
            Ok(x) => spec_evaluate(expression@, memory@) == Ok::<int, MathError>(x as int),
            Err(e) => spec_evaluate(expression@, memory@) == Err::<int, MathError>(e),
        },
{
    let chars = chars_of(expression);
    evaluate_expression_chars(&chars, memory)
}

/// Replace every `{{expr}}` in the input with its evaluated value, or `0`
/// where evaluation fails.
pub fn resolve_math_placeholders(input: &str, memory: &StrMap) -> (r: String)
    requires
        memory.wf(),
    ensures
        r@ == spec_math_subst(input@, 0, memory@),
{
    let v = chars_of(input);
    let n = v.len();
    let mut out: Vec<char> = Vec::new();
    let mut i: usize = 0;
    proof {
        assert(Seq::<char>::empty().add(spec_math_subst(v@, 0, memory@)) =~= spec_math_subst(
            v@,
            0,
            memory@,
        ));
    }
    while i < n
        invariant
            n == v@.len(),
            i <= n,
            memory.wf(),
            v@ == input@,
            spec_math_subst(v@, 0, memory@) == out@.add(spec_math_subst(v@, i as int, memory@)),
        decreases n - i,
    {
        let ghost out_b = out@;
        let ghost i_b = i as int;
        if v[i] == '{' && i + 1 < n && v[i + 1] == '{' {
            let (key, j) = scan_key_exec(&v, i + 2);
            match evaluate_expression_chars(&key, memory) {
                Ok(x) => {
                    let chars = i32_chars(x);
                    append_chars(&mut out, &chars);
                    proof {
                        assert(spec_math_subst(v@, i_b, memory@) == spec_int_str(x as int).add(
                            spec_math_subst(v@, j as int, memory@),
                        ));
                    }
                },
                Err(_) => {
                    out.push('0');
                    proof {
                        assert(out@ =~= out_b.add(seq!['0']));
                        assert(spec_math_subst(v@, i_b, memory@) == seq!['0'].add(
                            spec_math_subst(v@, j as int, memory@),
                        ));
                    }
                },
            }
            proof {
                assert(out_b.add(spec_math_subst(v@, i_b, memory@)) =~= out@.add(
                    spec_math_subst(v@, j as int, memory@),
                ));
            }
            i = j;
        } else {
            out.push(v[i]);
            proof {
                assert(spec_math_subst(v@, i_b, memory@) == seq![v@[i_b]].add(
                    spec_math_subst(v@, i_b + 1, memory@),
                ));
                assert(out_b.add(spec_math_subst(v@, i_b, memory@)) =~= out@.add(
                    spec_math_subst(v@, i_b + 1, memory@),
                ));
            }
            i += 1;
        }
    }
    proof {
        assert(spec_math_subst(v@, i as int, memory@) == Seq::<char>::empty());
        assert(out@.add(Seq::<char>::empty()) =~= out@);
    }
    string_from_chars(&out)
}

} // verus!
