//! Resolution glue: a value is either a literal key or, when it carries math
//! symbols or a placeholder, an expression to evaluate against the flat
//! memory view.

use vstd::prelude::*;
use crate::math::{MathError, evaluate_expression, spec_evaluate};
use crate::memory::{MemoryStore, spec_flat};
use crate::strutil::{
    chars_of, i32_string, spec_int_str, spec_trim_quotes, string_from_chars, trim_quote_chars,
};

verus! {

/// Whether a trimmed value is treated as an expression: it holds an
/// arithmetic symbol, a parenthesis, or an opening placeholder.
pub open spec fn spec_has_math(s: Seq<char>) -> bool {
    ||| exists|i: int|
        0 <= i < s.len() && (s[i] == '+' || s[i] == '-' || s[i] == '*' || s[i] == '/' || (#[
            trigger
        ] s[i]) == '%' || s[i] == '(' || s[i] == ')')
    ||| exists|i: int| 0 <= i && i + 1 < s.len() && (#[trigger] s[i]) == '{' && s[i + 1] == '{'
}

fn is_math_char(c: char) -> (r: bool)
    ensures
        r == (c == '+' || c == '-' || c == '*' || c == '/' || c == '%' || c == '(' || c == ')'),
{
    c == '+' || c == '-' || c == '*' || c == '/' || c == '%' || c == '(' || c == ')'
}

fn has_math(v: &Vec<char>) -> (r: bool)
    ensures
        r == spec_has_math(v@),
{
    let n = v.len();
    let mut i: usize = 0;
    while i < n
        invariant
            n == v@.len(),
            i <= n,
            forall|j: int|
                0 <= j < i ==> !(v@[j] == '+' || v@[j] == '-' || v@[j] == '*' || v@[j] == '/' || (#[
                    trigger
                ] v@[j]) == '%' || v@[j] == '(' || v@[j] == ')'),
            forall|j: int|
                0 <= j && j + 1 < v@.len() && j < i ==> !((#[trigger] v@[j]) == '{' && v@[j + 1]
                    == '{'),
        decreases n - i,
    {
        if is_math_char(v[i]) {
            return true;
        }
        if v[i] == '{' && i + 1 < n && v[i + 1] == '{' {
            return true;
        }
        i += 1;
    }
    false
}

/// What resolving a value yields: a quoted-or-math value is evaluated as an
/// expression and rendered in decimal; anything else is returned as the
/// trimmed literal.
pub open spec fn spec_resolve_key_or_expression(s: Seq<char>, mem: Map<Seq<char>, Seq<char>>) -> Result<
    Seq<char>,
    MathError,
> {
    let t = spec_trim_quotes(s);
    if spec_has_math(t) {
        match spec_evaluate(t, mem) {
            Ok(v) => Ok(spec_int_str(v)),
            Err(e) => Err(e),
        }
    } else {
        Ok(t)
    }
}

/// Resolve an expression or literal key using the current memory: quoted or
/// math-bearing input is evaluated, anything else is returned trimmed.
pub fn resolve_key_or_expression(input: &str, memory: &MemoryStore) -> (r: Result<
    String,
    MathError,
>)
    requires
        memory.wf(),
    ensures
        match r {
            Ok(v) => spec_resolve_key_or_expression(input@, spec_flat(memory@)) == Ok::<
                Seq<char>,
                MathError,
            >(v@),
            Err(e) => spec_resolve_key_or_expression(input@, spec_flat(memory@)) == Err::<
                Seq<char>,
                MathError,
            >(e),
        },
{
    let chars = chars_of(input);
    let trimmed = trim_quote_chars(&chars);
    if has_math(&trimmed) {
        let flat = memory.flatten_map();
        let text = string_from_chars(&trimmed);
        match evaluate_expression(text.as_str(), &flat) {
            Ok(n) => Ok(i32_string(n)),
            Err(e) => Err(e),
        }
    } else {
        Ok(string_from_chars(&trimmed))
    }
}

} // verus!
