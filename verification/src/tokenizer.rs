//! Line tokenization: each non-blank, non-comment line becomes one token
//! holding a keyword type (or "unknown"), a primary value, ordered modifiers,
//! and the line's indentation. Splitting is aware of double quotes and of
//! parenthesis nesting, either of which suppresses splitting on spaces.

use vstd::prelude::*;
use crate::strutil::{chars_of, is_space, spec_is_space, str_eq, string_from_chars, strs_of};

verus! {

broadcast use crate::strutil::strs_of_len, crate::strutil::strs_of_index;

/// One line's token.
pub struct Token {
    pub token_type: String,
    pub value: String,
    pub modifiers: Vec<String>,
    pub indentation: usize,
}

/// The abstract value of a token.
pub struct TokenV {
    pub typ: Seq<char>,
    pub value: Seq<char>,
    pub modifiers: Seq<Seq<char>>,
    pub ind: int,
}

impl View for Token {
    type V = TokenV;

    open spec fn view(&self) -> TokenV {
        TokenV {
            typ: self.token_type@,
            value: self.value@,
            modifiers: strs_of(self.modifiers@),
            ind: self.indentation as int,
        }
    }
}

/// The fixed keyword vocabulary; any other first word makes an "unknown"
/// token, which is valid and is flagged only by the semantic checker.
pub open spec fn spec_is_keyword(w: Seq<char>) -> bool {
    ||| w == "on"@
    ||| w == "every"@
    ||| w == "if"@
    ||| w == "unless"@
    ||| w == "is"@
    ||| w == "has"@
    ||| w == "load"@
    ||| w == "save"@
    ||| w == "remember"@
    ||| w == "get"@
    ||| w == "respond"@
    ||| w == "show"@
    ||| w == "log"@
    ||| w == "retry"@
    ||| w == "else"@
    ||| w == "then"@
    ||| w == "wait"@
    ||| w == "as"@
    ||| w == "with"@
    ||| w == "from"@
    ||| w == "to"@
    ||| w == "authorize"@
    ||| w == "purge"@
    ||| w == "reset"@
    ||| w == "stop"@
    ||| w == "continue"@
    ||| w == "alert"@
    ||| w == "check"@
    ||| w == "verify"@
    ||| w == "update"@
    ||| w == "delete"@
    ||| w == "create"@
    ||| w == "connect"@
    ||| w == "disconnect"@
    ||| w == "use"@
    ||| w == "define"@
    ||| w == "alias"@
    ||| w == "capture"@
    ||| w == "test"@
    ||| w == "print"@
    ||| w == "route"@
    ||| w == "true"@
    ||| w == "false"@
    ||| w == "while"@
    ||| w == "break"@
    ||| w == "respond_event"@
    ||| w == "start"@
    ||| w == "end"@
    ||| w == "trigger"@
    ||| w == "event"@
    ||| w == "reflect"@
    ||| w == "set"@
}

fn is_keyword(w: &str) -> (r: bool)
    ensures
        r == spec_is_keyword(w@),
{
    str_eq(w, "on") || str_eq(w, "every") || str_eq(w, "if") || str_eq(w, "unless") || str_eq(
        w,
        "is",
    ) || str_eq(w, "has") || str_eq(w, "load") || str_eq(w, "save") || str_eq(w, "remember")
        || str_eq(w, "get") || str_eq(w, "respond") || str_eq(w, "show") || str_eq(w, "log")
        || str_eq(w, "retry") || str_eq(w, "else") || str_eq(w, "then") || str_eq(w, "wait")
        || str_eq(w, "as") || str_eq(w, "with") || str_eq(w, "from") || str_eq(w, "to") || str_eq(
        w,
        "authorize",
    ) || str_eq(w, "purge") || str_eq(w, "reset") || str_eq(w, "stop") || str_eq(w, "continue")
        || str_eq(w, "alert") || str_eq(w, "check") || str_eq(w, "verify") || str_eq(w, "update")
        || str_eq(w, "delete") || str_eq(w, "create") || str_eq(w, "connect") || str_eq(
        w,
        "disconnect",
    ) || str_eq(w, "use") || str_eq(w, "define") || str_eq(w, "alias") || str_eq(w, "capture")
        || str_eq(w, "test") || str_eq(w, "print") || str_eq(w, "route") || str_eq(w, "true")
        || str_eq(w, "false") || str_eq(w, "while") || str_eq(w, "break") || str_eq(
        w,
        "respond_event",
    ) || str_eq(w, "start") || str_eq(w, "end") || str_eq(w, "trigger") || str_eq(w, "event")
        || str_eq(w, "reflect") || str_eq(w, "set")
}

/// The number of leading whitespace characters of a line.
pub open spec fn leading_ws(s: Seq<char>) -> int
    decreases s.len(),
{
    if s.len() == 0 || !spec_is_space(s.first()) {
        0
    } else {
        1 + leading_ws(s.drop_first())
    }
}

proof fn lemma_leading_ws(s: Seq<char>)
    ensures
        0 <= leading_ws(s) <= s.len(),
        forall|j: int| 0 <= j < leading_ws(s) ==> spec_is_space(#[trigger] s[j]),
        leading_ws(s) < s.len() ==> !spec_is_space(s[leading_ws(s)]),
    decreases s.len(),
{
    if s.len() > 0 && spec_is_space(s.first()) {
        lemma_leading_ws(s.drop_first());
        let t = s.drop_first();
        assert(forall|j: int| 0 <= j < t.len() ==> t[j] == s[j + 1]);
        assert forall|j: int| 0 <= j < leading_ws(s) implies spec_is_space(#[trigger] s[j]) by {
            if j > 0 {
                assert(spec_is_space(t[j - 1]));
            }
        }
    }
}

/// The words of a trimmed line, split on spaces outside quotes and outside
/// parentheses; `cur` is the word being gathered, `in_q` the quote state,
/// `depth` the parenthesis nesting.
pub open spec fn spec_split(s: Seq<char>, i: int, cur: Seq<char>, in_q: bool, depth: int) -> Seq<
    Seq<char>,
>
    decreases s.len() - i,
    when 0 <= i
{
    if i >= s.len() {
        if cur.len() > 0 {
            seq![cur]
        } else {
            Seq::empty()
        }
    } else {
        let c = s[i];
        if c == '"' {
            spec_split(s, i + 1, cur.push(c), !in_q, depth)
        } else if c == '(' && !in_q {
            spec_split(s, i + 1, cur.push(c), in_q, depth + 1)
        } else if c == ')' && !in_q {
            spec_split(s, i + 1, cur.push(c), in_q, depth - 1)
        } else if c == ' ' && !in_q && depth == 0 {
            if cur.len() > 0 {
                seq![cur].add(spec_split(s, i + 1, Seq::empty(), in_q, depth))
            } else {
                spec_split(s, i + 1, Seq::empty(), in_q, depth)
            }
        } else {
            spec_split(s, i + 1, cur.push(c), in_q, depth)
        }
    }
}

/// What one raw line yields: nothing for a blank or comment line, otherwise
/// a token whose type is the first word when it is a keyword and "unknown"
/// otherwise, whose value is the second word, and whose modifiers are the
/// rest.
pub open spec fn spec_line_token(line: Seq<char>) -> Option<TokenV> {
    let ind = leading_ws(line);
    let trimmed = line.skip(ind);
    if trimmed.len() == 0 || (trimmed.len() >= 2 && trimmed[0] == '/' && trimmed[1] == '/') {
        None
    } else {
        let parts = spec_split(trimmed, 0, Seq::empty(), false, 0);
        let first = if parts.len() > 0 {
            parts[0]
        } else {
            "unknown"@
        };
        let typ = if spec_is_keyword(first) {
            first
        } else {
            "unknown"@
        };
        let value = if parts.len() > 1 {
            parts[1]
        } else {
            Seq::empty()
        };
        let modifiers = if parts.len() > 2 {
            parts.skip(2)
        } else {
            Seq::empty()
        };
        Some(TokenV { typ, value, modifiers, ind })
    }
}

/// The tokens of a sequence of lines, in order.
pub open spec fn spec_tokenize_lines(lines: Seq<Seq<char>>) -> Seq<TokenV>
    decreases lines.len(),
{
    if lines.len() == 0 {
        Seq::empty()
    } else {
        let rest = spec_tokenize_lines(lines.drop_last());
        match spec_line_token(lines.last()) {
            Some(t) => rest.push(t),
            None => rest,
        }
    }
}

/// The abstract values of a token list.
pub open spec fn tokens_v(s: Seq<Token>) -> Seq<TokenV>
    decreases s.len(),
{
    if s.len() == 0 {
        Seq::empty()
    } else {
        tokens_v(s.drop_last()).push(s.last()@)
    }
}

pub broadcast proof fn tokens_v_len(s: Seq<Token>)
    ensures
        (#[trigger] tokens_v(s)).len() == s.len(),
    decreases s.len(),
{
    if s.len() > 0 {
        tokens_v_len(s.drop_last());
    }
}

pub broadcast proof fn tokens_v_index(s: Seq<Token>, i: int)
    requires
        0 <= i < s.len(),
    ensures
        #[trigger] tokens_v(s)[i] == s[i]@,
    decreases s.len(),
{
    tokens_v_len(s);
    if i < s.len() - 1 {
        tokens_v_index(s.drop_last(), i);
        assert(s.drop_last()[i] == s[i]);
        tokens_v_len(s.drop_last());
    }
}

/// Tokenize one line, if it carries anything.
fn tokenize_line(line: &str) -> (r: Option<Token>)
    ensures
        match r {
            Some(t) => spec_line_token(line@) == Some(t@),
            None => spec_line_token(line@) is None,
        },
{
    let v = chars_of(line);
    let n = v.len();
    let mut ind: usize = 0;
    while ind < n && is_space(v[ind])
        invariant
            n == v@.len(),
            ind <= n,
            forall|j: int| 0 <= j < ind ==> spec_is_space(#[trigger] v@[j]),
        decreases n - ind,
    {
        ind += 1;
    }
    proof {
        lemma_leading_ws(v@);
        assert(leading_ws(v@) <= ind as int) by {
            if leading_ws(v@) > ind as int {
                assert(spec_is_space(v@[ind as int]));
            }
        }
        assert(leading_ws(v@) >= ind as int) by {
            if leading_ws(v@) < ind as int {
                assert(!spec_is_space(v@[leading_ws(v@)]));
                assert(spec_is_space(v@[leading_ws(v@)]));
            }
        }
    }
    let ghost trimmed = v@.skip(ind as int);
    if ind == n {
        proof {
            assert(trimmed.len() == 0);
        }
        return None;
    }
    if ind + 1 < n && v[ind] == '/' && v[ind + 1] == '/' {
        proof {
            assert(trimmed[0] == '/' && trimmed[1] == '/');
        }
        return None;
    }
    proof {
        assert(trimmed.len() > 0);
        assert(!(trimmed.len() >= 2 && trimmed[0] == '/' && trimmed[1] == '/'));
    }
    // split the trimmed text into words
    let mut parts: Vec<String> = Vec::new();
    let mut cur: Vec<char> = Vec::new();
    let mut in_q = false;
    let mut depth: i128 = 0;
    let mut i: usize = ind;
    proof {
        assert(trimmed.len() == n - ind);
    }
    while i < n
        invariant
            n == v@.len(),
            ind <= i <= n,
            ind <= n,
            trimmed == v@.skip(ind as int),
            trimmed.len() == n - ind,
            depth as int <= i as int - ind as int,
            -(depth as int) <= i as int - ind as int,
            spec_split(trimmed, 0, Seq::empty(), false, 0) == strs_of(parts@).add(
                spec_split(trimmed, i - ind, cur@, in_q, depth as int),
            ),
        decreases n - i,
    {
        let ghost parts_b = strs_of(parts@);
        let ghost rawparts_b = parts@;
        let ghost cur_b = cur@;
        let ghost depth_b = depth as int;
        let ghost inq_b = in_q;
        let ghost k = i - ind;
        proof {
            assert(trimmed[k as int] == v@[i as int]);
        }
        let c = v[i];
        if c == '"' {
            in_q = !in_q;
            cur.push(c);
        } else if c == '(' && !in_q {
            depth = depth + 1;
            cur.push(c);
        } else if c == ')' && !in_q {
            depth = depth - 1;
            cur.push(c);
        } else if c == ' ' && !in_q && depth == 0 {
            if cur.len() > 0 {
                let w = string_from_chars(&cur);
                parts.push(w);
                cur = Vec::new();
                proof {
                    assert(parts@.drop_last() =~= rawparts_b);
                    assert(strs_of(parts@) =~= parts_b.push(cur_b));
                    assert(spec_split(trimmed, k as int, cur_b, inq_b, depth_b) == seq![cur_b].add(
                        spec_split(trimmed, k + 1, Seq::empty(), inq_b, depth_b),
                    ));
                    assert(parts_b.add(seq![cur_b].add(
                        spec_split(trimmed, k + 1, Seq::empty(), inq_b, depth_b),
                    )) =~= strs_of(parts@).add(
                        spec_split(trimmed, k + 1, Seq::empty(), inq_b, depth_b),
                    ));
                }
            } else {
                proof {
                    assert(cur@ =~= Seq::<char>::empty());
                }
            }
        } else {
            cur.push(c);
        }
        i += 1;
    }
    if cur.len() > 0 {
        let ghost parts_b = strs_of(parts@);
        let ghost rawparts_b = parts@;
        let w = string_from_chars(&cur);
        parts.push(w);
        proof {
            assert(parts@.drop_last() =~= rawparts_b);
            assert(spec_split(trimmed, trimmed.len() as int, cur@, in_q, depth as int)
                == seq![cur@]);
            assert(strs_of(parts@) =~= parts_b.push(cur@));
            assert(parts_b.add(seq![cur@]) =~= strs_of(parts@));
        }
    } else {
        proof {
            assert(spec_split(trimmed, trimmed.len() as int, cur@, in_q, depth as int)
                =~= Seq::<Seq<char>>::empty());
            assert(strs_of(parts@).add(Seq::<Seq<char>>::empty()) =~= strs_of(parts@));
        }
    }
    let ghost sparts = spec_split(trimmed, 0, Seq::empty(), false, 0);
    proof {
        assert(sparts == strs_of(parts@));
    }
    let first: String = if parts.len() > 0 {
        parts[0].clone()
    } else {
        "unknown".to_owned()
    };
    let token_type: String = if is_keyword(first.as_str()) {
        first
    } else {
        "unknown".to_owned()
    };
    let value: String = if parts.len() > 1 {
        parts[1].clone()
    } else {
        String::new()
    };
    let mut modifiers: Vec<String> = Vec::new();
    let mut k: usize = 2;
    while k < parts.len()
        invariant
            2 <= k <= parts@.len() || (parts@.len() < 2 && k == 2),
            strs_of(modifiers@) =~= if parts@.len() > 2 {
                strs_of(parts@).subrange(2, k as int)
            } else {
                Seq::<Seq<char>>::empty()
            },
        decreases parts@.len() - k,
    {
        let ghost mods_b = strs_of(modifiers@);
        let ghost rawmods_b = modifiers@;
        modifiers.push(parts[k].clone());
        proof {
            assert(modifiers@.drop_last() =~= rawmods_b);
            assert(strs_of(modifiers@) =~= mods_b.push(parts@[k as int]@));
            assert(strs_of(parts@).subrange(2, k + 1) =~= strs_of(parts@).subrange(2, k as int)
                .push(strs_of(parts@)[k as int]));
        }
        k += 1;
    }
    let t = Token { token_type, value, modifiers, indentation: ind };
    proof {
        if sparts.len() > 2 {
            assert(strs_of(t.modifiers@) =~= sparts.skip(2));
        }
        assert(spec_line_token(line@) == Some(t@));
    }
    Some(t)
}

/// Tokenize a list of raw lines; blank and comment lines yield nothing.
pub fn tokenize_lines(lines: &Vec<String>) -> (r: Vec<Token>)
    ensures
        tokens_v(r@) == spec_tokenize_lines(strs_of(lines@)),
{
    let mut out: Vec<Token> = Vec::new();
    let mut i: usize = 0;
    proof {
        assert(strs_of(lines@).take(0) =~= Seq::<Seq<char>>::empty());
        assert(tokens_v(out@) =~= Seq::<TokenV>::empty());
    }
    while i < lines.len()
        invariant
            i <= lines@.len(),
            tokens_v(out@) == spec_tokenize_lines(strs_of(lines@).take(i as int)),
        decreases lines@.len() - i,
    {
        let ghost out_b = out@;
        match tokenize_line(lines[i].as_str()) {
            Some(t) => {
                out.push(t);
                proof {
                    assert(out@.drop_last() =~= out_b);
                    assert(tokens_v(out@) =~= tokens_v(out_b).push(t@));
                }
            },
            None => {},
        }
        proof {
            let pre = strs_of(lines@).take(i + 1);
            assert(pre.drop_last() =~= strs_of(lines@).take(i as int));
            assert(pre.last() == lines@[i as int]@);
        }
        i += 1;
    }
    proof {
        assert(strs_of(lines@).take(lines@.len() as int) =~= strs_of(lines@));
    }
    out
}

} // verus!
