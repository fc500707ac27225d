//! Small verified string helpers shared by the tokenizer, the expression
//! evaluator and the runtime engine: equality, substring search, trimming,
//! character collection and decimal rendering.

use vstd::prelude::*;

verus! {

/// Relies on std's `String::push`: appends the given character to the end of
/// the string.
#[verifier::external_body]
pub fn push_char(s: &mut String, c: char)
    ensures
        final(s)@ == old(s)@.push(c),
{
    s.push(c);
}

/// Character-for-character equality of two string slices.
pub fn str_eq(a: &str, b: &str) -> (r: bool)
    ensures
        r == (a@ == b@),
{
    let alen = a.unicode_len();
    let blen = b.unicode_len();
    if alen != blen {
        assert(a@ != b@) by {
            assert(a@.len() != b@.len());
        }
        return false;
    }
    let mut i: usize = 0;
    while i < alen
        invariant
            alen == a@.len(),
            alen == b@.len(),
            i <= alen,
            forall|j: int| 0 <= j < i ==> a@[j] == b@[j],
        decreases alen - i,
    {
        if a.get_char(i) != b.get_char(i) {
            return false;
        }
        i += 1;
    }
    proof {
        assert(a@ =~= b@);
    }
    true
}

/// Equality of a string slice and a vector of characters.
pub fn str_chars_eq(a: &str, b: &Vec<char>) -> (r: bool)
    ensures
        r == (a@ == b@),
{
    let alen = a.unicode_len();
    if alen != b.len() {
        return false;
    }
    let mut i: usize = 0;
    while i < alen
        invariant
            alen == a@.len(),
            alen == b@.len(),
            i <= alen,
            forall|j: int| 0 <= j < i ==> a@[j] == b@[j],
        decreases alen - i,
    {
        if a.get_char(i) != b[i] {
            return false;
        }
        i += 1;
    }
    proof {
        assert(a@ =~= b@);
    }
    true
}

/// Equality of two owned strings, by their characters.
pub fn string_eq(a: &String, b: &String) -> (r: bool)
    ensures
        r == (a@ == b@),
{
    str_eq(a.as_str(), b.as_str())
}

/// The characters of a string slice, as a vector.
pub fn chars_of(s: &str) -> (r: Vec<char>)
    ensures
        r@ == s@,
{
    let len = s.unicode_len();
    let mut r: Vec<char> = Vec::new();
    let mut i: usize = 0;
    while i < len
        invariant
            len == s@.len(),
            i <= len,
            r@ =~= s@.subrange(0, i as int),
        decreases len - i,
    {
        r.push(s.get_char(i));
        i += 1;
    }
    proof {
        assert(r@ =~= s@);
    }
    r
}

/// A string built from the given characters.
pub fn string_from_chars(v: &Vec<char>) -> (r: String)
    ensures
        r@ == v@,
{
    let mut r = String::new();
    let mut i: usize = 0;
    while i < v.len()
        invariant
            i <= v@.len(),
            r@ =~= v@.subrange(0, i as int),
        decreases v@.len() - i,
    {
        push_char(&mut r, v[i]);
        i += 1;
    }
    proof {
        assert(r@ =~= v@);
    }
    r
}

/// Whether `pat` occurs as a contiguous run of characters inside `s`.
pub open spec fn spec_has_substr(s: Seq<char>, pat: Seq<char>) -> bool {
    exists|i: int|
        0 <= i && i + pat.len() <= s.len() && #[trigger] s.subrange(i, i + pat.len() as int)
            == pat
}

/// Substring search, character by character.
pub fn has_substr(s: &str, pat: &str) -> (r: bool)
    ensures
        r == spec_has_substr(s@, pat@),
{
    let slen = s.unicode_len();
    let plen = pat.unicode_len();
    if plen > slen {
        return false;
    }
    let mut start: usize = 0;
    while start <= slen - plen
        invariant
            slen == s@.len(),
            plen == pat@.len(),
            plen <= slen,
            start <= slen - plen + 1,
            forall|i: int|
                0 <= i < start ==> #[trigger] s@.subrange(i, i + pat@.len() as int) != pat@,
        decreases slen - plen - start + 1,
    {
        let mut j: usize = 0;
        let mut matched = true;
        while j < plen
            invariant
                slen == s@.len(),
                plen == pat@.len(),
                start + plen <= slen,
                j <= plen,
                matched ==> forall|k: int| 0 <= k < j ==> s@[start + k] == pat@[k],
                !matched ==> exists|k: int| 0 <= k < plen && s@[start + k] != pat@[k],
            decreases plen - j,
        {
            if s.get_char(start + j) != pat.get_char(j) {
                matched = false;
                proof {
                    assert(0 <= j < plen && s@[start + j as int] != pat@[j as int]);
                }
            }
            j += 1;
        }
        proof {
            let sub = s@.subrange(start as int, start + pat@.len() as int);
            assert(forall|k: int| 0 <= k < pat@.len() ==> sub[k] == s@[start + k]);
            if matched {
                assert forall|k: int| 0 <= k < sub.len() implies sub[k] == pat@[k] by {
                    assert(s@[start + k] == pat@[k]);
                }
                assert(sub =~= pat@);
            } else {
                let k = choose|k: int| 0 <= k < plen && s@[start + k] != pat@[k];
                assert(sub[k] != pat@[k]);
                assert(sub != pat@);
            }
        }
        if matched {
            return true;
        }
        start += 1;
    }
    proof {
        assert forall|i: int|
            0 <= i && i + pat@.len() <= s@.len() implies #[trigger] s@.subrange(
            i,
            i + pat@.len() as int,
        ) != pat@ by {
            assert(i < start);
        }
    }
    false
}

/// Whitespace for the purposes of key trimming.
pub open spec fn spec_is_space(c: char) -> bool {
    c == ' ' || c == '\t' || c == '\r' || c == '\n'
}

pub fn is_space(c: char) -> (r: bool)
    ensures
        r == spec_is_space(c),
{
    c == ' ' || c == '\t' || c == '\r' || c == '\n'
}

/// The sequence without its leading characters satisfying `p`.
pub open spec fn spec_ltrim(s: Seq<char>, p: spec_fn(char) -> bool) -> Seq<char>
    decreases s.len(),
{
    if s.len() > 0 && p(s.first()) {
        spec_ltrim(s.drop_first(), p)
    } else {
        s
    }
}

/// The sequence without its trailing characters satisfying `p`.
pub open spec fn spec_rtrim(s: Seq<char>, p: spec_fn(char) -> bool) -> Seq<char>
    decreases s.len(),
{
    if s.len() > 0 && p(s.last()) {
        spec_rtrim(s.drop_last(), p)
    } else {
        s
    }
}

/// The sequence without leading and trailing characters satisfying `p`.
pub open spec fn spec_trim(s: Seq<char>, p: spec_fn(char) -> bool) -> Seq<char> {
    spec_rtrim(spec_ltrim(s, p), p)
}

proof fn lemma_ltrim_skip(s: Seq<char>, p: spec_fn(char) -> bool, i: int)
    requires
        0 <= i <= s.len(),
        forall|j: int| 0 <= j < i ==> p(s[j]),
        i < s.len() ==> !p(s[i]),
    ensures
        spec_ltrim(s, p) == s.skip(i),
    decreases i,
{
    if i == 0 {
        if s.len() > 0 && p(s.first()) {
            assert(!p(s[0]));
        }
        assert(s.skip(0) =~= s);
    } else {
        assert(p(s.first()));
        let t = s.drop_first();
        assert(forall|j: int| 0 <= j < i - 1 ==> p(#[trigger] t[j]));
        lemma_ltrim_skip(t, p, i - 1);
        assert(t.skip(i - 1) =~= s.skip(i));
    }
}

proof fn lemma_rtrim_take(s: Seq<char>, p: spec_fn(char) -> bool, i: int)
    requires
        0 <= i <= s.len(),
        forall|j: int| i <= j < s.len() ==> p(s[j]),
        i > 0 ==> !p(s[i - 1]),
    ensures
        spec_rtrim(s, p) == s.take(i),
    decreases s.len() - i,
{
    if i == s.len() {
        if s.len() > 0 && p(s.last()) {
            assert(!p(s[i - 1]));
        }
        assert(s.take(i) =~= s);
    } else {
        assert(p(s.last()));
        let t = s.drop_last();
        assert(forall|j: int| i <= j < t.len() ==> p(#[trigger] t[j]));
        assert(i > 0 ==> t[i - 1] == s[i - 1]);
        lemma_rtrim_take(t, p, i);
        assert(t.take(i) =~= s.take(i));
    }
}

/// A copy of `v[lo..hi]`.
pub fn copy_range(v: &Vec<char>, lo: usize, hi: usize) -> (r: Vec<char>)
    requires
        lo <= hi <= v@.len(),
    ensures
        r@ == v@.subrange(lo as int, hi as int),
{
    let mut r: Vec<char> = Vec::new();
    let mut i: usize = lo;
    while i < hi
        invariant
            lo <= i <= hi <= v@.len(),
            r@ =~= v@.subrange(lo as int, i as int),
        decreases hi - i,
    {
        r.push(v[i]);
        i += 1;
    }
    proof {
        assert(r@ =~= v@.subrange(lo as int, hi as int));
    }
    r
}

/// The characters with surrounding whitespace removed.
pub fn trim_ws_chars(v: &Vec<char>) -> (r: Vec<char>)
    ensures
        r@ == spec_trim(v@, |c: char| spec_is_space(c)),
{
    let ghost p: spec_fn(char) -> bool = |c: char| spec_is_space(c);
    let n = v.len();
    let mut lo: usize = 0;
    while lo < n && is_space(v[lo])
        invariant
            n == v@.len(),
            lo <= n,
            forall|j: int| 0 <= j < lo ==> spec_is_space(#[trigger] v@[j]),
        decreases n - lo,
    {
        lo += 1;
    }
    proof {
        assert forall|j: int| 0 <= j < lo implies p(v@[j]) by {
            assert(spec_is_space(v@[j]));
        }
        lemma_ltrim_skip(v@, p, lo as int);
    }
    let ghost mid = v@.skip(lo as int);
    let mut hi: usize = n;
    while hi > lo && is_space(v[hi - 1])
        invariant
            n == v@.len(),
            lo <= hi <= n,
            forall|j: int| hi <= j < n ==> spec_is_space(#[trigger] v@[j]),
        decreases hi,
    {
        hi -= 1;
    }
    proof {
        assert forall|j: int| hi - lo <= j < mid.len() implies p(#[trigger] mid[j]) by {
            assert(mid[j] == v@[lo + j]);
            assert(spec_is_space(v@[lo + j]));
        }
        assert(hi - lo > 0 ==> mid[hi - lo - 1] == v@[hi - 1]);
        lemma_rtrim_take(mid, p, hi - lo);
        assert(mid.take(hi - lo) =~= v@.subrange(lo as int, hi as int));
    }
    copy_range(v, lo, hi)
}

/// The characters with surrounding double quotes removed, however many.
pub fn trim_quote_chars(v: &Vec<char>) -> (r: Vec<char>)
    ensures
        r@ == spec_trim(v@, |c: char| c == '"'),
{
    let ghost p: spec_fn(char) -> bool = |c: char| c == '"';
    let n = v.len();
    let mut lo: usize = 0;
    while lo < n && v[lo] == '"'
        invariant
            n == v@.len(),
            lo <= n,
            forall|j: int| 0 <= j < lo ==> #[trigger] v@[j] == '"',
        decreases n - lo,
    {
        lo += 1;
    }
    proof {
        assert forall|j: int| 0 <= j < lo implies p(v@[j]) by {
            assert(v@[j] == '"');
        }
        lemma_ltrim_skip(v@, p, lo as int);
    }
    let ghost mid = v@.skip(lo as int);
    let mut hi: usize = n;
    while hi > lo && v[hi - 1] == '"'
        invariant
            n == v@.len(),
            lo <= hi <= n,
            forall|j: int| hi <= j < n ==> #[trigger] v@[j] == '"',
        decreases hi,
    {
        hi -= 1;
    }
    proof {
        assert forall|j: int| hi - lo <= j < mid.len() implies p(#[trigger] mid[j]) by {
            assert(mid[j] == v@[lo + j]);
            assert(v@[lo + j] == '"');
        }
        assert(hi - lo > 0 ==> mid[hi - lo - 1] == v@[hi - 1]);
        lemma_rtrim_take(mid, p, hi - lo);
        assert(mid.take(hi - lo) =~= v@.subrange(lo as int, hi as int));
    }
    copy_range(v, lo, hi)
}

/// A decimal digit's character.
pub open spec fn spec_digit_char(d: nat) -> char {
    if d == 0 {
        '0'
    } else if d == 1 {
        '1'
    } else if d == 2 {
        '2'
    } else if d == 3 {
        '3'
    } else if d == 4 {
        '4'
    } else if d == 5 {
        '5'
    } else if d == 6 {
        '6'
    } else if d == 7 {
        '7'
    } else if d == 8 {
        '8'
    } else {
        '9'
    }
}

/// The decimal rendering of a natural number.
pub open spec fn spec_dec_digits(n: nat) -> Seq<char>
    decreases n,
{
    if n < 10 {
        seq![spec_digit_char(n)]
    } else {
        spec_dec_digits(n / 10).push(spec_digit_char(n % 10))
    }
}

/// The decimal rendering of a signed number, with a leading minus sign when
/// negative.
pub open spec fn spec_int_str(n: int) -> Seq<char> {
    if n < 0 {
        seq!['-'].add(spec_dec_digits((-n) as nat))
    } else {
        spec_dec_digits(n as nat)
    }
}

fn digit_char(d: u32) -> (c: char)
    requires
        d < 10,
    ensures
        c == spec_digit_char(d as nat),
{
    if d == 0 {
        '0'
    } else if d == 1 {
        '1'
    } else if d == 2 {
        '2'
    } else if d == 3 {
        '3'
    } else if d == 4 {
        '4'
    } else if d == 5 {
        '5'
    } else if d == 6 {
        '6'
    } else if d == 7 {
        '7'
    } else if d == 8 {
        '8'
    } else {
        '9'
    }
}

/// The decimal rendering of a `u32`, as characters.
pub fn u32_chars(n: u32) -> (r: Vec<char>)
    ensures
        r@ == spec_dec_digits(n as nat),
{
    let mut rev: Vec<char> = Vec::new();
    let mut m = n;
    proof {
        assert(spec_dec_digits(n as nat).add(rev@.reverse()) =~= spec_dec_digits(n as nat));
    }
    loop
        invariant_except_break
            spec_dec_digits(n as nat) == spec_dec_digits(m as nat).add(rev@.reverse()),
        ensures
            spec_dec_digits(n as nat) == rev@.reverse(),
        decreases m,
    {
        let ghost prev = m;
        let ghost prev_rev = rev@;
        let d = m % 10;
        rev.push(digit_char(d));
        m = m / 10;
        proof {
            assert(rev@.reverse() =~= seq![spec_digit_char(d as nat)].add(prev_rev.reverse()));
            if prev >= 10 {
                assert(spec_dec_digits(prev as nat) == spec_dec_digits(m as nat).push(
                    spec_digit_char(d as nat),
                ));
                assert(spec_dec_digits(m as nat).push(spec_digit_char(d as nat)).add(
                    prev_rev.reverse(),
                ) =~= spec_dec_digits(m as nat).add(rev@.reverse()));
            } else {
                assert(spec_dec_digits(prev as nat) =~= seq![spec_digit_char(prev as nat)]);
                assert(spec_dec_digits(n as nat) =~= rev@.reverse());
            }
        }
        if m == 0 {
            break;
        }
    }
    let mut r: Vec<char> = Vec::new();
    let mut i: usize = rev.len();
    while i > 0
        invariant
            i <= rev@.len(),
            r@ =~= rev@.subrange(i as int, rev@.len() as int).reverse(),
        decreases i,
    {
        i -= 1;
        r.push(rev[i]);
        proof {
            let tail = rev@.subrange(i as int, rev@.len() as int);
            assert(tail.reverse() =~= rev@.subrange(i + 1, rev@.len() as int).reverse().push(
                rev@[i as int],
            ));
        }
    }
    proof {
        assert(rev@.subrange(0, rev@.len() as int) =~= rev@);
        assert(r@ =~= rev@.reverse());
    }
    r
}

/// The decimal rendering of an `i32`, as characters.
pub fn i32_chars(n: i32) -> (r: Vec<char>)
    ensures
        r@ == spec_int_str(n as int),
{
    if n >= 0 {
        u32_chars(n as u32)
    } else {
        let m: u32 = (-(n as i64)) as u32;
        let digits = u32_chars(m);
        let mut r: Vec<char> = Vec::new();
        r.push('-');
        let mut i: usize = 0;
        while i < digits.len()
            invariant
                i <= digits@.len(),
                r@ =~= seq!['-'].add(digits@.subrange(0, i as int)),
            decreases digits@.len() - i,
        {
            r.push(digits[i]);
            i += 1;
        }
        proof {
            assert(digits@.subrange(0, digits@.len() as int) =~= digits@);
            assert(r@ =~= spec_int_str(n as int));
        }
        r
    }
}

/// The decimal rendering of an `i32`, as a string.
pub fn i32_string(n: i32) -> (r: String)
    ensures
        r@ == spec_int_str(n as int),
{
    let chars = i32_chars(n);
    string_from_chars(&chars)
}

/// The decimal rendering of a `u32`, as a string.
pub fn u32_string(n: u32) -> (r: String)
    ensures
        r@ == spec_dec_digits(n as nat),
{
    let chars = u32_chars(n);
    string_from_chars(&chars)
}

/// Whether `c` is a decimal digit.
pub open spec fn spec_is_digit(c: char) -> bool {
    '0' <= c && c <= '9'
}

pub fn is_digit(c: char) -> (r: bool)
    ensures
        r == spec_is_digit(c),
{
    '0' <= c && c <= '9'
}

/// The numeric value of a digit character.
pub open spec fn spec_digit_val(c: char) -> nat {
    (c as nat - '0' as nat) as nat
}

fn digit_val(c: char) -> (d: u32)
    requires
        spec_is_digit(c),
    ensures
        d as nat == spec_digit_val(c),
        d < 10,
{
    (c as u32) - ('0' as u32)
}

/// The value of a run of digit characters, most significant first.
pub open spec fn spec_digits_val(s: Seq<char>) -> nat
    decreases s.len(),
{
    if s.len() == 0 {
        0
    } else {
        spec_digits_val(s.drop_last()) * 10 + spec_digit_val(s.last())
    }
}

/// Whether `s` is a nonempty run of decimal digits.
pub open spec fn spec_all_digits(s: Seq<char>) -> bool {
    s.len() > 0 && forall|i: int| 0 <= i < s.len() ==> spec_is_digit(#[trigger] s[i])
}

/// What parsing an unsigned decimal number from `s` yields: the value when
/// `s` is all digits and the value fits in `bound`, nothing otherwise.
pub open spec fn spec_parse_dec(s: Seq<char>, bound: nat) -> Option<nat> {
    if spec_all_digits(s) && spec_digits_val(s) <= bound {
        Some(spec_digits_val(s))
    } else {
        None
    }
}

proof fn lemma_digits_val_mono(s: Seq<char>, i: int)
    requires
        0 <= i <= s.len(),
    ensures
        spec_digits_val(s.take(i)) <= spec_digits_val(s),
    decreases s.len() - i,
{
    if i == s.len() {
        assert(s.take(i) =~= s);
    } else {
        let t = s.take(i + 1);
        assert(t.drop_last() =~= s.take(i));
        assert(spec_digits_val(s.take(i)) <= spec_digits_val(t));
        lemma_digits_val_mono(s, i + 1);
    }
}

/// Parse a bounded unsigned decimal value from characters.
pub fn parse_dec_chars(v: &Vec<char>, bound: u32) -> (r: Option<u32>)
    ensures
        match r {
            Some(x) => spec_parse_dec(v@, bound as nat) == Some(x as nat),
            None => spec_parse_dec(v@, bound as nat) is None,
        },
{
    if v.len() == 0 {
        return None;
    }
    let mut acc: u32 = 0;
    let mut i: usize = 0;
    while i < v.len()
        invariant
            0 < v@.len(),
            i <= v@.len(),
            acc as nat == spec_digits_val(v@.take(i as int)),
            acc <= bound,
            forall|j: int| 0 <= j < i ==> spec_is_digit(#[trigger] v@[j]),
        decreases v@.len() - i,
    {
        let c = v[i];
        if !is_digit(c) {
            return None;
        }
        let d = digit_val(c);
        proof {
            let t = v@.take(i + 1);
            assert(t.drop_last() =~= v@.take(i as int));
            assert(spec_digits_val(t) == acc as nat * 10 + spec_digit_val(c));
        }
        if acc > bound / 10 || (acc == bound / 10 && d > bound % 10) {
            proof {
                assert(acc as nat * 10 + d as nat > bound as nat);
                lemma_digits_val_mono(v@, i + 1);
            }
            return None;
        }
        assert(acc as nat * 10 + d as nat <= bound as nat);
        acc = acc * 10 + d;
        i += 1;
    }
    proof {
        assert(v@.take(v@.len() as int) =~= v@);
    }
    Some(acc)
}

/// The character-sequence views of an entry list, in order.
pub open spec fn kv_of(s: Seq<(String, String)>) -> Seq<(Seq<char>, Seq<char>)>
    decreases s.len(),
{
    if s.len() == 0 {
        Seq::empty()
    } else {
        kv_of(s.drop_last()).push((s.last().0@, s.last().1@))
    }
}

pub broadcast proof fn kv_of_len(s: Seq<(String, String)>)
    ensures
        (#[trigger] kv_of(s)).len() == s.len(),
    decreases s.len(),
{
    if s.len() > 0 {
        kv_of_len(s.drop_last());
    }
}

pub broadcast proof fn kv_of_index(s: Seq<(String, String)>, i: int)
    requires
        0 <= i < s.len(),
    ensures
        #[trigger] kv_of(s)[i] == (s[i].0@, s[i].1@),
    decreases s.len(),
{
    kv_of_len(s);
    if i < s.len() - 1 {
        kv_of_index(s.drop_last(), i);
        assert(s.drop_last()[i] == s[i]);
        kv_of_len(s.drop_last());
    }
}

/// The mathematical values of a vector of machine integers.
pub open spec fn ints_of(s: Seq<i32>) -> Seq<int>
    decreases s.len(),
{
    if s.len() == 0 {
        Seq::empty()
    } else {
        ints_of(s.drop_last()).push(s.last() as int)
    }
}

pub broadcast proof fn ints_of_len(s: Seq<i32>)
    ensures
        (#[trigger] ints_of(s)).len() == s.len(),
    decreases s.len(),
{
    if s.len() > 0 {
        ints_of_len(s.drop_last());
    }
}

pub broadcast proof fn ints_of_index(s: Seq<i32>, i: int)
    requires
        0 <= i < s.len(),
    ensures
        #[trigger] ints_of(s)[i] == s[i] as int,
    decreases s.len(),
{
    ints_of_len(s);
    if i < s.len() - 1 {
        ints_of_index(s.drop_last(), i);
        assert(s.drop_last()[i] == s[i]);
        ints_of_len(s.drop_last());
    }
}

/// The sequence without surrounding whitespace.
pub open spec fn spec_trim_ws(s: Seq<char>) -> Seq<char> {
    spec_trim(s, |c: char| spec_is_space(c))
}

/// The sequence without surrounding double quotes, however many.
pub open spec fn spec_trim_quotes(s: Seq<char>) -> Seq<char> {
    spec_trim(s, |c: char| c == '"')
}

/// Append the characters of `src` to `dst`.
pub fn append_chars(dst: &mut Vec<char>, src: &Vec<char>)
    ensures
        final(dst)@ == old(dst)@.add(src@),
{
    let ghost d0 = dst@;
    let mut i: usize = 0;
    while i < src.len()
        invariant
            i <= src@.len(),
            dst@ =~= d0.add(src@.subrange(0, i as int)),
        decreases src@.len() - i,
    {
        dst.push(src[i]);
        i += 1;
    }
    proof {
        assert(dst@ =~= d0.add(src@));
    }
}

/// The character sequences of a vector of strings, in order.
pub open spec fn strs_of(s: Seq<String>) -> Seq<Seq<char>>
    decreases s.len(),
{
    if s.len() == 0 {
        Seq::empty()
    } else {
        strs_of(s.drop_last()).push(s.last()@)
    }
}

pub broadcast proof fn strs_of_len(s: Seq<String>)
    ensures
        (#[trigger] strs_of(s)).len() == s.len(),
    decreases s.len(),
{
    if s.len() > 0 {
        strs_of_len(s.drop_last());
    }
}

pub broadcast proof fn strs_of_index(s: Seq<String>, i: int)
    requires
        0 <= i < s.len(),
    ensures
        #[trigger] strs_of(s)[i] == s[i]@,
    decreases s.len(),
{
    strs_of_len(s);
    if i < s.len() - 1 {
        strs_of_index(s.drop_last(), i);
        assert(s.drop_last()[i] == s[i]);
        strs_of_len(s.drop_last());
    }
}

} // verus!
