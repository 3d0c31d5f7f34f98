//! Plain-text building blocks of the `rua` format: white space, tokens,
//! decimal numerals and the number and character parsers.

use vstd::prelude::*;

verus! {

/// A character with the Unicode `White_Space` property.
pub open spec fn is_ws(c: char) -> bool {
    let v = c as int;
    ||| 0x09 <= v <= 0x0d
    ||| v == 0x20
    ||| v == 0x85
    ||| v == 0xa0
    ||| v == 0x1680
    ||| 0x2000 <= v <= 0x200a
    ||| v == 0x2028
    ||| v == 0x2029
    ||| v == 0x202f
    ||| v == 0x205f
    ||| v == 0x3000
}

/// Tells whether `c` has the Unicode `White_Space` property.
pub fn is_whitespace(c: char) -> (b: bool)
    ensures
        b == is_ws(c),
{
    let v = c as u32;
    (0x09 <= v && v <= 0x0d) || v == 0x20 || v == 0x85 || v == 0xa0 || v == 0x1680 || (0x2000 <= v
        && v <= 0x200a) || v == 0x2028 || v == 0x2029 || v == 0x202f || v == 0x205f || v == 0x3000
}

/// The maximal runs of non-white-space characters of `s`, in order, where `cur`
/// is the part of a run already read before `s`.
pub open spec fn tokens_from(s: Seq<char>, cur: Seq<char>) -> Seq<Seq<char>>
    decreases s.len(),
{
    if s.len() == 0 {
        if cur.len() > 0 { seq![cur] } else { seq![] }
    } else if is_ws(s[0]) {
        (if cur.len() > 0 { seq![cur] } else { seq![] }) + tokens_from(s.drop_first(), seq![])
    } else {
        tokens_from(s.drop_first(), cur.push(s[0]))
    }
}

/// The white-space separated tokens of `s`.
pub open spec fn tokens(s: Seq<char>) -> Seq<Seq<char>> {
    tokens_from(s, seq![])
}

/// The views of a vector of character vectors.
pub open spec fn views(v: Seq<Vec<char>>) -> Seq<Seq<char>> {
    v.map_values(|t: Vec<char>| t@)
}

/// Splits `s[start..end]` into its white-space separated tokens.
pub fn split_whitespace(s: &Vec<char>, start: usize, end: usize) -> (r: Vec<Vec<char>>)
    requires
        start <= end <= s@.len(),
    ensures
        views(r@) == tokens(s@.subrange(start as int, end as int)),
{
    let ghost whole = s@.subrange(start as int, end as int);
    let mut r: Vec<Vec<char>> = Vec::new();
    let mut cur: Vec<char> = Vec::new();
    let mut i = start;
    assert(s@.subrange(start as int, end as int) =~= whole);
    while i < end
        invariant
            start <= i <= end <= s@.len(),
            whole == s@.subrange(start as int, end as int),
            views(r@) + tokens_from(s@.subrange(i as int, end as int), cur@) == tokens(whole),
        decreases end - i,
    {
        let c = s[i];
        let ghost rest = s@.subrange(i as int, end as int);
        assert(rest.drop_first() =~= s@.subrange(i + 1, end as int));
        if is_whitespace(c) {
            if cur.len() > 0 {
                let ghost before = views(r@);
                let t = cur;
                r.push(t);
                assert(views(r@) =~= before + seq![t@]);
                cur = Vec::new();
            } else {
                assert(views(r@) + tokens_from(rest.drop_first(), seq![]) =~= views(r@) + (seq![]
                    + tokens_from(rest.drop_first(), seq![])));
            }
            assert(cur@ =~= seq![]);
        } else {
            cur.push(c);
        }
        i = i + 1;
    }
    if cur.len() > 0 {
        let ghost before = views(r@);
        r.push(cur);
        assert(views(r@) =~= before + seq![cur@]);
    } else {
        assert(views(r@) + seq![] =~= views(r@));
    }
    r
}

/// Why a token is not a number.
#[derive(Clone, Copy, Debug, PartialEq, Eq)]
pub enum IntErrorKind {
    /// The token is empty.
    Empty,
    /// A character that is not a decimal digit (or a lone `+`).
    InvalidDigit,
    /// The value is larger than the target type holds.
    PosOverflow,
}

/// Why a token is not a single character.
#[derive(Clone, Copy, Debug, PartialEq, Eq)]
pub enum CharErrorKind {
    /// The token is empty.
    EmptyString,
    /// The token holds more than one character.
    TooManyChars,
}

/// An ASCII decimal digit.
pub open spec fn is_digit(c: char) -> bool {
    '0' <= c <= '9'
}

/// The value of a decimal digit.
pub open spec fn digit_value(c: char) -> int {
    c as int - '0' as int
}

/// The digit character for `d < 10`.
pub open spec fn digit_char(d: nat) -> char {
    if d == 0 { '0' } else if d == 1 { '1' } else if d == 2 { '2' } else if d == 3 { '3' }
    else if d == 4 { '4' } else if d == 5 { '5' } else if d == 6 { '6' } else if d == 7 { '7' }
    else if d == 8 { '8' } else { '9' }
}

/// The decimal numeral of `n`, without sign or leading zeros.
pub open spec fn dec(n: nat) -> Seq<char>
    decreases n,
{
    if n < 10 {
        seq![digit_char(n)]
    } else {
        dec(n / 10).push(digit_char(n % 10))
    }
}

/// The value of a string of decimal digits, read from the left; the first
/// character that is not a digit, or the first digit that takes the value above
/// `max`, decides the error.
pub open spec fn digits_value(s: Seq<char>, max: nat) -> Result<nat, IntErrorKind>
    decreases s.len(),
{
    if s.len() == 0 {
        Ok(0)
    } else {
        match digits_value(s.drop_last(), max) {
            Err(e) => Err(e),
            Ok(v) => if !is_digit(s.last()) {
                Err(IntErrorKind::InvalidDigit)
            } else if v * 10 + digit_value(s.last()) > max {
                Err(IntErrorKind::PosOverflow)
            } else {
                Ok((v * 10 + digit_value(s.last())) as nat)
            },
        }
    }
}

/// An unsigned number no larger than `max`: an optional `+` followed by decimal digits.
pub open spec fn parse_uint(t: Seq<char>, max: nat) -> Result<nat, IntErrorKind> {
    if t.len() == 0 {
        Err(IntErrorKind::Empty)
    } else {
        let body = if t[0] == '+' { t.drop_first() } else { t };
        if body.len() == 0 {
            Err(IntErrorKind::InvalidDigit)
        } else {
            digits_value(body, max)
        }
    }
}

/// A token that is exactly one character.
pub open spec fn parse_single_char(t: Seq<char>) -> Result<char, CharErrorKind> {
    if t.len() == 0 {
        Err(CharErrorKind::EmptyString)
    } else if t.len() > 1 {
        Err(CharErrorKind::TooManyChars)
    } else {
        Ok(t[0])
    }
}

/// Parses `t` as an unsigned number no larger than `max`.
pub fn parse_uint_exec(t: &Vec<char>, max: u32) -> (r: Result<u32, IntErrorKind>)
    ensures
        match r {
            Ok(v) => parse_uint(t@, max as nat) == Ok::<nat, IntErrorKind>(v as nat),
            Err(e) => parse_uint(t@, max as nat) == Err::<nat, IntErrorKind>(e),
        },
{
    if t.len() == 0 {
        return Err(IntErrorKind::Empty);
    }
    let start: usize = if t[0] == '+' { 1 } else { 0 };
    let ghost body = if t@[0] == '+' { t@.drop_first() } else { t@ };
    assert(body =~= t@.subrange(start as int, t@.len() as int));
    if start == t.len() {
        return Err(IntErrorKind::InvalidDigit);
    }
    let mut acc: u64 = 0;
    let mut i = start;
    assert(body.subrange(0, 0) =~= seq![]);
    while i < t.len()
        invariant
            start <= i <= t@.len(),
            t@.len() > 0,
            body == (if t@[0] == '+' { t@.drop_first() } else { t@ }),
            body.len() > 0,
            body =~= t@.subrange(start as int, t@.len() as int),
            acc <= max,
            digits_value(body.subrange(0, i - start), max as nat) == Ok::<nat, IntErrorKind>(acc as nat),
        decreases t@.len() - i,
    {
        let c = t[i];
        let ghost pre = body.subrange(0, i - start + 1);
        assert(pre.drop_last() =~= body.subrange(0, i - start));
        assert(pre.last() == c);
        if !('0' <= c && c <= '9') {
            proof { lemma_digits_value_prefix_err(body, (i - start + 1) as nat, max as nat); }
            return Err(IntErrorKind::InvalidDigit);
        }
        let d = (c as u32 - '0' as u32) as u64;
        if acc * 10 + d > max as u64 {
            proof { lemma_digits_value_prefix_err(body, (i - start + 1) as nat, max as nat); }
            return Err(IntErrorKind::PosOverflow);
        }
        acc = acc * 10 + d;
        i = i + 1;
    }
    assert(body.subrange(0, body.len() as int) =~= body);
    Ok(acc as u32)
}

/// An error in a prefix of a digit string is the error of the whole string.
proof fn lemma_digits_value_prefix_err(s: Seq<char>, k: nat, max: nat)
    requires
        k <= s.len(),
        digits_value(s.subrange(0, k as int), max) is Err,
    ensures
        digits_value(s, max) == digits_value(s.subrange(0, k as int), max),
    decreases s.len() - k,
{
    if k < s.len() {
        let t = s.subrange(0, k as int + 1);
        assert(t.drop_last() =~= s.subrange(0, k as int));
        lemma_digits_value_prefix_err(s, k + 1, max);
    } else {
        assert(s.subrange(0, k as int) =~= s);
    }
}

/// Parses `t` as a single character.
pub fn parse_char_exec(t: &Vec<char>) -> (r: Result<char, CharErrorKind>)
    ensures
        match r {
            Ok(c) => parse_single_char(t@) == Ok::<char, CharErrorKind>(c),
            Err(e) => parse_single_char(t@) == Err::<char, CharErrorKind>(e),
        },
{
    if t.len() == 0 {
        Err(CharErrorKind::EmptyString)
    } else if t.len() > 1 {
        Err(CharErrorKind::TooManyChars)
    } else {
        Ok(t[0])
    }
}

/// Appends `c` to `s` (`String::push`).
#[verifier::external_body]
pub(crate) fn push_char(s: &mut String, c: char)
    ensures
        final(s)@ == old(s)@.push(c),
{
    s.push(c);
}

/// The digit character of `d < 10`.
fn digit_to_char(d: u64) -> (c: char)
    requires
        d < 10,
    ensures
        c == digit_char(d as nat),
{
    if d == 0 { '0' } else if d == 1 { '1' } else if d == 2 { '2' } else if d == 3 { '3' }
    else if d == 4 { '4' } else if d == 5 { '5' } else if d == 6 { '6' } else if d == 7 { '7' }
    else if d == 8 { '8' } else { '9' }
}

/// Appends the decimal numeral of `n` to `s`.
pub fn push_dec(s: &mut String, n: u64)
    ensures
        final(s)@ == old(s)@ + dec(n as nat),
    decreases n,
{
    if n >= 10 {
        push_dec(s, n / 10);
    }
    push_char(s, digit_to_char(n % 10));
    proof {
        if n >= 10 {
            assert(old(s)@ + dec(n as nat) =~= old(s)@ + dec((n / 10) as nat) + seq![digit_char((n % 10) as nat)]);
        } else {
            assert(old(s)@ + dec(n as nat) =~= old(s)@.push(digit_char(n as nat)));
        }
    }
}

/// A numeral is a non-empty run of decimal digits.
pub proof fn lemma_dec_digits(n: nat)
    ensures
        dec(n).len() > 0,
        forall|k: int| 0 <= k < dec(n).len() ==> is_digit(#[trigger] dec(n)[k]),
    decreases n,
{
    if n >= 10 {
        lemma_dec_digits(n / 10);
        assert forall|k: int| 0 <= k < dec(n).len() implies is_digit(#[trigger] dec(n)[k]) by {
            if k < dec(n / 10).len() {
                assert(dec(n)[k] == dec(n / 10)[k]);
            }
        }
    }
}

/// Reading a numeral back gives its number.
pub proof fn lemma_parse_dec(n: nat, max: nat)
    requires
        n <= max,
    ensures
        parse_uint(dec(n), max) == Ok::<nat, IntErrorKind>(n),
{
    lemma_digits_value_dec(n, max);
    lemma_dec_digits(n);
    assert(is_digit(dec(n)[0]));
}

proof fn lemma_digit_char(d: nat)
    requires
        d < 10,
    ensures
        is_digit(digit_char(d)),
        digit_value(digit_char(d)) == d,
{
}

proof fn lemma_digits_value_dec(n: nat, max: nat)
    requires
        n <= max,
    ensures
        digits_value(dec(n), max) == Ok::<nat, IntErrorKind>(n),
    decreases n,
{
    lemma_digit_char(n % 10);
    if n < 10 {
        assert(dec(n).drop_last() =~= seq![]);
        assert(dec(n).last() == digit_char(n));
        assert(n % 10 == n);
        assert(digits_value(dec(n).drop_last(), max) == Ok::<nat, IntErrorKind>(0));
    } else {
        lemma_digits_value_dec(n / 10, max);
        assert(dec(n).drop_last() =~= dec(n / 10));
        assert(dec(n).last() == digit_char(n % 10));
        assert((n / 10) * 10 + n % 10 == n);
    }
}

/// Reading non-white-space characters extends the current token.
pub proof fn lemma_tokens_word(w: Seq<char>, s: Seq<char>, cur: Seq<char>)
    requires
        forall|k: int| 0 <= k < w.len() ==> !is_ws(#[trigger] w[k]),
    ensures
        tokens_from(w + s, cur) == tokens_from(s, cur + w),
    decreases w.len(),
{
    if w.len() == 0 {
        assert(w + s =~= s);
        assert(cur + w =~= cur);
    } else {
        assert((w + s).drop_first() =~= w.drop_first() + s);
        assert((w + s)[0] == w[0]);
        lemma_tokens_word(w.drop_first(), s, cur.push(w[0]));
        assert(cur.push(w[0]) + w.drop_first() =~= cur + w);
    }
}

/// Words separated by single spaces.
pub open spec fn join_words(ws: Seq<Seq<char>>) -> Seq<char>
    decreases ws.len(),
{
    if ws.len() == 0 {
        seq![]
    } else if ws.len() == 1 {
        ws[0]
    } else {
        ws[0] + seq![' '] + join_words(ws.drop_first())
    }
}

/// Non-empty words without white space.
pub open spec fn plain_words(ws: Seq<Seq<char>>) -> bool {
    forall|i: int, k: int| 0 <= i < ws.len() && 0 <= k < ws[i].len() ==> !is_ws(#[trigger] ws[i][k])
        && ws[i].len() > 0
}

/// The tokens of words joined by spaces are the words.
pub proof fn lemma_tokens_join(ws: Seq<Seq<char>>)
    requires
        plain_words(ws),
        forall|i: int| 0 <= i < ws.len() ==> (#[trigger] ws[i]).len() > 0,
    ensures
        tokens(join_words(ws)) == ws,
        forall|k: int| 0 <= k < join_words(ws).len() ==> #[trigger] join_words(ws)[k] != '\n',
    decreases ws.len(),
{
    if ws.len() == 0 {
        assert(tokens(join_words(ws)) =~= ws);
    } else if ws.len() == 1 {
        let w = ws[0];
        assert forall|k: int| 0 <= k < w.len() implies !is_ws(#[trigger] w[k]) by {
            assert(!is_ws(ws[0][k]));
        }
        lemma_tokens_word(w, seq![], seq![]);
        assert(w + seq![] =~= w);
        assert(seq![] + w =~= w);
        assert(tokens(join_words(ws)) =~= ws);
        assert forall|k: int| 0 <= k < join_words(ws).len() implies #[trigger] join_words(ws)[k] != '\n' by {
            assert(!is_ws(ws[0][k]));
        }
    } else {
        let w = ws[0];
        let rest = ws.drop_first();
        assert(plain_words(rest)) by {
            assert forall|i: int, k: int| 0 <= i < rest.len() && 0 <= k < rest[i].len() implies !is_ws(
                #[trigger] rest[i][k]) && rest[i].len() > 0 by {
                assert(rest[i] == ws[i + 1]);
                assert(!is_ws(ws[i + 1][k]));
            }
        }
        assert forall|i: int| 0 <= i < rest.len() implies (#[trigger] rest[i]).len() > 0 by {
            assert(rest[i] == ws[i + 1]);
        }
        lemma_tokens_join(rest);
        let j = join_words(rest);
        assert forall|k: int| 0 <= k < w.len() implies !is_ws(#[trigger] w[k]) by {
            assert(!is_ws(ws[0][k]));
        }
        assert(join_words(ws) =~= w + (seq![' '] + j));
        lemma_tokens_word(w, seq![' '] + j, seq![]);
        assert(seq![] + w =~= w);
        assert((seq![' '] + j).drop_first() =~= j);
        assert(is_ws((seq![' '] + j)[0]));
        assert(tokens(join_words(ws)) =~= seq![w] + rest);
        assert(seq![w] + rest =~= ws);
        assert forall|k: int| 0 <= k < join_words(ws).len() implies #[trigger] join_words(ws)[k] != '\n' by {
            if k < w.len() {
                assert(!is_ws(ws[0][k]));
            } else if k > w.len() {
                assert(join_words(ws)[k] == j[k - w.len() - 1]);
            }
        }
    }
}

/// Tokens on the two sides of a white-space character stay apart.
pub proof fn lemma_tokens_split(a: Seq<char>, b: Seq<char>, cur: Seq<char>)
    ensures
        tokens_from(a + seq![' '] + b, cur) == tokens_from(a, cur) + tokens(b),
    decreases a.len(),
{
    let s = a + seq![' '] + b;
    if a.len() == 0 {
        assert(s =~= seq![' '] + b);
        assert(s.drop_first() =~= b);
        assert(is_ws(s[0]));
        assert(tokens_from(a, cur) =~= (if cur.len() > 0 { seq![cur] } else { seq![] }));
    } else {
        assert(s.drop_first() =~= a.drop_first() + seq![' '] + b);
        assert(s[0] == a[0]);
        if is_ws(a[0]) {
            lemma_tokens_split(a.drop_first(), b, seq![]);
            let pre: Seq<Seq<char>> = if cur.len() > 0 { seq![cur] } else { seq![] };
            assert(pre + (tokens_from(a.drop_first(), seq![]) + tokens(b)) =~= pre + tokens_from(a.drop_first(), seq![]) + tokens(b));
        } else {
            lemma_tokens_split(a.drop_first(), b, cur.push(a[0]));
        }
    }
}

} // verus!
