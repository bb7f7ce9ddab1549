//! Character-level helpers shared by the text formats and error messages of
//! the engine: building strings, rendering and parsing decimal numbers, and
//! comparing a string against a fixed token.
use vstd::prelude::*;

verus! {

/// Appends one character to a string (`String::push`, which std documents as
/// appending the given char to the end of the string).
#[verifier::external_body]
pub(crate) fn push_char(s: &mut String, c: char)
    ensures
        final(s)@ == old(s)@.push(c),
{
    s.push(c);
}

/// Appends all characters of `t` to `s`.
pub fn push_str(s: &mut String, t: &str)
    ensures
        final(s)@ == old(s)@ + t@,
{
    let n = t.unicode_len();
    let mut i: usize = 0;
    while i < n
        invariant
            n == t@.len(),
            i <= n,
            s@ == old(s)@ + t@.subrange(0, i as int),
        decreases n - i,
    {
        let c = t.get_char(i);
        push_char(s, c);
        i = i + 1;
        assert(t@.subrange(0, i as int) == t@.subrange(0, (i - 1) as int).push(c));
    }
    assert(t@.subrange(0, n as int) == t@);
}

/// Appends the characters of `t` to `s`.
pub fn push_chars(s: &mut String, t: &[char])
    ensures
        final(s)@ == old(s)@ + t@,
{
    let mut i: usize = 0;
    while i < t.len()
        invariant
            i <= t@.len(),
            s@ == old(s)@ + t@.subrange(0, i as int),
        decreases t@.len() - i,
    {
        let c = t[i];
        push_char(s, c);
        i = i + 1;
        assert(t@.subrange(0, i as int) == t@.subrange(0, (i - 1) as int).push(c));
    }
    assert(t@.subrange(0, t@.len() as int) == t@);
}

/// A string holding exactly the characters of `t`.
pub fn string_of(t: &str) -> (r: String)
    ensures
        r@ == t@,
{
    let mut s = String::new();
    push_str(&mut s, t);
    s
}

/// The characters of `t`, one per element.
pub fn chars_of(t: &str) -> (r: Vec<char>)
    ensures
        r@ == t@,
{
    let n = t.unicode_len();
    let mut out: Vec<char> = Vec::with_capacity(n);
    let mut i: usize = 0;
    while i < n
        invariant
            n == t@.len(),
            i <= n,
            out@ == t@.subrange(0, i as int),
        decreases n - i,
    {
        out.push(t.get_char(i));
        i = i + 1;
    }
    out
}

/// Whether `s` holds exactly the characters of `token`.
pub fn str_is(s: &str, token: &str) -> (b: bool)
    ensures
        b == (s@ == token@),
{
    let n = s.unicode_len();
    let m = token.unicode_len();
    if n != m {
        return false;
    }
    let mut i: usize = 0;
    while i < n
        invariant
            n == s@.len(),
            n == token@.len(),
            i <= n,
            s@.subrange(0, i as int) == token@.subrange(0, i as int),
        decreases n - i,
    {
        if s.get_char(i) != token.get_char(i) {
            assert(s@[i as int] != token@[i as int]);
            return false;
        }
        i = i + 1;
        assert(s@.subrange(0, i as int) == s@.subrange(0, (i - 1) as int).push(s@[i - 1]));
        assert(token@.subrange(0, i as int) == token@.subrange(0, (i - 1) as int).push(
            token@[i - 1],
        ));
    }
    assert(s@ == s@.subrange(0, n as int));
    assert(token@ == token@.subrange(0, n as int));
    true
}

/// Whether the character sequences `a` and `b` are equal.
pub fn chars_eq(a: &[char], b: &[char]) -> (r: bool)
    ensures
        r == (a@ == b@),
{
    if a.len() != b.len() {
        return false;
    }
    let mut i: usize = 0;
    while i < a.len()
        invariant
            a@.len() == b@.len(),
            i <= a@.len(),
            forall|k: int| 0 <= k < i ==> a@[k] == b@[k],
        decreases a@.len() - i,
    {
        if a[i] != b[i] {
            return false;
        }
        i = i + 1;
    }
    assert(a@ =~= b@);
    true
}

/// The decimal digit character for `d`, which is below ten.
pub open spec fn digit_char(d: nat) -> char {
    (48 + d) as char
}

/// The decimal rendering of `n`, without sign or leading zeros.
pub open spec fn decimal(n: nat) -> Seq<char>
    decreases n,
{
    if n < 10 {
        seq![digit_char(n)]
    } else {
        decimal(n / 10).push(digit_char(n % 10))
    }
}

fn digit(d: u64) -> (c: char)
    requires
        d < 10,
    ensures
        c == digit_char(d as nat),
{
    let b: u8 = 48u8 + (d as u8);
    b as char
}

/// Appends the decimal rendering of `n` to `s`.
pub fn push_decimal(s: &mut String, n: u64)
    ensures
        final(s)@ == old(s)@ + decimal(n as nat),
    decreases n,
{
    if n >= 10 {
        push_decimal(s, n / 10);
    }
    push_char(s, digit(n % 10));
    proof {
        if n >= 10 {
            assert(decimal(n as nat) == decimal((n / 10) as nat).push(digit_char((n % 10) as nat)));
        }
    }
}

/// Whether `c` is an ASCII decimal digit.
pub open spec fn is_digit(c: char) -> bool {
    '0' <= c && c <= '9'
}

/// The value of a run of decimal digits.
pub open spec fn digits_value(cs: Seq<char>) -> nat
    decreases cs.len(),
{
    if cs.len() == 0 {
        0
    } else {
        digits_value(cs.drop_last()) * 10 + (cs.last() as nat - 48) as nat
    }
}

/// The digits that `usize::from_str` reads: the text after an optional
/// leading `+`.
pub open spec fn unsigned_body(cs: Seq<char>) -> Seq<char> {
    if cs.len() > 0 && cs[0] == '+' {
        cs.drop_first()
    } else {
        cs
    }
}

/// What `usize::from_str` gives for `cs`: a value when the text is an
/// optional `+` followed by at least one decimal digit and the value fits in
/// a `usize`; nothing otherwise.
pub open spec fn parse_usize_spec(cs: Seq<char>) -> Option<usize> {
    let body = unsigned_body(cs);
    if body.len() > 0 && (forall|i: int| 0 <= i < body.len() ==> is_digit(#[trigger] body[i]))
        && digits_value(body) <= usize::MAX {
        Some(digits_value(body) as usize)
    } else {
        None
    }
}

proof fn lemma_digits_value_grows(cs: Seq<char>, k: int)
    requires
        0 <= k <= cs.len(),
        forall|i: int| 0 <= i < cs.len() ==> is_digit(#[trigger] cs[i]),
    ensures
        digits_value(cs.subrange(0, k)) <= digits_value(cs),
    decreases cs.len() - k,
{
    if k < cs.len() {
        lemma_digits_value_grows(cs, k + 1);
        assert(cs.subrange(0, k + 1).drop_last() == cs.subrange(0, k));
        assert(is_digit(cs[k]));
    } else {
        assert(cs.subrange(0, k) == cs);
    }
}

/// The decimal rendering of `n` is a nonempty run of digits worth `n`.
pub proof fn lemma_decimal_digits(n: nat)
    ensures
        decimal(n).len() > 0,
        forall|i: int| 0 <= i < decimal(n).len() ==> is_digit(#[trigger] decimal(n)[i]),
        digits_value(decimal(n)) == n,
    decreases n,
{
    if n < 10 {
        assert(decimal(n).drop_last() =~= Seq::<char>::empty());
        assert(decimal(n).last() == digit_char(n));
        assert(digit_char(n) as nat == 48 + n);
        assert(digits_value(Seq::<char>::empty()) == 0);
        assert(digits_value(decimal(n)) == digits_value(decimal(n).drop_last()) * 10 + (decimal(n).last() as nat - 48) as nat);
    } else {
        lemma_decimal_digits(n / 10);
        let d = decimal(n);
        assert(d.drop_last() =~= decimal(n / 10));
        assert(d.last() == digit_char(n % 10));
        assert(digit_char(n % 10) as nat == 48 + n % 10);
        assert(n == (n / 10) * 10 + n % 10);
        assert(digits_value(d) == digits_value(d.drop_last()) * 10 + (d.last() as nat - 48) as nat);
    }
}

/// Parsing the decimal rendering of `n` gives `n` back.
pub proof fn lemma_decimal_parses(n: usize)
    ensures
        parse_usize_spec(decimal(n as nat)) == Some(n),
{
    lemma_decimal_digits(n as nat);
    assert(unsigned_body(decimal(n as nat)) == decimal(n as nat));
}

/// Parses a decimal `usize` the way `usize::from_str` does.
pub fn parse_usize(cs: &[char]) -> (r: Option<usize>)
    ensures
        r == parse_usize_spec(cs@),
{
    let mut start: usize = 0;
    if cs.len() > 0 && cs[0] == '+' {
        start = 1;
    }
    let ghost body = unsigned_body(cs@);
    assert(body == cs@.subrange(start as int, cs@.len() as int));
    if start >= cs.len() {
        return None;
    }
    let mut value: usize = 0;
    let mut i: usize = start;
    while i < cs.len()
        invariant
            start <= i <= cs@.len(),
            body == unsigned_body(cs@),
            body == cs@.subrange(start as int, cs@.len() as int),
            forall|k: int| 0 <= k < i - start ==> is_digit(#[trigger] body[k]),
            value as nat == digits_value(body.subrange(0, i - start)),
        decreases cs@.len() - i,
    {
        let c = cs[i];
        if !('0' <= c && c <= '9') {
            assert(!is_digit(body[i - start]));
            return None;
        }
        let d: usize = ((c as u32) - 48) as usize;
        assert(body.subrange(0, i + 1 - start).drop_last() == body.subrange(0, i - start));
        match value.checked_mul(10) {
            None => {
                proof {
                    assert(forall|k: int| 0 <= k < i + 1 - start ==> is_digit(#[trigger] body[k]));
                    let full = body;
                    if forall|k: int| 0 <= k < full.len() ==> is_digit(#[trigger] full[k]) {
                        lemma_digits_value_grows(full, i + 1 - start);
                        assert(full.subrange(0, i + 1 - start) == body.subrange(0, i + 1 - start));
                    }
                }
                return None;
            },
            Some(v10) => match v10.checked_add(d) {
                None => {
                    proof {
                        let full = body;
                        if forall|k: int| 0 <= k < full.len() ==> is_digit(#[trigger] full[k]) {
                            lemma_digits_value_grows(full, i + 1 - start);
                        }
                    }
                    return None;
                },
                Some(v) => {
                    value = v;
                },
            },
        }
        i = i + 1;
    }
    assert(body.subrange(0, (cs@.len() - start) as int) == body);
    Some(value)
}

} // verus!
