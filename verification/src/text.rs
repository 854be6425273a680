//! Text: comparison, prefixes and suffixes, numbers in digits, and the order of names.

use vstd::prelude::*;
use vstd::utf8::encode_utf8;

verus! {

/// The characters of a text.
pub fn chars_of(s: &str) -> (v: Vec<char>)
    ensures
        v@ == s@,
{
    let mut v: Vec<char> = Vec::new();
    for c in it: s.chars()
        invariant
            it.seq() == s@,
            v@ == it.seq().take(it.index()),
    {
        v.push(c);
        assert(it.seq().take(it.index() + 1) =~= it.seq().take(it.index()).push(c));
    }
    assert(s@.take(s@.len() as int) =~= s@);
    v
}

/// The text of a sequence of characters, collected by `<String as FromIterator<&char>>::from_iter`.
#[verifier::external_body]
pub(crate) fn text_of(chars: &[char]) -> (s: String)
    ensures
        s@ == chars@,
{
    String::from_iter(chars)
}

/// Whether two texts are the same.
pub fn same_text(a: &str, b: &str) -> (r: bool)
    ensures
        r == (a@ == b@),
{
    let x = a.as_bytes();
    let y = b.as_bytes();
    proof {
        vstd::utf8::encode_utf8_decode_utf8(a@);
        vstd::utf8::encode_utf8_decode_utf8(b@);
    }
    if x.len() != y.len() {
        return false;
    }
    let mut i: usize = 0;
    while i < x.len()
        invariant
            i <= x@.len() == y@.len(),
            x@ == encode_utf8(a@),
            y@ == encode_utf8(b@),
            forall|k: int| 0 <= k < i ==> x@[k] == y@[k],
        decreases x@.len() - i,
    {
        if x[i] != y[i] {
            return false;
        }
        i = i + 1;
    }
    assert(x@ =~= y@);
    true
}

/// `p` stands in `s` from position `at` on.
pub open spec fn occurs_at(s: Seq<char>, p: Seq<char>, at: int) -> bool {
    0 <= at && at + p.len() <= s.len() && s.subrange(at, at + p.len()) == p
}

/// `s` starts with `p`.
pub open spec fn has_prefix(s: Seq<char>, p: Seq<char>) -> bool {
    occurs_at(s, p, 0)
}

/// `s` ends with `p`.
pub open spec fn has_suffix(s: Seq<char>, p: Seq<char>) -> bool {
    occurs_at(s, p, s.len() - p.len())
}

/// `p` occurs somewhere in `s`.
pub open spec fn has_infix(s: Seq<char>, p: Seq<char>) -> bool {
    exists|at: int| occurs_at(s, p, at)
}

/// Whether `p` stands in `s` from position `at` on.
pub fn occurs(s: &[char], p: &[char], at: usize) -> (r: bool)
    ensures
        r == occurs_at(s@, p@, at as int),
{
    if at > s.len() || s.len() - at < p.len() {
        return false;
    }
    let mut i: usize = 0;
    while i < p.len()
        invariant
            i <= p@.len(),
            at + p@.len() <= s@.len(),
            forall|k: int| 0 <= k < i ==> s@[at + k] == p@[k],
        decreases p@.len() - i,
    {
        let size: usize = s.len();
        if s[at + i] != p[i] {
            assert(s@.subrange(at as int, at + p@.len())[i as int] == s@[at + i]);
            return false;
        }
        i = i + 1;
    }
    assert(s@.subrange(at as int, at + p@.len()) =~= p@);
    true
}

/// Whether `s` starts with `p`.
pub fn starts_with(s: &str, p: &str) -> (r: bool)
    ensures
        r == has_prefix(s@, p@),
{
    let s = chars_of(s);
    let p = chars_of(p);
    occurs(s.as_slice(), p.as_slice(), 0)
}

/// Whether `s` ends with `p`.
pub fn ends_with(s: &str, p: &str) -> (r: bool)
    ensures
        r == has_suffix(s@, p@),
{
    let s = chars_of(s);
    let p = chars_of(p);
    if p.len() > s.len() {
        return false;
    }
    occurs(s.as_slice(), p.as_slice(), s.len() - p.len())
}

/// Whether `p` occurs in `s`.
pub fn contains(s: &str, p: &str) -> (r: bool)
    ensures
        r == has_infix(s@, p@),
{
    let whole = chars_of(s);
    let part = chars_of(p);
    let mut at: usize = 0;
    while at < whole.len()
        invariant
            whole@ == s@,
            part@ == p@,
            at <= s@.len(),
            forall|k: int| 0 <= k < at ==> !occurs_at(s@, p@, k),
        decreases s@.len() - at,
    {
        if occurs(whole.as_slice(), part.as_slice(), at) {
            return true;
        }
        at = at + 1;
    }
    occurs(whole.as_slice(), part.as_slice(), at)
}

/// `s` without the prefix `p`, or `s` where it does not start with `p`.
pub open spec fn without_prefix(s: Seq<char>, p: Seq<char>) -> Seq<char> {
    if has_prefix(s, p) {
        s.subrange(p.len() as int, s.len() as int)
    } else {
        s
    }
}

/// What follows the prefix `p` of `s`, if `s` starts with it.
pub fn strip_prefix(s: &str, p: &str) -> (r: Option<String>)
    ensures
        r matches Some(t) ==> has_prefix(s@, p@) && t@ == s@.subrange(
            p@.len() as int,
            s@.len() as int,
        ),
        r is None ==> !has_prefix(s@, p@),
{
    if starts_with(s, p) {
        Some(s.substring_char(p.unicode_len(), s.unicode_len()).to_owned())
    } else {
        None
    }
}

/// What precedes the suffix `p` of `s`, if `s` ends with it.
pub fn strip_suffix(s: &str, p: &str) -> (r: Option<String>)
    ensures
        r matches Some(t) ==> has_suffix(s@, p@) && t@ == s@.subrange(0, s@.len() - p@.len()),
        r is None ==> !has_suffix(s@, p@),
{
    if ends_with(s, p) {
        Some(s.substring_char(0, s.unicode_len() - p.unicode_len()).to_owned())
    } else {
        None
    }
}

/// The digit for a value below 16.
pub open spec fn digit(d: nat) -> char {
    if d < 10 {
        (48 + d) as char
    } else {
        (87 + d) as char
    }
}

/// The digits of `n` in the base `base`, without leading zeros.
pub open spec fn digits(n: nat, base: nat) -> Seq<char>
    decreases n,
{
    if base < 2 || n < base {
        seq![digit(n)]
    } else {
        proof {
            assert(n / base < n) by (nonlinear_arith)
                requires
                    n >= base,
                    base >= 2,
            ;
        }
        digits(n / base, base).push(digit(n % base))
    }
}

/// `n` in decimal digits.
pub open spec fn decimal_digits(n: nat) -> Seq<char> {
    digits(n, 10)
}

fn digit_char(d: u8) -> (c: char)
    requires
        d < 16,
    ensures
        c == digit(d as nat),
{
    if d < 10 {
        (48 + d) as char
    } else {
        (87 + d) as char
    }
}

/// `n` in digits of a base from 2 to 16.
fn to_digits(n: u64, base: u64) -> (s: String)
    requires
        2 <= base <= 16,
    ensures
        s@ == digits(n as nat, base as nat),
{
    let mut back: Vec<char> = Vec::new();
    let mut rest: u64 = n;
    while rest >= base
        invariant
            2 <= base <= 16,
            digits(n as nat, base as nat) =~= digits(rest as nat, base as nat) + back@.reverse(),
        decreases rest,
    {
        let ghost before = back@;
        let ghost r = rest as nat;
        proof {
            assert(rest / base < rest && rest % base < base) by (nonlinear_arith)
                requires
                    rest >= base,
                    base >= 2,
            ;
        }
        let c = digit_char((rest % base) as u8);
        back.push(c);
        rest = rest / base;
        assert(back@.reverse() =~= seq![c] + before.reverse());
    }
    back.push(digit_char(rest as u8));
    let ghost all = back@;
    let mut out: Vec<char> = Vec::new();
    while back.len() > 0
        invariant
            out@ + back@.reverse() =~= all.reverse(),
        decreases back@.len(),
    {
        let ghost before = back@;
        match back.pop() {
            Some(c) => {
                out.push(c);
                assert(before.reverse() =~= seq![c] + back@.reverse());
            },
            None => {},
        }
    }
    assert(all.reverse() =~= digits(n as nat, base as nat));
    text_of(out.as_slice())
}

/// `n` in decimal digits.
pub fn decimal(n: u64) -> (s: String)
    ensures
        s@ == decimal_digits(n as nat),
{
    to_digits(n, 10)
}

/// `n` in lower-case hexadecimal digits.
pub fn hexadecimal(n: u64) -> (s: String)
    ensures
        s@ == digits(n as nat, 16),
{
    to_digits(n, 16)
}

/// Whether `c` is one of '0' to '9'.
pub open spec fn is_digit(c: char) -> bool {
    '0' <= c <= '9'
}

/// The number that decimal digits stand for.
pub open spec fn digits_value(s: Seq<char>) -> nat
    decreases s.len(),
{
    if s.len() == 0 {
        0
    } else {
        10 * digits_value(s.drop_last()) + (s.last() as nat - 48) as nat
    }
}

/// The digits of a written whole number: everything but one leading '+'.
pub open spec fn unsigned_part(s: Seq<char>) -> Seq<char> {
    if s.len() > 0 && s[0] == '+' {
        s.subrange(1, s.len() as int)
    } else {
        s
    }
}

/// The whole number that a text writes: one digit or more, behind at most one '+'.
pub open spec fn written_number(s: Seq<char>) -> Option<nat> {
    let d = unsigned_part(s);
    if d.len() > 0 && forall|i: int| 0 <= i < d.len() ==> is_digit(#[trigger] d[i]) {
        Some(digits_value(d))
    } else {
        None
    }
}

proof fn lemma_digits_value_grows(s: Seq<char>, n: nat)
    requires
        n <= s.len(),
    ensures
        digits_value(s.take(n as int)) <= digits_value(s),
    decreases s.len(),
{
    if n < s.len() {
        lemma_digits_value_grows(s.drop_last(), n);
        assert(s.drop_last().take(n as int) =~= s.take(n as int));
    } else {
        assert(s.take(n as int) =~= s);
    }
}

/// The whole number that a text writes, or `None` where it writes none or one above
/// `usize::MAX`.
pub fn parse_usize(s: &str) -> (r: Option<usize>)
    ensures
        r == match written_number(s@) {
            Some(n) => if n <= usize::MAX {
                Some(n as usize)
            } else {
                None
            },
            None => None,
        },
{
    let chars = chars_of(s);
    let mut i: usize = 0;
    if chars.len() > 0 && chars[0] == '+' {
        i = 1;
    }
    let ghost d = unsigned_part(s@);
    let start: usize = i;
    assert(d =~= s@.subrange(start as int, s@.len() as int));
    if i >= chars.len() {
        return None;
    }
    let mut value: usize = 0;
    let mut fits: bool = true;
    while i < chars.len()
        invariant
            start <= i <= chars@.len(),
            chars@ == s@,
            d == unsigned_part(s@),
            d == s@.subrange(start as int, s@.len() as int),
            forall|k: int| 0 <= k < i - start ==> is_digit(#[trigger] d[k]),
            fits ==> value == digits_value(d.take(i - start)),
            !fits ==> digits_value(d) > usize::MAX,
        decreases chars@.len() - i,
    {
        let c = chars[i];
        proof {
            assert(d[i - start] == c);
            assert(d.take(i + 1 - start).drop_last() =~= d.take(i - start));
            lemma_digits_value_grows(d, (i + 1 - start) as nat);
        }
        if c < '0' || c > '9' {
            assert(!is_digit(d[i - start]));
            return None;
        }
        let v: usize = (c as u32 - 48) as usize;
        if fits {
            match value.checked_mul(10) {
                Some(x) => match x.checked_add(v) {
                    Some(y) => {
                        value = y;
                    },
                    None => {
                        fits = false;
                    },
                },
                None => {
                    fits = false;
                },
            }
        }
        i = i + 1;
    }
    assert(d.take(d.len() as int) =~= d);
    if fits {
        Some(value)
    } else {
        None
    }
}

proof fn lemma_decimal_read(n: nat)
    ensures
        decimal_digits(n).len() > 0,
        forall|i: int| 0 <= i < decimal_digits(n).len() ==> is_digit(#[trigger] decimal_digits(n)[i]),
        digits_value(decimal_digits(n)) == n,
    decreases n,
{
    reveal_with_fuel(digits_value, 2);
    let s = digits(n, 10);
    if n >= 10 {
        lemma_decimal_read(n / 10);
        assert(s.drop_last() =~= digits(n / 10, 10));
    } else {
        assert(s.drop_last() =~= Seq::<char>::empty());
    }
}

/// A number written in decimal is read back.
pub proof fn law_decimal_round_trip(n: nat)
    ensures
        written_number(decimal_digits(n)) == Some(n),
{
    lemma_decimal_read(n);
    assert(is_digit(decimal_digits(n)[0]));
}

/// The texts, with `sep` between each two.
pub open spec fn joined(items: Seq<Seq<char>>, sep: Seq<char>) -> Seq<char>
    decreases items.len(),
{
    if items.len() == 0 {
        Seq::empty()
    } else if items.len() == 1 {
        items[0]
    } else {
        joined(items.drop_last(), sep) + sep + items.last()
    }
}

/// The contents of a list of texts.
pub open spec fn texts(v: Seq<String>) -> Seq<Seq<char>> {
    Seq::new(v.len(), |i: int| v[i]@)
}

/// Joins texts with `sep` between each two.
pub fn join(items: &[String], sep: &str) -> (s: String)
    ensures
        s@ == joined(texts(items@), sep@),
{
    let mut out: String = String::new();
    let mut i: usize = 0;
    while i < items.len()
        invariant
            i <= items@.len(),
            out@ == joined(texts(items@).take(i as int), sep@),
        decreases items@.len() - i,
    {
        let ghost next = texts(items@).take(i + 1);
        assert(next.drop_last() =~= texts(items@).take(i as int));
        if i > 0 {
            out.append(sep);
        } else {
            assert(out@ + items@[0]@ =~= items@[0]@);
        }
        out.append(items[i].as_str());
        i = i + 1;
    }
    assert(texts(items@).take(items@.len() as int) =~= texts(items@));
    out
}

} // verus!
