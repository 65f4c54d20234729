//! Byte-level scanning of UTF-8 text: searching for ASCII delimiters, cutting a `&str` at them,
//! case-insensitive keyword matching and decimal numbers.
use vstd::prelude::*;
use vstd::string::*;
use vstd::utf8::*;

verus! {

broadcast use encode_utf8_valid_utf8, is_char_boundary_iff_not_is_continuation_byte, is_ascii_spec_bytes;

pub const SLASH: u8 = 47;

pub const COLON: u8 = 58;

pub const PERCENT: u8 = 37;

pub const OPEN_BRACKET: u8 = 91;

pub const CLOSE_BRACKET: u8 = 93;

/// Index of the first `c` in `b`, or `b.len()` when `c` does not occur.
pub open spec fn find_byte(b: Seq<u8>, c: u8) -> int
    decreases b.len(),
{
    if b.len() == 0 {
        0
    } else if b[0] == c {
        0
    } else {
        1 + find_byte(b.drop_first(), c)
    }
}

/// `b` holds the separator `://` at index `i`.
pub open spec fn sep_at(b: Seq<u8>, i: int) -> bool {
    &&& 0 <= i
    &&& i + 3 <= b.len()
    &&& b[i] == COLON
    &&& b[i + 1] == SLASH
    &&& b[i + 2] == SLASH
}

/// Index of the first `://` in `b`, or `b.len()` when it does not occur.
pub open spec fn find_sep(b: Seq<u8>) -> int
    decreases b.len(),
{
    if b.len() < 3 {
        b.len() as int
    } else if sep_at(b, 0) {
        0
    } else {
        1 + find_sep(b.drop_first())
    }
}

/// The index `i` is where the first `c` stands, or the end when there is none.
pub proof fn lemma_find_byte_is(b: Seq<u8>, c: u8, i: int)
    requires
        0 <= i <= b.len(),
        forall|j: int| 0 <= j < i ==> b[j] != c,
        i < b.len() ==> b[i] == c,
    ensures
        find_byte(b, c) == i,
    decreases i,
{
    if i > 0 {
        lemma_find_byte_is(b.drop_first(), c, i - 1);
    }
}

/// The index `i` is where the first `://` starts, or the end when there is none.
pub proof fn lemma_find_sep_is(b: Seq<u8>, i: int)
    requires
        0 <= i <= b.len(),
        forall|j: int| 0 <= j < i ==> !sep_at(b, j),
        i < b.len() ==> sep_at(b, i),
    ensures
        find_sep(b) == i,
    decreases i,
{
    if i > 0 && b.len() >= 3 {
        let t = b.drop_first();
        assert forall|j: int| 0 <= j < i - 1 implies !sep_at(t, j) by {
            assert(!sep_at(b, j + 1));
        }
        lemma_find_sep_is(t, i - 1);
    }
}

/// A found byte lies inside the sequence and holds `c`; nothing before it does.
pub proof fn lemma_find_byte_bounds(b: Seq<u8>, c: u8)
    ensures
        0 <= find_byte(b, c) <= b.len(),
        find_byte(b, c) < b.len() ==> b[find_byte(b, c)] == c,
        forall|j: int| 0 <= j < find_byte(b, c) ==> b[j] != c,
    decreases b.len(),
{
    if b.len() > 0 && b[0] != c {
        let t = b.drop_first();
        lemma_find_byte_bounds(t, c);
        assert forall|j: int| 0 <= j < find_byte(b, c) implies b[j] != c by {
            if j > 0 {
                assert(t[j - 1] != c);
            }
        }
    }
}

/// Where a found `://` starts, and that none starts earlier.
pub proof fn lemma_find_sep_bounds(b: Seq<u8>)
    ensures
        0 <= find_sep(b) <= b.len(),
        find_sep(b) < b.len() ==> sep_at(b, find_sep(b)),
        forall|j: int| 0 <= j < find_sep(b) ==> !sep_at(b, j),
    decreases b.len(),
{
    if b.len() >= 3 && !sep_at(b, 0) {
        let t = b.drop_first();
        lemma_find_sep_bounds(t);
        assert forall|j: int| 0 <= j < find_sep(b) implies !sep_at(b, j) by {
            if j > 0 {
                assert(!sep_at(t, j - 1));
            }
        }
    }
}

/// Index of the first byte `c` of `s`, or its length in bytes when there is none.
pub fn find_byte_in(s: &str, c: u8) -> (r: usize)
    ensures
        r == find_byte(s.spec_bytes(), c),
{
    let b = s.as_bytes();
    let mut i: usize = 0;
    while i < b.len()
        invariant
            b@ == s.spec_bytes(),
            i <= b@.len(),
            forall|j: int| 0 <= j < i ==> b@[j] != c,
        decreases b@.len() - i,
    {
        if b[i] == c {
            proof {
                lemma_find_byte_is(b@, c, i as int);
            }
            return i;
        }
        i = i + 1;
    }
    proof {
        lemma_find_byte_is(b@, c, i as int);
    }
    i
}

/// Index of the first `://` in `s`, or its length in bytes when there is none.
pub fn find_sep_in(s: &str) -> (r: usize)
    ensures
        r == find_sep(s.spec_bytes()),
{
    let b = s.as_bytes();
    let mut i: usize = 0;
    while b.len() - i >= 3
        invariant
            b@ == s.spec_bytes(),
            i <= b@.len(),
            forall|j: int| 0 <= j < i ==> !sep_at(b@, j),
        decreases b@.len() - i,
    {
        if b[i] == COLON && b[i + 1] == SLASH && b[i + 2] == SLASH {
            proof {
                lemma_find_sep_is(b@, i as int);
            }
            return i;
        }
        i = i + 1;
    }
    proof {
        lemma_find_sep_is(b@, b@.len() as int);
    }
    b.len()
}

/// The ASCII lowercase form of a byte; other bytes are unchanged.
pub open spec fn lower(c: u8) -> u8 {
    if 65 <= c <= 90 {
        (c + 32) as u8
    } else {
        c
    }
}

/// `a` and `w` are equal up to ASCII case.
pub open spec fn eq_ignore_case(a: Seq<u8>, w: Seq<u8>) -> bool {
    &&& a.len() == w.len()
    &&& forall|i: int| 0 <= i < a.len() ==> lower(a[i]) == lower(w[i])
}

fn lower_byte(c: u8) -> (r: u8)
    ensures
        r == lower(c),
{
    if 65 <= c && c <= 90 {
        c + 32
    } else {
        c
    }
}

/// Compares two byte strings, ignoring ASCII case.
pub fn eq_ignore_ascii_case(a: &[u8], w: &[u8]) -> (r: bool)
    ensures
        r == eq_ignore_case(a@, w@),
{
    if a.len() != w.len() {
        return false;
    }
    let mut i: usize = 0;
    while i < a.len()
        invariant
            a@.len() == w@.len(),
            i <= a@.len(),
            forall|j: int| 0 <= j < i ==> lower(a@[j]) == lower(w@[j]),
        decreases a@.len() - i,
    {
        if lower_byte(a[i]) != lower_byte(w[i]) {
            return false;
        }
        i = i + 1;
    }
    true
}

/// Cuts `s` at byte `i`, which is its end or holds an ASCII byte.
pub fn split_ascii(s: &str, i: usize) -> (r: (&str, &str))
    requires
        i <= s.spec_bytes().len(),
        i < s.spec_bytes().len() ==> s.spec_bytes()[i as int] < 128,
    ensures
        r.0.spec_bytes() == s.spec_bytes().subrange(0, i as int),
        r.1.spec_bytes() == s.spec_bytes().subrange(i as int, s.spec_bytes().len() as int),
{
    proof {
        let b = s.spec_bytes();
        assert(valid_utf8(b));
        is_char_boundary_start_end_of_seq(b);
        if i < b.len() {
            assert(!is_continuation_byte(b[i as int]));
            assert(is_char_boundary(b, i as int));
        }
    }
    s.split_at(i)
}

/// What follows the ASCII byte at index `i` of `s`.
pub fn after_ascii(s: &str, i: usize) -> (r: &str)
    requires
        i < s.spec_bytes().len(),
        s.spec_bytes()[i as int] < 128,
    ensures
        r.spec_bytes() == s.spec_bytes().subrange(i as int + 1, s.spec_bytes().len() as int),
{
    let (_, rest) = split_ascii(s, i);
    proof {
        let b = rest.spec_bytes();
        assert(b[0] == s.spec_bytes()[i as int]);
        reveal_with_fuel(is_char_boundary, 2);
        assert(is_char_boundary(b, 1));
    }
    let (_, tail) = rest.split_at(1);
    proof {
        assert(tail.spec_bytes() =~= s.spec_bytes().subrange(i as int + 1, s.spec_bytes().len() as int));
    }
    tail
}

pub open spec fn is_digit(c: u8) -> bool {
    48 <= c <= 57
}

pub open spec fn all_digits(d: Seq<u8>) -> bool {
    forall|i: int| 0 <= i < d.len() ==> is_digit(d[i])
}

/// The number that the decimal digits `d` spell out.
pub open spec fn digits_value(d: Seq<u8>) -> nat
    decreases d.len(),
{
    if d.len() == 0 {
        0
    } else {
        digits_value(d.drop_last()) * 10 + (d.last() - 48) as nat
    }
}

/// The value of a decimal written as at least one ASCII digit (leading zeros allowed);
/// `None` for any other text, a sign included.
pub open spec fn decimal_value(t: Seq<u8>) -> Option<nat> {
    if t.len() > 0 && all_digits(t) {
        Some(digits_value(t))
    } else {
        None
    }
}

/// The value of the unsigned decimal `t` when it is at most `max`.
pub open spec fn bounded_decimal(t: Seq<u8>, max: nat) -> Option<nat> {
    match decimal_value(t) {
        Some(v) => if v <= max {
            Some(v)
        } else {
            None
        },
        None => None,
    }
}

/// A number written with more digits is at least the number its leading digits spell.
pub proof fn lemma_digits_value_prefix(d: Seq<u8>, k: int)
    requires
        0 <= k <= d.len(),
        all_digits(d),
    ensures
        digits_value(d.subrange(0, k)) <= digits_value(d),
    decreases d.len(),
{
    if k < d.len() {
        let p = d.drop_last();
        assert(p.subrange(0, k) =~= d.subrange(0, k));
        lemma_digits_value_prefix(p, k);
    } else {
        assert(d.subrange(0, k) =~= d);
    }
}

/// Reads a decimal of at most `max`, written in ASCII digits only, from `t`.
pub fn parse_decimal(t: &str, max: u32) -> (r: Option<u32>)
    ensures
        match r {
            Some(v) => bounded_decimal(t.spec_bytes(), max as nat) == Some(v as nat),
            None => bounded_decimal(t.spec_bytes(), max as nat) is None,
        },
{
    let b = t.as_bytes();
    if b.len() == 0 {
        return None;
    }
    let mut acc: u64 = 0;
    let mut i: usize = 0;
    while i < b.len()
        invariant
            b@ == t.spec_bytes(),
            i <= b@.len(),
            acc == digits_value(b@.subrange(0, i as int)),
            acc <= max,
            all_digits(b@.subrange(0, i as int)),
        decreases b@.len() - i,
    {
        let c = b[i];
        if c < 48 || c > 57 {
            assert(!is_digit(b@[i as int]));
            return None;
        }
        assert(b@.subrange(0, i + 1).drop_last() =~= b@.subrange(0, i as int));
        assert(b@.subrange(0, i + 1).last() == c);
        acc = acc * 10 + (c - 48) as u64;
        assert(acc == digits_value(b@.subrange(0, i + 1)));
        if acc > max as u64 {
            proof {
                if all_digits(b@) {
                    lemma_digits_value_prefix(b@, i + 1);
                }
            }
            return None;
        }
        i = i + 1;
        assert(all_digits(b@.subrange(0, i as int)));
    }
    assert(b@.subrange(0, i as int) =~= b@);
    Some(acc as u32)
}

/// The decimal digits of `n`, most significant first, without leading zeros.
pub open spec fn decimal(n: nat) -> Seq<u8>
    decreases n,
{
    if n < 10 {
        seq![(48 + n) as u8]
    } else {
        decimal(n / 10) + seq![(48 + n % 10) as u8]
    }
}

/// The bytes of a concatenation are those of its two parts, one after the other.
pub proof fn lemma_encode_concat(a: Seq<char>, c: Seq<char>)
    ensures
        encode_utf8(a + c) == encode_utf8(a) + encode_utf8(c),
    decreases a.len(),
{
    if a.len() > 0 {
        lemma_encode_concat(a.drop_first(), c);
        assert((a + c).drop_first() =~= a.drop_first() + c);
        assert(encode_utf8(a + c) =~= encode_utf8(a) + encode_utf8(c));
    } else {
        assert(a + c =~= c);
        assert(encode_utf8(a) + encode_utf8(c) =~= encode_utf8(c));
    }
}

/// Appends `t` to `s`; the bytes of `t` follow those of `s`.
pub fn push_text(s: &mut String, t: &str)
    ensures
        encode_utf8(final(s)@) == encode_utf8(old(s)@) + t.spec_bytes(),
{
    proof {
        lemma_encode_concat(s@, t@);
    }
    s.append(t);
}

/// Appends the decimal digits of `n` to `s`.
pub fn push_decimal(s: &mut String, n: u32)
    ensures
        encode_utf8(final(s)@) == encode_utf8(old(s)@) + decimal(n as nat),
    decreases n,
{
    let ghost start = encode_utf8(s@);
    if n >= 10 {
        push_decimal(s, n / 10);
    }
    let digits = "0123456789";
    proof {
        reveal_strlit("0123456789");
        assert(is_ascii(digits));
        assert(digits.spec_bytes() =~= Seq::new(10, |i: int| (48 + i) as u8));
    }
    let d = (n % 10) as usize;
    let (_, from_d) = split_ascii(digits, d);
    let (digit, _) = split_ascii(from_d, 1);
    assert(digit.spec_bytes() =~= seq![(48 + n % 10) as u8]);
    push_text(s, digit);
    assert(encode_utf8(s@) =~= start + decimal(n as nat));
}

} // verus!
