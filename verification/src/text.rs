//! Byte-level text utilities shared by the two parsers: character classes,
//! decimal and hexadecimal numerals, trimming, searching and splitting.
//! Every executable function returns exactly what its specification
//! counterpart denotes.

use vstd::prelude::*;
use vstd::slice::{slice_subrange, slice_to_vec};
use vstd::string::StringSliceAdditionalSpecFns;

verus! {

/// Horizontal whitespace (space, tab, carriage return).
pub open spec fn is_space(b: u8) -> bool {
    b == 32 || b == 9 || b == 13
}

pub open spec fn is_digit(b: u8) -> bool {
    48 <= b <= 57
}

pub open spec fn is_hex_digit(b: u8) -> bool {
    is_digit(b) || (97 <= b <= 102) || (65 <= b <= 70)
}

/// Numeric value of one hexadecimal digit, upper or lower case.
pub open spec fn hex_digit_val(b: u8) -> int {
    if is_digit(b) {
        b - 48
    } else if 97 <= b <= 102 {
        b - 87
    } else if 65 <= b <= 70 {
        b - 55
    } else {
        0
    }
}

pub open spec fn all_digits(s: Seq<u8>) -> bool {
    forall|i: int| 0 <= i < s.len() ==> is_digit(#[trigger] s[i])
}

pub open spec fn all_hex_digits(s: Seq<u8>) -> bool {
    forall|i: int| 0 <= i < s.len() ==> is_hex_digit(#[trigger] s[i])
}

/// Integer value of a decimal numeral, most significant digit first.
pub open spec fn dec_value(s: Seq<u8>) -> int
    decreases s.len(),
{
    if s.len() == 0 {
        0
    } else {
        dec_value(s.drop_last()) * 10 + (s.last() - 48)
    }
}

/// Integer value of a hexadecimal numeral, most significant digit first.
pub open spec fn hex_value(s: Seq<u8>) -> int
    decreases s.len(),
{
    if s.len() == 0 {
        0
    } else {
        hex_value(s.drop_last()) * 16 + hex_digit_val(s.last())
    }
}

/// What parsing a decimal numeral into a `u32` returns: the digits' value
/// when the text is a nonempty run of digits whose value fits, else nothing.
pub open spec fn parse_dec_spec(s: Seq<u8>) -> Option<u32> {
    if s.len() > 0 && all_digits(s) && dec_value(s) <= u32::MAX {
        Some(dec_value(s) as u32)
    } else {
        None
    }
}

/// What parsing a hexadecimal numeral into a `u32` returns.
pub open spec fn parse_hex_spec(s: Seq<u8>) -> Option<u32> {
    if s.len() > 0 && all_hex_digits(s) && hex_value(s) <= u32::MAX {
        Some(hex_value(s) as u32)
    } else {
        None
    }
}

proof fn lemma_dec_value_take_step(s: Seq<u8>, i: int)
    requires
        0 <= i < s.len(),
    ensures
        dec_value(s.take(i + 1)) == dec_value(s.take(i)) * 10 + (s[i] - 48),
{
    assert(s.take(i + 1).drop_last() =~= s.take(i));
    assert(s.take(i + 1).last() == s[i]);
}

proof fn lemma_hex_value_take_step(s: Seq<u8>, i: int)
    requires
        0 <= i < s.len(),
    ensures
        hex_value(s.take(i + 1)) == hex_value(s.take(i)) * 16 + hex_digit_val(s[i]),
{
    assert(s.take(i + 1).drop_last() =~= s.take(i));
    assert(s.take(i + 1).last() == s[i]);
}

proof fn lemma_dec_value_nonneg(s: Seq<u8>)
    requires
        all_digits(s),
    ensures
        dec_value(s) >= 0,
    decreases s.len(),
{
    if s.len() > 0 {
        assert(all_digits(s.drop_last())) by {
            assert(forall|i: int| 0 <= i < s.len() - 1 ==> is_digit(#[trigger] s.drop_last()[i]));
        }
        lemma_dec_value_nonneg(s.drop_last());
    }
}

proof fn lemma_hex_value_nonneg(s: Seq<u8>)
    requires
        all_hex_digits(s),
    ensures
        hex_value(s) >= 0,
    decreases s.len(),
{
    if s.len() > 0 {
        assert(all_hex_digits(s.drop_last())) by {
            assert(forall|i: int|
                0 <= i < s.len() - 1 ==> is_hex_digit(#[trigger] s.drop_last()[i]));
        }
        lemma_hex_value_nonneg(s.drop_last());
    }
}

/// A longer run of digits never has a smaller value.
proof fn lemma_dec_value_take_le(s: Seq<u8>, i: int)
    requires
        0 <= i <= s.len(),
        all_digits(s),
    ensures
        dec_value(s.take(i)) <= dec_value(s),
    decreases s.len() - i,
{
    if i == s.len() {
        assert(s.take(i) =~= s);
    } else {
        lemma_dec_value_take_step(s, i);
        assert(all_digits(s.take(i))) by {
            assert(forall|j: int| 0 <= j < i ==> is_digit(#[trigger] s.take(i)[j]));
        }
        lemma_dec_value_nonneg(s.take(i));
        lemma_dec_value_take_le(s, i + 1);
    }
}

proof fn lemma_hex_value_take_le(s: Seq<u8>, i: int)
    requires
        0 <= i <= s.len(),
        all_hex_digits(s),
    ensures
        hex_value(s.take(i)) <= hex_value(s),
    decreases s.len() - i,
{
    if i == s.len() {
        assert(s.take(i) =~= s);
    } else {
        lemma_hex_value_take_step(s, i);
        assert(all_hex_digits(s.take(i))) by {
            assert(forall|j: int| 0 <= j < i ==> is_hex_digit(#[trigger] s.take(i)[j]));
        }
        lemma_hex_value_nonneg(s.take(i));
        lemma_hex_value_take_le(s, i + 1);
    }
}

/// Parse a nonempty run of decimal digits; `None` on any other text or on
/// a value that does not fit in a `u32`.
pub fn parse_dec(s: &[u8]) -> (r: Option<u32>)
    ensures
        r == parse_dec_spec(s@),
{
    let n = s.len();
    if n == 0 {
        return None;
    }
    let mut acc: u32 = 0;
    let mut i: usize = 0;
    while i < n
        invariant
            i <= n,
            n == s@.len(),
            all_digits(s@.take(i as int)),
            acc == dec_value(s@.take(i as int)),
        decreases n - i,
    {
        let b = s[i];
        if b < 48 || b > 57 {
            assert(!all_digits(s@));
            return None;
        }
        let d = (b - 48) as u64;
        let next = acc as u64 * 10 + d;
        proof {
            lemma_dec_value_take_step(s@, i as int);
        }
        if next > 0xFFFF_FFFF {
            proof {
                if all_digits(s@) {
                    lemma_dec_value_take_le(s@, i as int + 1);
                }
            }
            return None;
        }
        acc = next as u32;
        proof {
            assert(all_digits(s@.take(i as int + 1))) by {
                assert(forall|j: int|
                    0 <= j < i + 1 ==> is_digit(#[trigger] s@.take(i as int + 1)[j]));
            }
        }
        i += 1;
    }
    proof {
        assert(s@.take(n as int) =~= s@);
    }
    Some(acc)
}

/// Parse a nonempty run of hexadecimal digits; `None` on any other text or
/// on a value that does not fit in a `u32`.
pub fn parse_hex(s: &[u8]) -> (r: Option<u32>)
    ensures
        r == parse_hex_spec(s@),
{
    let n = s.len();
    if n == 0 {
        return None;
    }
    let mut acc: u32 = 0;
    let mut i: usize = 0;
    while i < n
        invariant
            i <= n,
            n == s@.len(),
            all_hex_digits(s@.take(i as int)),
            acc == hex_value(s@.take(i as int)),
        decreases n - i,
    {
        let b = s[i];
        let d: u64 = if b >= 48 && b <= 57 {
            (b - 48) as u64
        } else if b >= 97 && b <= 102 {
            (b - 87) as u64
        } else if b >= 65 && b <= 70 {
            (b - 55) as u64
        } else {
            assert(!all_hex_digits(s@));
            return None;
        };
        let next = acc as u64 * 16 + d;
        proof {
            lemma_hex_value_take_step(s@, i as int);
        }
        if next > 0xFFFF_FFFF {
            proof {
                if all_hex_digits(s@) {
                    lemma_hex_value_take_le(s@, i as int + 1);
                }
            }
            return None;
        }
        acc = next as u32;
        proof {
            assert(all_hex_digits(s@.take(i as int + 1))) by {
                assert(forall|j: int|
                    0 <= j < i + 1 ==> is_hex_digit(#[trigger] s@.take(i as int + 1)[j]));
            }
        }
        i += 1;
    }
    proof {
        assert(s@.take(n as int) =~= s@);
    }
    Some(acc)
}

/// The text with leading whitespace removed.
pub open spec fn trim_start(s: Seq<u8>) -> Seq<u8>
    decreases s.len(),
{
    if s.len() > 0 && is_space(s[0]) {
        trim_start(s.skip(1))
    } else {
        s
    }
}

/// The text with trailing whitespace removed.
pub open spec fn trim_end(s: Seq<u8>) -> Seq<u8>
    decreases s.len(),
{
    if s.len() > 0 && is_space(s.last()) {
        trim_end(s.drop_last())
    } else {
        s
    }
}

/// The text with whitespace removed from both ends.
pub open spec fn trim(s: Seq<u8>) -> Seq<u8> {
    trim_end(trim_start(s))
}

/// Remove whitespace from both ends of a byte slice.
pub fn trim_slice(s: &[u8]) -> (r: &[u8])
    ensures
        r@ == trim(s@),
{
    let n = s.len();
    proof {
        assert(s@.skip(0) =~= s@);
    }
    let mut lo: usize = 0;
    while lo < n && (s[lo] == 32 || s[lo] == 9 || s[lo] == 13)
        invariant
            lo <= n,
            n == s@.len(),
            trim_start(s@) == trim_start(s@.skip(lo as int)),
        decreases n - lo,
    {
        proof {
            assert(s@.skip(lo as int).skip(1) =~= s@.skip(lo as int + 1));
        }
        lo += 1;
    }
    proof {
        if lo < n {
            assert(trim_start(s@.skip(lo as int)) == s@.skip(lo as int));
        } else {
            assert(s@.skip(lo as int) =~= Seq::<u8>::empty());
        }
        assert(trim_start(s@) == s@.skip(lo as int));
        assert(s@.skip(lo as int) =~= s@.subrange(lo as int, n as int));
    }
    let mut hi: usize = n;
    while hi > lo && (s[hi - 1] == 32 || s[hi - 1] == 9 || s[hi - 1] == 13)
        invariant
            lo <= hi <= n,
            n == s@.len(),
            trim_start(s@) == s@.subrange(lo as int, n as int),
            trim_end(s@.subrange(lo as int, n as int)) == trim_end(
                s@.subrange(lo as int, hi as int),
            ),
        decreases hi,
    {
        proof {
            assert(s@.subrange(lo as int, hi as int).last() == s@[hi - 1]);
            assert(s@.subrange(lo as int, hi as int).drop_last() =~= s@.subrange(
                lo as int,
                hi as int - 1,
            ));
        }
        hi -= 1;
    }
    proof {
        if hi > lo {
            assert(s@.subrange(lo as int, hi as int).last() == s@[hi - 1]);
            assert(trim_end(s@.subrange(lo as int, hi as int)) == s@.subrange(
                lo as int,
                hi as int,
            ));
        } else {
            assert(s@.subrange(lo as int, hi as int) =~= Seq::<u8>::empty());
        }
    }
    slice_subrange(s, lo, hi)
}

/// Index of the first occurrence of a byte, if any.
pub open spec fn find_byte(s: Seq<u8>, b: u8) -> Option<int>
    decreases s.len(),
{
    if s.len() == 0 {
        None
    } else if s[0] == b {
        Some(0)
    } else {
        match find_byte(s.skip(1), b) {
            Some(i) => Some(i + 1),
            None => None,
        }
    }
}

/// `find_byte` names the first occurrence.
pub proof fn lemma_find_byte(s: Seq<u8>, b: u8)
    ensures
        match find_byte(s, b) {
            Some(i) => 0 <= i < s.len() && s[i] == b && (forall|j: int|
                0 <= j < i ==> s[j] != b),
            None => forall|j: int| 0 <= j < s.len() ==> s[j] != b,
        },
    decreases s.len(),
{
    if s.len() == 0 {
    } else if s[0] == b {
    } else {
        lemma_find_byte(s.skip(1), b);
        match find_byte(s.skip(1), b) {
            Some(i) => {
                assert(s.skip(1)[i] == s[i + 1]);
                assert forall|j: int| 0 <= j < i + 1 implies s[j] != b by {
                    if j >= 1 {
                        assert(s.skip(1)[j - 1] == s[j]);
                    }
                }
            },
            None => {
                assert forall|j: int| 0 <= j < s.len() implies s[j] != b by {
                    if j >= 1 {
                        assert(s.skip(1)[j - 1] == s[j]);
                    }
                }
            },
        }
    }
}

/// Find the first occurrence of a byte in a slice.
pub fn find_byte_in(s: &[u8], b: u8) -> (r: Option<usize>)
    ensures
        match r {
            Some(i) => i < s.len() && find_byte(s@, b) == Some(i as int),
            None => find_byte(s@, b) is None,
        },
{
    let n = s.len();
    let mut i: usize = 0;
    while i < n
        invariant
            i <= n,
            n == s@.len(),
            forall|j: int| 0 <= j < i ==> s@[j] != b,
        decreases n - i,
    {
        if s[i] == b {
            proof {
                lemma_find_byte(s@, b);
            }
            return Some(i);
        }
        i += 1;
    }
    proof {
        lemma_find_byte(s@, b);
    }
    None
}

/// Whether `p` is a prefix of `s`.
pub open spec fn starts_with(s: Seq<u8>, p: Seq<u8>) -> bool {
    p.len() <= s.len() && s.subrange(0, p.len() as int) == p
}

/// Whether `p` is a suffix of `s`.
pub open spec fn ends_with(s: Seq<u8>, p: Seq<u8>) -> bool {
    p.len() <= s.len() && s.subrange(s.len() - p.len(), s.len() as int) == p
}

/// Whether two byte sequences are equal.
pub fn slice_eq(a: &[u8], b: &[u8]) -> (r: bool)
    ensures
        r == (a@ == b@),
{
    let n = a.len();
    if n != b.len() {
        return false;
    }
    let mut i: usize = 0;
    while i < n
        invariant
            i <= n,
            n == a@.len() == b@.len(),
            forall|j: int| 0 <= j < i ==> a@[j] == b@[j],
        decreases n - i,
    {
        if a[i] != b[i] {
            return false;
        }
        i += 1;
    }
    proof {
        assert(a@ =~= b@);
    }
    true
}

/// Whether a byte slice spells the given token.
pub fn token_is(s: &[u8], t: &str) -> (r: bool)
    ensures
        r == (s@ == t.spec_bytes()),
{
    slice_eq(s, t.as_bytes())
}

/// Whether a byte slice begins with the given token.
pub fn has_prefix(s: &[u8], p: &str) -> (r: bool)
    ensures
        r == starts_with(s@, p.spec_bytes()),
{
    let pb = p.as_bytes();
    let m = pb.len();
    if m > s.len() {
        return false;
    }
    let r = slice_eq(slice_subrange(s, 0, m), pb);
    proof {
        assert(s@.subrange(0, m as int) == pb@ ==> starts_with(s@, p.spec_bytes()));
    }
    r
}

/// Whether a byte slice ends with the given token.
pub fn has_suffix(s: &[u8], p: &str) -> (r: bool)
    ensures
        r == ends_with(s@, p.spec_bytes()),
{
    let pb = p.as_bytes();
    let m = pb.len();
    if m > s.len() {
        return false;
    }
    slice_eq(slice_subrange(s, s.len() - m, s.len()), pb)
}

/// The slice without its first `p.len()` bytes, for a `p` it begins with.
pub fn strip_prefix<'a>(s: &'a [u8], p: &str) -> (r: &'a [u8])
    requires
        starts_with(s@, p.spec_bytes()),
    ensures
        r@ == s@.skip(p.spec_bytes().len() as int),
{
    let m = p.as_bytes().len();
    let r = slice_subrange(s, m, s.len());
    proof {
        assert(s@.subrange(m as int, s@.len() as int) =~= s@.skip(m as int));
    }
    r
}

/// The trimmed body of a one-line `/* ... */` comment, or nothing when the
/// text is not such a comment.
pub open spec fn comment_body(s: Seq<u8>) -> Option<Seq<u8>> {
    if s.len() >= "/*".spec_bytes().len() + "*/".spec_bytes().len() && starts_with(
        s,
        "/*".spec_bytes(),
    ) && ends_with(s, "*/".spec_bytes()) {
        Some(
            trim(
                s.subrange(
                    "/*".spec_bytes().len() as int,
                    s.len() - "*/".spec_bytes().len(),
                ),
            ),
        )
    } else {
        None
    }
}

/// Strip a one-line comment's delimiters and trim its body.
pub fn comment_body_exec<'a>(s: &'a [u8]) -> (r: Option<&'a [u8]>)
    ensures
        match r {
            Some(v) => comment_body(s@) == Some(v@),
            None => comment_body(s@) is None,
        },
{
    let sl = "/*".as_bytes().len();
    let tl = "*/".as_bytes().len();
    if s.len() >= sl && s.len() - sl >= tl && has_prefix(s, "/*") && has_suffix(s, "*/") {
        Some(trim_slice(slice_subrange(s, sl, s.len() - tl)))
    } else {
        None
    }
}

/// The pieces of `s` between occurrences of `sep`, in order; always at
/// least one piece, and empty pieces are kept.
pub open spec fn split_on(s: Seq<u8>, sep: u8) -> Seq<Seq<u8>>
    decreases s.len(),
    via split_on_dec
{
    match find_byte(s, sep) {
        None => seq![s],
        Some(i) => seq![s.subrange(0, i)] + split_on(s.skip(i + 1), sep),
    }
}

#[via_fn]
proof fn split_on_dec(s: Seq<u8>, sep: u8) {
    lemma_find_byte(s, sep);
}

/// Split a slice at every occurrence of `sep`.
pub fn split_on_exec(s: &[u8], sep: u8) -> (r: Vec<Vec<u8>>)
    ensures
        r@.map_values(|v: Vec<u8>| v@) == split_on(s@, sep),
{
    let mut r: Vec<Vec<u8>> = Vec::new();
    let n = s.len();
    proof {
        assert(s@.skip(0) =~= s@);
        assert(r@.map_values(|v: Vec<u8>| v@) =~= Seq::<Seq<u8>>::empty());
        assert(Seq::<Seq<u8>>::empty() + split_on(s@, sep) =~= split_on(s@, sep));
    }
    let mut start: usize = 0;
    let mut i: usize = 0;
    while i < n
        invariant
            start <= i <= n,
            n == s@.len(),
            forall|j: int| start <= j < i ==> s@[j] != sep,
            split_on(s@, sep) == r@.map_values(|v: Vec<u8>| v@) + split_on(
                s@.skip(start as int),
                sep,
            ),
        decreases n - i,
    {
        if s[i] == sep {
            let ghost rest = s@.skip(start as int);
            proof {
                lemma_find_byte(rest, sep);
                assert(forall|j: int| 0 <= j < rest.len() ==> rest[j] == s@[start + j]);
                assert(rest[i - start] == sep);
                assert(find_byte(rest, sep) == Some(i - start as int));
                assert(rest.subrange(0, i - start as int) =~= s@.subrange(
                    start as int,
                    i as int,
                ));
                assert(rest.skip(i - start as int + 1) =~= s@.skip(i as int + 1));
            }
            let piece = slice_to_vec(slice_subrange(s, start, i));
            let ghost old_r = r@;
            r.push(piece);
            proof {
                assert(r@.map_values(|v: Vec<u8>| v@) =~= old_r.map_values(|v: Vec<u8>| v@)
                    + seq![s@.subrange(start as int, i as int)]);
            }
            start = i + 1;
        }
        i += 1;
    }
    let ghost rest = s@.skip(start as int);
    proof {
        lemma_find_byte(rest, sep);
        assert(forall|j: int| 0 <= j < rest.len() ==> rest[j] == s@[start + j]);
        assert(find_byte(rest, sep) is None);
    }
    let piece = slice_to_vec(slice_subrange(s, start, n));
    let ghost old_r = r@;
    r.push(piece);
    proof {
        assert(s@.skip(start as int) =~= s@.subrange(start as int, n as int));
        assert(r@.map_values(|v: Vec<u8>| v@) =~= old_r.map_values(|v: Vec<u8>| v@) + seq![
            s@.subrange(start as int, n as int),
        ]);
    }
    r
}

/// An owned copy of `s[from..to]`.
pub fn subrange_vec(s: &[u8], from: usize, to: usize) -> (r: Vec<u8>)
    requires
        from <= to <= s@.len(),
    ensures
        r@ == s@.subrange(from as int, to as int),
{
    slice_to_vec(slice_subrange(s, from, to))
}

/// The canonical lowercase hexadecimal digits of `n` without leading
/// zeros; empty for zero.
pub open spec fn hex_digits_rec(n: int) -> Seq<u8>
    decreases n,
{
    if n <= 0 {
        Seq::empty()
    } else {
        hex_digits_rec(n / 16).push(hex_digit_char(n % 16))
    }
}

/// The canonical lowercase hexadecimal numeral of `n`.
pub open spec fn hex_digits_of(n: int) -> Seq<u8> {
    if n == 0 {
        seq![48u8]
    } else {
        hex_digits_rec(n)
    }
}

/// The lowercase digit character for a value below sixteen.
pub open spec fn hex_digit_char(d: int) -> u8 {
    if d < 10 {
        (48 + d) as u8
    } else {
        (87 + d) as u8
    }
}

proof fn lemma_hex_digits_rec(n: int)
    requires
        n >= 0,
    ensures
        all_hex_digits(hex_digits_rec(n)),
        hex_value(hex_digits_rec(n)) == n,
        n > 0 ==> hex_digits_rec(n).len() > 0,
    decreases n,
{
    if n > 0 {
        lemma_hex_digits_rec(n / 16);
        let s = hex_digits_rec(n);
        let p = hex_digits_rec(n / 16);
        assert(s == p.push(hex_digit_char(n % 16)));
        assert(s.drop_last() =~= p);
        assert(is_hex_digit(hex_digit_char(n % 16)));
        assert(hex_digit_val(hex_digit_char(n % 16)) == n % 16);
        assert(forall|i: int| 0 <= i < s.len() ==> is_hex_digit(#[trigger] s[i]));
        assert(hex_value(s) == (n / 16) * 16 + n % 16);
        assert((n / 16) * 16 + n % 16 == n) by (nonlinear_arith);
    }
}

/// Parsing the canonical hexadecimal numeral of `n` yields `n` again: the
/// hexadecimal text of an offset and the offset's value correspond exactly.
pub proof fn lemma_hex_round_trip(n: int)
    requires
        0 <= n,
    ensures
        hex_digits_of(n).len() > 0,
        all_hex_digits(hex_digits_of(n)),
        hex_value(hex_digits_of(n)) == n,
{
    if n == 0 {
        let s = hex_digits_of(0);
        assert(s.len() == 1);
        assert(s.last() == 48u8);
        assert(s.drop_last() =~= Seq::<u8>::empty());
        assert(hex_value(s) == hex_value(s.drop_last()) * 16 + hex_digit_val(48u8));
        assert(hex_value(s) == 0);
    } else {
        lemma_hex_digits_rec(n);
    }
}

/// The lowercase spelling of a hexadecimal digit.
pub open spec fn lower_hex_byte(b: u8) -> u8 {
    if 65 <= b <= 70 {
        (b + 32) as u8
    } else {
        b
    }
}

/// Formatting the value of a hexadecimal numeral without leading zeros
/// yields the same text again, case aside: the formatted text is the
/// numeral's own lowercase spelling.
pub proof fn lemma_hex_format_round_trip(s: Seq<u8>)
    requires
        s.len() > 0,
        all_hex_digits(s),
        s[0] != 48 || s.len() == 1,
    ensures
        hex_digits_of(hex_value(s)) == s.map_values(|b: u8| lower_hex_byte(b)),
    decreases s.len(),
{
    if s.len() == 1 {
        let d = s[0];
        let dv = hex_digit_val(d);
        assert(s.drop_last() =~= Seq::<u8>::empty());
        assert(hex_value(Seq::<u8>::empty()) == 0);
        assert(s.last() == d);
        assert(hex_value(s) == dv);
        if d == 48 {
            assert(hex_digits_of(0) =~= s.map_values(|b: u8| lower_hex_byte(b)));
        } else {
            assert(dv > 0);
            assert(hex_digits_rec(dv) == hex_digits_rec(dv / 16).push(hex_digit_char(dv % 16)));
            assert(dv / 16 == 0 && dv % 16 == dv);
            assert(hex_digits_rec(0int) =~= Seq::<u8>::empty());
            assert(hex_digit_char(dv) == lower_hex_byte(d));
            assert(hex_digits_rec(dv) =~= s.map_values(|b: u8| lower_hex_byte(b)));
        }
    } else {
        let p = s.drop_last();
        let d = s.last();
        let dv = hex_digit_val(d);
        assert(forall|i: int| 0 <= i < p.len() ==> is_hex_digit(#[trigger] p[i]));
        lemma_hex_format_round_trip(p);
        let v = hex_value(p);
        lemma_hex_value_nonneg(p);
        assert(p.take(1) =~= seq![s[0]]);
        assert(p.take(1).drop_last() =~= Seq::<u8>::empty());
        assert(hex_value(Seq::<u8>::empty()) == 0);
        assert(p.take(1).last() == s[0]);
        assert(hex_value(p.take(1)) == hex_digit_val(s[0]));
        lemma_hex_value_take_le(p, 1);
        assert(v >= 1);
        let n = hex_value(s);
        assert(n == v * 16 + dv);
        assert(0 <= dv < 16);
        assert(n / 16 == v && n % 16 == dv) by (nonlinear_arith)
            requires
                n == v * 16 + dv,
                0 <= dv < 16,
                v >= 0,
        ;
        assert(n > 0);
        assert(hex_digits_rec(n) == hex_digits_rec(v).push(hex_digit_char(dv)));
        assert(hex_digits_of(v) == hex_digits_rec(v));
        assert(hex_digit_char(dv) == lower_hex_byte(d));
        assert(s.map_values(|b: u8| lower_hex_byte(b)) =~= p.map_values(
            |b: u8| lower_hex_byte(b),
        ).push(lower_hex_byte(d)));
    }
}

/// The bytes of `v` in reverse order.
pub fn reverse_bytes(v: &Vec<u8>) -> (r: Vec<u8>)
    ensures
        r@ == v@.reverse(),
{
    let n = v.len();
    let mut r: Vec<u8> = Vec::new();
    let mut i: usize = 0;
    while i < n
        invariant
            i <= n,
            n == v@.len(),
            r@.len() == i,
            forall|j: int| 0 <= j < i ==> r@[j] == v@[n - 1 - j],
        decreases n - i,
    {
        r.push(v[n - 1 - i]);
        i += 1;
    }
    proof {
        assert(r@ =~= v@.reverse());
    }
    r
}

/// Render `n` as its canonical lowercase hexadecimal numeral.
pub fn format_hex(n: u32) -> (r: Vec<u8>)
    ensures
        r@ == hex_digits_of(n as int),
{
    if n == 0 {
        let mut r: Vec<u8> = Vec::new();
        r.push(48);
        proof {
            assert(r@ =~= seq![48u8]);
        }
        return r;
    }
    let mut acc: Vec<u8> = Vec::new();
    let mut m: u32 = n;
    while m > 0
        invariant
            hex_digits_rec(n as int) == hex_digits_rec(m as int) + acc@.reverse(),
        decreases m,
    {
        let d = (m % 16) as u8;
        let c: u8 = if d < 10 {
            48 + d
        } else {
            87 + d
        };
        let ghost old_acc = acc@;
        acc.push(c);
        proof {
            assert(c == hex_digit_char(m as int % 16));
            assert(acc@.reverse() =~= seq![c] + old_acc.reverse());
            assert(hex_digits_rec(m as int) == hex_digits_rec(m as int / 16).push(
                hex_digit_char(m as int % 16),
            ));
            assert(hex_digits_rec(m as int / 16) + acc@.reverse() =~= hex_digits_rec(
                m as int,
            ) + old_acc.reverse());
        }
        m = m / 16;
    }
    proof {
        assert(hex_digits_rec(0int) =~= Seq::<u8>::empty());
        assert(hex_digits_rec(n as int) =~= acc@.reverse());
    }
    reverse_bytes(&acc)
}

} // verus!
