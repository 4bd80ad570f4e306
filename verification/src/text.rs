//! Text handling used by the repository's plain-text files: UTF-8 decoding,
//! whitespace trimming and decimal parsing, as std's `str` functions do them.

use vstd::prelude::*;
use vstd::string::StrSliceExecFns;
use vstd::utf8::*;

verus! {

/// Calls `std::str::from_utf8`. Trusted: std documents that it succeeds exactly
/// on valid UTF-8 and that the string then holds the decoded characters.
#[verifier::external_body]
pub(crate) fn str_from_utf8(bytes: &[u8]) -> (s: Option<&str>)
    ensures
        s is Some <==> valid_utf8(bytes@),
        s matches Some(s) ==> s@ == decode_utf8(bytes@),
{
    std::str::from_utf8(bytes).ok()
}

/// `char::is_whitespace`: the Unicode `White_Space` property.
pub open spec fn is_white_space(c: char) -> bool {
    ||| c == ' '
    ||| ('\t' <= c && c <= '\r')
    ||| c == '\u{85}'
    ||| c == '\u{a0}'
    ||| c == '\u{1680}'
    ||| ('\u{2000}' <= c && c <= '\u{200a}')
    ||| c == '\u{2028}'
    ||| c == '\u{2029}'
    ||| c == '\u{202f}'
    ||| c == '\u{205f}'
    ||| c == '\u{3000}'
}

/// `s` without its leading whitespace.
pub open spec fn trim_start(s: Seq<char>) -> Seq<char>
    decreases s.len(),
{
    if s.len() > 0 && is_white_space(s[0]) {
        trim_start(s.drop_first())
    } else {
        s
    }
}

/// `s` without its trailing whitespace.
pub open spec fn trim_end(s: Seq<char>) -> Seq<char>
    decreases s.len(),
{
    if s.len() > 0 && is_white_space(s.last()) {
        trim_end(s.drop_last())
    } else {
        s
    }
}

/// `str::trim`: `s` without leading and trailing whitespace.
pub open spec fn trim(s: Seq<char>) -> Seq<char> {
    trim_end(trim_start(s))
}

fn is_white_space_exec(c: char) -> (b: bool)
    ensures
        b == is_white_space(c),
{
    c == ' ' || ('\t' <= c && c <= '\r') || c == '\u{85}' || c == '\u{a0}' || c == '\u{1680}' || (
    '\u{2000}' <= c && c <= '\u{200a}') || c == '\u{2028}' || c == '\u{2029}' || c == '\u{202f}'
        || c == '\u{205f}' || c == '\u{3000}'
}

/// Removes leading and trailing whitespace, as `str::trim` does.
pub fn trim_str(s: &str) -> (t: &str)
    ensures
        t@ == trim(s@),
{
    let n = s.unicode_len();
    let mut i: usize = 0;
    proof {
        assert(s@.subrange(0, n as int) =~= s@);
    }
    while i < n && is_white_space_exec(s.get_char(i))
        invariant
            n == s@.len(),
            i <= n,
            trim_start(s@) == trim_start(s@.subrange(i as int, n as int)),
        decreases n - i,
    {
        proof {
            let sub = s@.subrange(i as int, n as int);
            assert(sub.drop_first() =~= s@.subrange(i + 1, n as int));
        }
        i = i + 1;
    }
    proof {
        if i == n {
            assert(s@.subrange(i as int, n as int).len() == 0);
        }
        assert(trim_start(s@) == s@.subrange(i as int, n as int));
    }
    let mut j: usize = n;
    while j > i && is_white_space_exec(s.get_char(j - 1))
        invariant
            n == s@.len(),
            i <= j <= n,
            trim(s@) == trim_end(s@.subrange(i as int, j as int)),
        decreases j - i,
    {
        proof {
            let sub = s@.subrange(i as int, j as int);
            assert(sub.drop_last() =~= s@.subrange(i as int, j - 1));
        }
        j = j - 1;
    }
    s.substring_char(i, j)
}

/// Whether `c` is an ASCII decimal digit.
pub open spec fn is_digit(c: char) -> bool {
    '0' <= c && c <= '9'
}

/// The decimal value of a digit string.
pub open spec fn decimal_value(s: Seq<char>) -> int
    decreases s.len(),
{
    if s.len() == 0 {
        0
    } else {
        decimal_value(s.drop_last()) * 10 + (s.last() as int - '0' as int)
    }
}

/// The digits of a number, after an optional leading `+`.
pub open spec fn unsigned_digits(s: Seq<char>) -> Seq<char> {
    if s.len() > 0 && s[0] == '+' {
        s.drop_first()
    } else {
        s
    }
}

/// `u32::from_str`: an optional `+`, then one or more decimal digits whose value fits.
pub open spec fn parse_u32(s: Seq<char>) -> Option<u32> {
    let d = unsigned_digits(s);
    if d.len() > 0 && (forall|i: int| 0 <= i < d.len() ==> is_digit(#[trigger] d[i])) && decimal_value(
        d,
    ) <= u32::MAX {
        Some(decimal_value(d) as u32)
    } else {
        None
    }
}

proof fn lemma_decimal_prefix_le(d: Seq<char>, k: int)
    requires
        0 <= k <= d.len(),
        forall|i: int| 0 <= i < d.len() ==> is_digit(#[trigger] d[i]),
    ensures
        0 <= decimal_value(d.take(k)) <= decimal_value(d),
    decreases d.len(),
{
    if d.len() == 0 {
        assert(d.take(k) =~= d);
    } else if k == d.len() {
        assert(d.take(k) =~= d);
        lemma_decimal_prefix_le(d.drop_last(), k - 1);
    } else {
        let p = d.drop_last();
        lemma_decimal_prefix_le(p, k);
        assert(p.take(k) =~= d.take(k));
        lemma_decimal_prefix_le(p, p.len() as int);
        assert(p.take(p.len() as int) =~= p);
    }
}

/// Parses an unsigned 32-bit decimal number, as `str::parse::<u32>` does.
pub fn parse_u32_str(s: &str) -> (r: Option<u32>)
    ensures
        r == parse_u32(s@),
{
    let n = s.unicode_len();
    let start: usize = if n > 0 && s.get_char(0) == '+' {
        1
    } else {
        0
    };
    let ghost d = unsigned_digits(s@);
    proof {
        assert(d =~= s@.subrange(start as int, n as int));
    }
    if start == n {
        return None;
    }
    let mut value: u64 = 0;
    let mut k: usize = start;
    while k < n
        invariant
            n == s@.len(),
            start <= k <= n,
            d == unsigned_digits(s@),
            d =~= s@.subrange(start as int, n as int),
            forall|i: int| 0 <= i < k - start ==> is_digit(#[trigger] d[i]),
            value == decimal_value(d.take(k - start)),
            value <= u32::MAX,
        decreases n - k,
    {
        let c = s.get_char(k);
        if !('0' <= c && c <= '9') {
            proof {
                assert(!is_digit(d[k - start]));
                assert(!(forall|i: int| 0 <= i < d.len() ==> is_digit(#[trigger] d[i])));
                assert(parse_u32(s@) is None);
            }
            return None;
        }
        let digit = (c as u32 - '0' as u32) as u64;
        proof {
            let t = d.take(k + 1 - start);
            assert(t.drop_last() =~= d.take(k - start));
            assert(t.last() == c);
        }
        value = value * 10 + digit;
        k = k + 1;
        if value > 0xffff_ffff {
            proof {
                if forall|i: int| 0 <= i < d.len() ==> is_digit(#[trigger] d[i]) {
                    lemma_decimal_prefix_le(d, k - start);
                    assert(decimal_value(d) > u32::MAX);
                }
                assert(parse_u32(s@) is None);
            }
            return None;
        }
    }
    proof {
        assert(d.take(n - start) =~= d);
    }
    Some(value as u32)
}


/// Trimming the start leaves a suffix of `s`, shorter when `s` starts with whitespace.
pub proof fn lemma_trim_start_suffix(s: Seq<char>)
    ensures
        trim_start(s).len() <= s.len(),
        trim_start(s) == s.skip(s.len() - trim_start(s).len()),
        s.len() > 0 && is_white_space(s[0]) ==> trim_start(s).len() < s.len(),
    decreases s.len(),
{
    if s.len() > 0 && is_white_space(s[0]) {
        lemma_trim_start_suffix(s.drop_first());
        let t = trim_start(s);
        assert(s.drop_first().skip(s.len() - 1 - t.len()) =~= s.skip(s.len() - t.len()));
    } else {
        assert(s.skip(0) =~= s);
    }
}

/// Trimming the end leaves a prefix of `s`, shorter when `s` ends with whitespace.
pub proof fn lemma_trim_end_prefix(s: Seq<char>)
    ensures
        trim_end(s).len() <= s.len(),
        trim_end(s) == s.take(trim_end(s).len() as int),
        s.len() > 0 && is_white_space(s.last()) ==> trim_end(s).len() < s.len(),
    decreases s.len(),
{
    if s.len() > 0 && is_white_space(s.last()) {
        lemma_trim_end_prefix(s.drop_last());
        let t = trim_end(s);
        assert(s.drop_last().take(t.len() as int) =~= s.take(t.len() as int));
    } else {
        assert(s.take(s.len() as int) =~= s);
    }
}

/// A string that trimming leaves unchanged neither starts nor ends with whitespace.
pub proof fn lemma_trimmed_ends(s: Seq<char>)
    requires
        trim(s) == s,
    ensures
        s.len() > 0 ==> !is_white_space(s[0]) && !is_white_space(s.last()),
        trim_start(s) == s,
        trim_end(s) == s,
{
    lemma_trim_start_suffix(s);
    lemma_trim_end_prefix(trim_start(s));
    let t = trim_start(s);
    assert(t.len() == s.len());
    assert(s.skip(0) =~= s);
    assert(t == s);
    lemma_trim_end_prefix(s);
}

/// `a` sorts strictly before `b` as `str` orders strings: byte by byte, and a
/// proper prefix before the longer string.
pub open spec fn bytes_before(a: Seq<u8>, b: Seq<u8>) -> bool
    decreases a.len(),
{
    if b.len() == 0 {
        false
    } else if a.len() == 0 {
        true
    } else if a[0] != b[0] {
        a[0] < b[0]
    } else {
        bytes_before(a.drop_first(), b.drop_first())
    }
}

/// The name `a` sorts strictly before the name `b`: their UTF-8 bytes do.
pub open spec fn name_before(a: Seq<char>, b: Seq<char>) -> bool {
    bytes_before(encode_utf8(a), encode_utf8(b))
}

/// No byte string sorts before itself.
pub proof fn lemma_bytes_before_irreflexive(a: Seq<u8>)
    ensures
        !bytes_before(a, a),
    decreases a.len(),
{
    if a.len() > 0 {
        lemma_bytes_before_irreflexive(a.drop_first());
    }
}

/// Of two byte strings, at most one sorts before the other.
pub proof fn lemma_bytes_before_asymmetric(a: Seq<u8>, b: Seq<u8>)
    ensures
        !(bytes_before(a, b) && bytes_before(b, a)),
    decreases a.len(),
{
    if a.len() > 0 && b.len() > 0 && a[0] == b[0] {
        lemma_bytes_before_asymmetric(a.drop_first(), b.drop_first());
    }
}

/// Sorting before is transitive.
pub proof fn lemma_bytes_before_transitive(a: Seq<u8>, b: Seq<u8>, c: Seq<u8>)
    requires
        bytes_before(a, b),
        bytes_before(b, c),
    ensures
        bytes_before(a, c),
    decreases a.len(),
{
    if a.len() > 0 && a[0] == b[0] && b[0] == c[0] {
        lemma_bytes_before_transitive(a.drop_first(), b.drop_first(), c.drop_first());
    }
}

/// Two different byte strings are ordered one way or the other.
pub proof fn lemma_bytes_before_total(a: Seq<u8>, b: Seq<u8>)
    requires
        a != b,
    ensures
        bytes_before(a, b) || bytes_before(b, a),
    decreases a.len(),
{
    if a.len() > 0 && b.len() > 0 && a[0] == b[0] {
        if a.drop_first() == b.drop_first() {
            assert(a =~= seq![a[0]] + a.drop_first());
            assert(b =~= seq![b[0]] + b.drop_first());
        }
        lemma_bytes_before_total(a.drop_first(), b.drop_first());
    } else if a.len() == 0 && b.len() == 0 {
        assert(a =~= b);
    }
}

/// Names are ordered as their bytes are: strictly, and totally on different names.
pub proof fn lemma_name_order(a: Seq<char>, b: Seq<char>, c: Seq<char>)
    ensures
        !name_before(a, a),
        !(name_before(a, b) && name_before(b, a)),
        name_before(a, b) && name_before(b, c) ==> name_before(a, c),
        a != b ==> name_before(a, b) || name_before(b, a),
{
    lemma_bytes_before_irreflexive(encode_utf8(a));
    lemma_bytes_before_asymmetric(encode_utf8(a), encode_utf8(b));
    if name_before(a, b) && name_before(b, c) {
        lemma_bytes_before_transitive(encode_utf8(a), encode_utf8(b), encode_utf8(c));
    }
    if a != b {
        encode_utf8_decode_utf8(a);
        encode_utf8_decode_utf8(b);
        lemma_bytes_before_total(encode_utf8(a), encode_utf8(b));
    }
}

/// Whether `a` sorts strictly before `b`, as `<` on `str` decides it.
pub fn str_before(a: &str, b: &str) -> (r: bool)
    ensures
        r == name_before(a@, b@),
{
    let x = a.as_bytes();
    let y = b.as_bytes();
    let ghost xs = x@;
    let ghost ys = y@;
    let mut i: usize = 0;
    proof {
        assert(xs.skip(0) =~= xs);
        assert(ys.skip(0) =~= ys);
    }
    while i < x.len() && i < y.len()
        invariant
            x@ == xs,
            y@ == ys,
            xs == encode_utf8(a@),
            ys == encode_utf8(b@),
            i <= xs.len(),
            i <= ys.len(),
            bytes_before(xs, ys) == bytes_before(xs.skip(i as int), ys.skip(i as int)),
        decreases xs.len() - i,
    {
        if x[i] != y[i] {
            return x[i] < y[i];
        }
        proof {
            assert(xs.skip(i as int).drop_first() =~= xs.skip(i + 1));
            assert(ys.skip(i as int).drop_first() =~= ys.skip(i + 1));
        }
        i = i + 1;
    }
    i < y.len()
}

} // verus!
