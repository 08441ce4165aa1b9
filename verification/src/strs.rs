//! Byte-level helpers on UTF-8 strings.

use vstd::prelude::*;
use vstd::string::StringSliceAdditionalSpecFns;
use vstd::string::StringExecFns;
use vstd::utf8::*;

verus! {

broadcast use vstd::utf8::encode_utf8_valid_utf8, vstd::utf8::encode_utf8_decode_utf8;

/// The UTF-8 bytes of a string view.
pub open spec fn utf8(s: Seq<char>) -> Seq<u8> {
    encode_utf8(s)
}

/// The encoding of two strings one after the other is their encodings one
/// after the other.
pub proof fn lemma_utf8_append(a: Seq<char>, b: Seq<char>)
    ensures
        utf8(a + b) == utf8(a) + utf8(b),
    decreases a.len(),
{
    if a.len() == 0 {
        assert(a + b =~= b);
        assert(utf8(a) =~= Seq::<u8>::empty());
        assert(utf8(a) + utf8(b) =~= utf8(b));
    } else {
        assert((a + b)[0] == a[0]);
        assert((a + b).drop_first() =~= a.drop_first() + b);
        lemma_utf8_append(a.drop_first(), b);
        assert(utf8(a + b) =~= utf8(a) + utf8(b));
    }
}

/// Two strings are equal exactly when their encodings are.
pub proof fn lemma_utf8_injective(a: Seq<char>, b: Seq<char>)
    ensures
        (utf8(a) == utf8(b)) <==> (a == b),
{
    if utf8(a) == utf8(b) {
        assert(decode_utf8(encode_utf8(a)) == a);
        assert(decode_utf8(encode_utf8(b)) == b);
    }
}

/// Compare two byte slices for equality.
pub fn bytes_eq(a: &[u8], b: &[u8]) -> (r: bool)
    ensures
        r == (a@ == b@),
{
    if a.len() != b.len() {
        return false;
    }
    let mut i: usize = 0;
    while i < a.len()
        invariant
            a.len() == b.len(),
            i <= a.len(),
            forall|j: int| 0 <= j < i ==> a@[j] == b@[j],
        decreases a.len() - i,
    {
        if a[i] != b[i] {
            return false;
        }
        i += 1;
    }
    assert(a@ =~= b@);
    true
}

/// Compare two strings for equality.
pub fn str_eq(a: &str, b: &str) -> (r: bool)
    ensures
        r == (a@ == b@),
{
    let r = bytes_eq(a.as_bytes(), b.as_bytes());
    proof {
        lemma_utf8_injective(a@, b@);
    }
    r
}

/// In valid UTF-8, the position after an ASCII byte that starts a character
/// is again a character boundary.
pub proof fn lemma_boundary_after_ascii(bs: Seq<u8>, i: int)
    requires
        valid_utf8(bs),
        is_char_boundary(bs, i),
        0 <= i < bs.len(),
        bs[i] < 0x80,
    ensures
        is_char_boundary(bs, i + 1),
    decreases bs.len(),
{
    reveal_with_fuel(is_char_boundary, 2);
    if i > 0 {
        let l = length_of_first_scalar(bs);
        let tail = pop_first_scalar(bs);
        assert(l >= 1 && l <= bs.len());
        assert(tail.len() < bs.len());
        assert(is_char_boundary(tail, i - l));
        if i - l >= 0 && i - l < tail.len() {
            assert(tail[i - l] == bs[i]);
            lemma_boundary_after_ascii(tail, i - l);
        } else {
            assert(i - l == tail.len() || i - l < 0);
            if i - l < 0 {
                assert(!is_char_boundary(tail, i - l));
            }
        }
    }
}

/// Every position holding an ASCII byte in valid UTF-8 is a character boundary.
pub proof fn lemma_boundary_at_ascii(bs: Seq<u8>, i: int)
    requires
        valid_utf8(bs),
        0 <= i < bs.len(),
        bs[i] < 0x80,
    ensures
        is_char_boundary(bs, i),
{
    is_char_boundary_iff_not_is_continuation_byte(bs, i);
}

/// The substring of `s` between two character boundaries.
pub fn substr(s: &str, start: usize, end: usize) -> (r: &str)
    requires
        start <= end <= s.spec_bytes().len(),
        is_char_boundary(s.spec_bytes(), start as int),
        is_char_boundary(s.spec_bytes(), end as int),
    ensures
        r.spec_bytes() == s.spec_bytes().subrange(start as int, end as int),
{
    let ghost sb = s.spec_bytes();
    proof {
        encode_utf8_valid_utf8(s@);
        valid_utf8_split(sb, end as int);
    }
    let (head, _) = s.split_at(end);
    let ghost hb = head.spec_bytes();
    assert(hb == sb.subrange(0, end as int));
    proof {
        if start < end {
            is_char_boundary_iff_not_is_continuation_byte(sb, start as int);
            is_char_boundary_iff_not_is_continuation_byte(hb, start as int);
        } else {
            is_char_boundary_start_end_of_seq(hb);
        }
    }
    let (_, tail) = head.split_at(start);
    assert(tail.spec_bytes() =~= sb.subrange(start as int, end as int));
    tail
}

/// The views of a sequence of strings.
pub open spec fn strings_view(v: Seq<String>) -> Seq<Seq<char>> {
    v.map_values(|s: String| s@)
}

/// Lexicographic order on byte sequences (the order of `str`).
pub open spec fn bytes_lt(a: Seq<u8>, b: Seq<u8>) -> bool
    decreases a.len(),
{
    if a.len() == 0 {
        b.len() > 0
    } else if b.len() == 0 {
        false
    } else if a[0] != b[0] {
        a[0] < b[0]
    } else {
        bytes_lt(a.drop_first(), b.drop_first())
    }
}

/// Lexicographic order on strings, by their UTF-8 bytes.
pub open spec fn str_lt(a: Seq<char>, b: Seq<char>) -> bool {
    bytes_lt(utf8(a), utf8(b))
}

pub proof fn lemma_bytes_lt_irreflexive(a: Seq<u8>)
    ensures
        !bytes_lt(a, a),
    decreases a.len(),
{
    if a.len() > 0 {
        lemma_bytes_lt_irreflexive(a.drop_first());
    }
}

pub proof fn lemma_bytes_lt_transitive(a: Seq<u8>, b: Seq<u8>, c: Seq<u8>)
    requires
        bytes_lt(a, b),
        bytes_lt(b, c),
    ensures
        bytes_lt(a, c),
    decreases a.len(),
{
    if a.len() > 0 && b.len() > 0 && c.len() > 0 && a[0] == b[0] && b[0] == c[0] {
        lemma_bytes_lt_transitive(a.drop_first(), b.drop_first(), c.drop_first());
    }
}

pub proof fn lemma_bytes_lt_total(a: Seq<u8>, b: Seq<u8>)
    ensures
        a == b || bytes_lt(a, b) || bytes_lt(b, a),
    decreases a.len(),
{
    if a.len() > 0 && b.len() > 0 && a[0] == b[0] {
        lemma_bytes_lt_total(a.drop_first(), b.drop_first());
        if a.drop_first() == b.drop_first() {
            assert(a =~= seq![a[0]] + a.drop_first());
            assert(b =~= seq![b[0]] + b.drop_first());
        }
    } else if a.len() == 0 && b.len() == 0 {
        assert(a =~= b);
    }
}

pub proof fn lemma_bytes_lt_asymmetric(a: Seq<u8>, b: Seq<u8>)
    requires
        bytes_lt(a, b),
    ensures
        !bytes_lt(b, a),
{
    if bytes_lt(b, a) {
        lemma_bytes_lt_transitive(a, b, a);
        lemma_bytes_lt_irreflexive(a);
    }
}

/// `str_lt` is a strict total order.
pub proof fn lemma_str_lt_order(a: Seq<char>, b: Seq<char>, c: Seq<char>)
    ensures
        !str_lt(a, a),
        str_lt(a, b) && str_lt(b, c) ==> str_lt(a, c),
        str_lt(a, b) ==> !str_lt(b, a),
        a == b || str_lt(a, b) || str_lt(b, a),
{
    lemma_bytes_lt_irreflexive(utf8(a));
    if str_lt(a, b) && str_lt(b, c) {
        lemma_bytes_lt_transitive(utf8(a), utf8(b), utf8(c));
    }
    if str_lt(a, b) {
        lemma_bytes_lt_asymmetric(utf8(a), utf8(b));
    }
    lemma_bytes_lt_total(utf8(a), utf8(b));
    lemma_utf8_injective(a, b);
}

/// Lexicographic comparison of byte slices.
pub fn bytes_less(a: &[u8], b: &[u8]) -> (r: bool)
    ensures
        r == bytes_lt(a@, b@),
{
    let mut i: usize = 0;
    assert(a@.subrange(0, a@.len() as int) =~= a@);
    assert(b@.subrange(0, b@.len() as int) =~= b@);
    while i < a.len() && i < b.len() && a[i] == b[i]
        invariant
            i <= a@.len(),
            i <= b@.len(),
            bytes_lt(a@, b@) == bytes_lt(a@.subrange(i as int, a@.len() as int), b@.subrange(i as int, b@.len() as int)),
        decreases a@.len() - i,
    {
        let ghost sa = a@.subrange(i as int, a@.len() as int);
        let ghost sb = b@.subrange(i as int, b@.len() as int);
        assert(sa.drop_first() =~= a@.subrange(i + 1, a@.len() as int));
        assert(sb.drop_first() =~= b@.subrange(i + 1, b@.len() as int));
        i += 1;
    }
    if i == a.len() {
        i < b.len()
    } else if i == b.len() {
        false
    } else {
        a[i] < b[i]
    }
}

/// Lexicographic comparison of strings, by their UTF-8 bytes.
pub fn str_less(a: &str, b: &str) -> (r: bool)
    ensures
        r == str_lt(a@, b@),
{
    bytes_less(a.as_bytes(), b.as_bytes())
}

/// Does `bs` hold the byte `b`?
pub fn bytes_contain(bs: &[u8], b: u8) -> (r: bool)
    ensures
        r == bs@.contains(b),
{
    let mut i: usize = 0;
    while i < bs.len()
        invariant
            i <= bs@.len(),
            forall|j: int| 0 <= j < i ==> bs@[j] != b,
        decreases bs@.len() - i,
    {
        if bs[i] == b {
            assert(bs@[i as int] == b);
            return true;
        }
        i += 1;
    }
    false
}


/// Is `s` one of the strings of `v`?
pub fn contains_string(v: &Vec<String>, s: &str) -> (r: bool)
    ensures
        r == strings_view(v@).contains(s@),
{
    let mut i: usize = 0;
    while i < v.len()
        invariant
            i <= v@.len(),
            forall|j: int| 0 <= j < i ==> v@[j]@ != s@,
        decreases v@.len() - i,
    {
        if str_eq(v[i].as_str(), s) {
            assert(strings_view(v@)[i as int] == s@);
            return true;
        }
        i += 1;
    }
    proof {
        if strings_view(v@).contains(s@) {
            let k = choose|k: int| 0 <= k < strings_view(v@).len() && strings_view(v@)[k] == s@;
            assert(v@[k]@ == s@);
        }
    }
    false
}

/// Append `s` to `buf`.
pub(crate) fn push_str(buf: &mut String, s: &str)
    ensures
        final(buf)@ == old(buf)@ + s@,
{
    buf.append(s)
}


/// Does `s` start with a tab?
pub fn starts_with_tab(s: &str) -> (r: bool)
    ensures
        r == (s@.len() > 0 && s@[0] == '\t'),
{
    let bs = s.as_bytes();
    proof {
        crate::strs::lemma_first_byte_ascii(s@, 9u8);
    }
    bs.len() > 0 && bs[0] == 9
}

/// The first byte of a string is an ASCII byte `b` exactly when its first
/// character is `b`.
pub proof fn lemma_first_byte_ascii(s: Seq<char>, b: u8)
    requires
        b < 0x80,
    ensures
        (utf8(s).len() > 0 && utf8(s)[0] == b) == (s.len() > 0 && s[0] == b as char),
{
    if s.len() > 0 {
        let c = s[0] as u32;
        char_is_scalar(s[0]);
        char_u32_cast(s[0], c);
        let e = encode_scalar(c);
        assert(utf8(s) == e + encode_utf8(s.drop_first()));
        assert(e.len() > 0);
        assert(utf8(s)[0] == e[0]);
        if has_width_1_encoding(c) {
            assert((c & 0x7F) as u8 == c as u8) by (bit_vector)
                requires
                    c <= 0x7F,
            ;
            assert(e[0] == c as u8);
            if s[0] == b as char {
                assert(c == b as u32);
            }
            if c == b as u32 {
                assert(s[0] == (c as char));
            }
        } else if has_width_2_encoding(c) {
            assert(0xC0 | ((c >> 6) & 0x1F) as u8 >= 0xC0) by (bit_vector);
        } else if has_width_3_encoding(c) {
            assert(0xE0 | ((c >> 12) & 0x0F) as u8 >= 0xE0) by (bit_vector);
        } else {
            assert(0xF0 | ((c >> 18) & 0x7) as u8 >= 0xF0) by (bit_vector);
        }
    }
}

} // verus!
