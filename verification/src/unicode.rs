//! Byte offsets into the UTF-8 encoding of a scalar-value sequence.
//!
//! The text buffer stores its content as a sequence of Unicode scalar
//! values, but the selection addresses the text by byte offsets into its
//! UTF-8 encoding. This module defines those offsets over vstd's
//! `encode_utf8` model and provides the executable conversions between
//! byte offsets and scalar-value indices.

use vstd::prelude::*;

verus! {

use vstd::string::StrSliceExecFns;
use vstd::utf8::char_is_scalar;
use vstd::utf8::encode_scalar;
use vstd::utf8::encode_utf8;

/// Number of bytes in the UTF-8 encoding of one scalar value.
pub open spec fn char_len(c: char) -> int {
    encode_scalar(c as u32).len() as int
}

/// Number of bytes in the UTF-8 encoding of a scalar-value sequence.
pub open spec fn byte_len(s: Seq<char>) -> int {
    encode_utf8(s).len() as int
}

/// Byte offset of the boundary that follows the first `i` scalar values.
pub open spec fn byte_of(s: Seq<char>, i: int) -> int {
    byte_len(s.take(i))
}

/// `b` is a byte offset that falls between complete scalar values of `s`
/// (including the offsets 0 and `byte_len(s)`).
pub open spec fn is_boundary(s: Seq<char>, b: int) -> bool {
    exists|i: int| 0 <= i <= s.len() && byte_of(s, i) == b
}

/// The scalar-value index whose boundary sits at byte offset `b`.
pub open spec fn idx_of(s: Seq<char>, b: int) -> int {
    choose|i: int| 0 <= i <= s.len() && byte_of(s, i) == b
}

/// The largest boundary of `s` that does not exceed `b`: where a host
/// hands in an arbitrary byte offset, it is snapped backward to the
/// nearest scalar-value boundary (and clamped to the text).
pub open spec fn snap(s: Seq<char>, b: int) -> int {
    choose|r: int|
        is_boundary(s, r) && r <= b && (forall|b2: int|
            is_boundary(s, b2) && b2 <= b ==> b2 <= r)
}

pub proof fn lemma_char_len_bounds(c: char)
    ensures
        1 <= char_len(c) <= 4,
{
    char_is_scalar(c);
}

pub proof fn lemma_encode_app(a: Seq<char>, b: Seq<char>)
    ensures
        encode_utf8(a + b) == encode_utf8(a) + encode_utf8(b),
    decreases a.len(),
{
    if a.len() == 0 {
        assert(a + b =~= b);
        assert(encode_utf8(a) + encode_utf8(b) =~= encode_utf8(b));
    } else {
        lemma_encode_app(a.drop_first(), b);
        assert((a + b).drop_first() =~= a.drop_first() + b);
        assert((a + b)[0] == a[0]);
        assert(encode_utf8(a + b) =~= encode_utf8(a) + encode_utf8(b));
    }
}

pub proof fn lemma_byte_len_app(a: Seq<char>, b: Seq<char>)
    ensures
        byte_len(a + b) == byte_len(a) + byte_len(b),
{
    lemma_encode_app(a, b);
}

pub proof fn lemma_byte_len_single(c: char)
    ensures
        byte_len(seq![c]) == char_len(c),
{
    assert(seq![c].drop_first() =~= Seq::<char>::empty());
    assert(seq![c][0] == c);
    assert(encode_utf8(Seq::<char>::empty()) == Seq::<u8>::empty());
    assert(encode_utf8(seq![c]) == encode_scalar(c as u32) + Seq::<u8>::empty());
    assert(encode_scalar(c as u32) + Seq::<u8>::empty() =~= encode_scalar(c as u32));
}

pub proof fn lemma_byte_len_ge_len(s: Seq<char>)
    ensures
        s.len() <= byte_len(s),
    decreases s.len(),
{
    if s.len() > 0 {
        lemma_byte_len_ge_len(s.drop_first());
        lemma_char_len_bounds(s[0]);
    }
}

pub proof fn lemma_byte_of_zero(s: Seq<char>)
    ensures
        byte_of(s, 0) == 0,
{
    assert(s.take(0) =~= Seq::<char>::empty());
}

pub proof fn lemma_byte_of_full(s: Seq<char>)
    ensures
        byte_of(s, s.len() as int) == byte_len(s),
{
    assert(s.take(s.len() as int) =~= s);
}

pub proof fn lemma_byte_of_step(s: Seq<char>, i: int)
    requires
        0 <= i < s.len(),
    ensures
        byte_of(s, i + 1) == byte_of(s, i) + char_len(s[i]),
{
    assert(s.take(i + 1) =~= s.take(i) + seq![s[i]]);
    lemma_byte_len_app(s.take(i), seq![s[i]]);
    lemma_byte_len_single(s[i]);
}

/// Byte offsets grow with the scalar index, by at least one byte per scalar.
pub proof fn lemma_byte_of_mono(s: Seq<char>, i: int, j: int)
    requires
        0 <= i <= j <= s.len(),
    ensures
        byte_of(s, i) + (j - i) <= byte_of(s, j),
{
    assert(s.take(j) =~= s.take(i) + s.subrange(i, j));
    lemma_byte_len_app(s.take(i), s.subrange(i, j));
    lemma_byte_len_ge_len(s.subrange(i, j));
}

/// At most one scalar index has its boundary at a given byte offset.
pub proof fn lemma_boundary_unique(s: Seq<char>, i: int, j: int)
    requires
        0 <= i <= s.len(),
        0 <= j <= s.len(),
        byte_of(s, i) == byte_of(s, j),
    ensures
        i == j,
{
    if i < j {
        lemma_byte_of_mono(s, i, j);
    }
    if j < i {
        lemma_byte_of_mono(s, j, i);
    }
}

/// On a boundary offset, `idx_of` names the unique witness index.
pub proof fn lemma_idx_of(s: Seq<char>, b: int)
    requires
        is_boundary(s, b),
    ensures
        0 <= idx_of(s, b) <= s.len(),
        byte_of(s, idx_of(s, b)) == b,
        forall|i: int| 0 <= i <= s.len() && byte_of(s, i) == b ==> i == idx_of(s, b),
{
    assert forall|i: int| 0 <= i <= s.len() && byte_of(s, i) == b implies i == idx_of(s, b) by {
        lemma_boundary_unique(s, i, idx_of(s, b));
    }
}

/// Byte offsets up to a common prefix are the same in both sequences.
pub proof fn lemma_byte_of_prefix(s1: Seq<char>, s2: Seq<char>, n: int, i: int)
    requires
        0 <= i <= n,
        n <= s1.len(),
        n <= s2.len(),
        s1.take(n) == s2.take(n),
    ensures
        byte_of(s1, i) == byte_of(s2, i),
{
    assert(s1.take(i) =~= s1.take(n).take(i));
    assert(s2.take(i) =~= s2.take(n).take(i));
}

/// Any byte offset with the snapping property is the one `snap` names.
pub proof fn lemma_snap_is(s: Seq<char>, b: int, r: int)
    requires
        is_boundary(s, r),
        r <= b,
        forall|b2: int| is_boundary(s, b2) && b2 <= b ==> b2 <= r,
    ensures
        snap(s, b) == r,
{
    let r2 = snap(s, b);
    assert(is_boundary(s, r2) && r2 <= b && (forall|b2: int|
        is_boundary(s, b2) && b2 <= b ==> b2 <= r2)) by {
        assert(is_boundary(s, r) && r <= b && (forall|b2: int|
            is_boundary(s, b2) && b2 <= b ==> b2 <= r));
    }
    assert(r <= r2);
    assert(r2 <= r);
}

/// Byte width of one scalar value's UTF-8 encoding.
pub fn encoded_len(c: char) -> (n: usize)
    ensures
        n as int == char_len(c),
{
    proof {
        char_is_scalar(c);
    }
    let u = c as u32;
    if u < 0x80 {
        1
    } else if u < 0x800 {
        2
    } else if u < 0x10000 {
        3
    } else {
        4
    }
}

/// The scalar values of a string slice, in order.
pub fn chars_of(s: &str) -> (r: Vec<char>)
    ensures
        r@ == s@,
{
    let n = s.unicode_len();
    let mut r: Vec<char> = Vec::new();
    let mut i: usize = 0;
    while i < n
        invariant
            i <= n,
            n == s@.len(),
            r@ == s@.take(i as int),
        decreases n - i,
    {
        let c = s.get_char(i);
        r.push(c);
        proof {
            assert(s@.take(i + 1) =~= s@.take(i as int).push(s@[i as int]));
        }
        i = i + 1;
    }
    proof {
        assert(s@.take(n as int) =~= s@);
    }
    r
}

/// Relies on `str::len`: the length of a string in bytes, which is the
/// length of its scalar values' UTF-8 encodings laid end to end; as a
/// `usize` it witnesses that the encoding fits the address space.
#[verifier::external_body]
pub(crate) fn utf8_byte_length(s: &str) -> (n: usize)
    ensures
        n as int == byte_len(s@),
{
    s.len()
}

/// Relies on `String: FromIterator<char>`: collecting scalar values
/// yields the string holding exactly those scalar values.
#[verifier::external_body]
pub(crate) fn string_from_chars(v: &Vec<char>) -> (r: String)
    ensures
        r@ == v@,
{
    v.iter().collect()
}

/// Byte offset of the boundary after the first `i` scalar values of `text`.
pub fn offset_of_index(text: &Vec<char>, i: usize) -> (b: usize)
    requires
        i <= text@.len(),
        byte_len(text@) <= usize::MAX,
    ensures
        b as int == byte_of(text@, i as int),
{
    let mut b: usize = 0;
    let mut j: usize = 0;
    proof {
        lemma_byte_of_zero(text@);
    }
    while j < i
        invariant
            j <= i <= text@.len(),
            byte_len(text@) <= usize::MAX,
            b as int == byte_of(text@, j as int),
        decreases i - j,
    {
        proof {
            lemma_byte_of_step(text@, j as int);
            lemma_byte_of_mono(text@, j + 1, text@.len() as int);
            lemma_byte_of_full(text@);
        }
        b = b + encoded_len(text[j]);
        j = j + 1;
    }
    b
}

/// The scalar-value index whose boundary sits at byte offset `b`.
pub fn index_of_offset(text: &Vec<char>, b: usize) -> (i: usize)
    requires
        is_boundary(text@, b as int),
        byte_len(text@) <= usize::MAX,
    ensures
        i as int == idx_of(text@, b as int),
        byte_of(text@, i as int) == b as int,
        i <= text@.len(),
{
    proof {
        lemma_idx_of(text@, b as int);
        lemma_byte_of_zero(text@);
    }
    let ghost target: int = idx_of(text@, b as int);
    let mut bb: usize = 0;
    let mut j: usize = 0;
    while bb < b
        invariant
            j <= target <= text@.len(),
            is_boundary(text@, b as int),
            target == idx_of(text@, b as int),
            byte_of(text@, target) == b as int,
            byte_len(text@) <= usize::MAX,
            bb as int == byte_of(text@, j as int),
            bb <= b,
        decreases b - bb,
    {
        proof {
            if j == target {
                assert(bb == b);
            }
            assert(j < target);
            lemma_byte_len_ge_len(text@);
            lemma_byte_of_step(text@, j as int);
            lemma_byte_of_mono(text@, j + 1, target);
        }
        bb = bb + encoded_len(text[j]);
        j = j + 1;
    }
    proof {
        lemma_boundary_unique(text@, j as int, target);
    }
    j
}

/// The largest scalar-value boundary of `text` that does not exceed `b`.
pub fn snap_to_boundary(text: &Vec<char>, b: usize) -> (r: usize)
    requires
        byte_len(text@) <= usize::MAX,
    ensures
        r as int == snap(text@, b as int),
        is_boundary(text@, r as int),
        r <= b,
        forall|b2: int| is_boundary(text@, b2) && b2 <= b as int ==> b2 <= r as int,
{
    let ghost s = text@;
    let mut bb: usize = 0;
    let mut j: usize = 0;
    proof {
        lemma_byte_of_zero(s);
    }
    loop
        invariant
            s == text@,
            j <= s.len(),
            byte_len(s) <= usize::MAX,
            bb as int == byte_of(s, j as int),
            bb <= b,
        ensures
            j <= s.len(),
            bb as int == byte_of(s, j as int),
            bb <= b,
            j as int == s.len() || byte_of(s, j as int + 1) > b as int,
        decreases s.len() - j,
    {
        if j == text.len() {
            break;
        }
        proof {
            lemma_byte_of_step(s, j as int);
            lemma_byte_of_mono(s, j + 1, s.len() as int);
            lemma_byte_of_full(s);
        }
        let step = encoded_len(text[j]);
        if step > b - bb {
            break;
        }
        bb = bb + step;
        j = j + 1;
    }
    proof {
        assert(is_boundary(s, bb as int));
        assert forall|b2: int| is_boundary(s, b2) && b2 <= b as int implies b2 <= bb as int by {
            let i2 = choose|i: int| 0 <= i <= s.len() && byte_of(s, i) == b2;
            if i2 > j as int {
                lemma_byte_of_mono(s, j as int + 1, i2);
                assert(false);
            } else {
                lemma_byte_of_mono(s, i2, j as int);
            }
        }
        lemma_snap_is(s, b as int, bb as int);
    }
    bb
}

/// The scalar values `text.take(from) + ins + text.skip(to)`: the text with
/// the scalar range `[from, to)` replaced by `ins`.
pub fn splice(text: &Vec<char>, from: usize, to: usize, ins: &Vec<char>) -> (r: Vec<char>)
    requires
        from <= to <= text@.len(),
    ensures
        r@ == text@.take(from as int) + ins@ + text@.skip(to as int),
{
    let mut r: Vec<char> = Vec::new();
    let mut j: usize = 0;
    while j < from
        invariant
            j <= from <= text@.len(),
            r@ == text@.take(j as int),
        decreases from - j,
    {
        r.push(text[j]);
        proof {
            assert(text@.take(j + 1) =~= text@.take(j as int).push(text@[j as int]));
        }
        j = j + 1;
    }
    let mut k: usize = 0;
    while k < ins.len()
        invariant
            k <= ins@.len(),
            from <= to <= text@.len(),
            r@ == text@.take(from as int) + ins@.take(k as int),
        decreases ins@.len() - k,
    {
        r.push(ins[k]);
        proof {
            assert(ins@.take(k + 1) =~= ins@.take(k as int).push(ins@[k as int]));
            assert(text@.take(from as int) + ins@.take(k + 1) =~= (text@.take(from as int)
                + ins@.take(k as int)).push(ins@[k as int]));
        }
        k = k + 1;
    }
    proof {
        assert(ins@.take(ins@.len() as int) =~= ins@);
    }
    let mut m: usize = to;
    while m < text.len()
        invariant
            to <= m <= text@.len(),
            r@ == text@.take(from as int) + ins@ + text@.skip(to as int).take(m - to),
        decreases text@.len() - m,
    {
        r.push(text[m]);
        proof {
            assert(text@.skip(to as int).take(m + 1 - to) =~= text@.skip(to as int).take(
                m - to,
            ).push(text@[m as int]));
            assert(text@.take(from as int) + ins@ + text@.skip(to as int).take(m + 1 - to) =~= (
            text@.take(from as int) + ins@ + text@.skip(to as int).take(m - to)).push(
                text@[m as int],
            ));
        }
        m = m + 1;
    }
    proof {
        assert(text@.skip(to as int).take(text@.len() - to) =~= text@.skip(to as int));
    }
    r
}

} // verus!
