//! Text helpers: UTF-8 decoding of byte ranges cut at ASCII delimiters, and
//! decimal numerals.

use vstd::prelude::*;
use vstd::utf8::*;

verus! {

/// True when `b` is an ASCII byte, which UTF-8 never uses inside a multi-byte scalar.
pub open spec fn is_ascii_byte(b: u8) -> bool {
    b < 0x80
}

/// Cutting valid UTF-8 around an ASCII byte leaves valid UTF-8 on both sides.
pub proof fn lemma_cut_at_ascii(b: Seq<u8>, i: int)
    requires
        valid_utf8(b),
        0 <= i < b.len(),
        is_ascii_byte(b[i]),
    ensures
        valid_utf8(b.subrange(0, i)),
        valid_utf8(b.subrange(i + 1, b.len() as int)),
    decreases b.len(),
{
    reveal_with_fuel(valid_utf8, 2);
    let n = length_of_first_scalar(b);
    let tail = pop_first_scalar(b);
    if i == 0 {
        assert(b.subrange(0, 0) =~= Seq::<u8>::empty());
        assert(b.subrange(1, b.len() as int) =~= tail);
    } else {
        assert(i >= n);
        lemma_cut_at_ascii(tail, i - n);
        assert(b.subrange(i + 1, b.len() as int) =~= tail.subrange(i - n + 1, tail.len() as int));
        let pre = b.subrange(0, i);
        assert(pre[0] == b[0]);
        assert(n >= 2 ==> pre[1] == b[1]);
        assert(n >= 3 ==> pre[2] == b[2]);
        assert(n >= 4 ==> pre[3] == b[3]);
        assert(pop_first_scalar(pre) =~= tail.subrange(0, i - n));
    }
}

/// A piece of valid UTF-8 that starts at the beginning or after an ASCII byte,
/// and ends at the end or before an ASCII byte, is valid UTF-8.
pub proof fn lemma_ascii_delimited(b: Seq<u8>, start: int, end: int)
    requires
        valid_utf8(b),
        0 <= start <= end <= b.len(),
        start == 0 || is_ascii_byte(b[start - 1]),
        end == b.len() || is_ascii_byte(b[end]),
    ensures
        valid_utf8(b.subrange(start, end)),
{
    let pre = if end == b.len() {
        assert(b.subrange(0, end) =~= b);
        b
    } else {
        lemma_cut_at_ascii(b, end);
        b.subrange(0, end)
    };
    assert(valid_utf8(pre));
    if start == 0 {
        assert(pre =~= b.subrange(start, end));
    } else {
        lemma_cut_at_ascii(pre, start - 1);
        assert(pre.subrange(start, pre.len() as int) =~= b.subrange(start, end));
    }
}

/// Relies on std::str::from_utf8: it accepts exactly the well-formed UTF-8
/// byte strings, and the text it yields is their decoding.
#[verifier::external_body]
pub(crate) fn utf8_to_string(bytes: &[u8]) -> (r: Option<String>)
    ensures
        r.is_some() == valid_utf8(bytes@),
        r matches Some(s) ==> s@ == decode_utf8(bytes@),
{
    match std::str::from_utf8(bytes) {
        Ok(s) => Some(s.to_string()),
        Err(_) => None,
    }
}

} // verus!
