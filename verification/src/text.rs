//! Pieces of a text, cut at byte offsets, and the comparison of two texts.

use vstd::prelude::*;
use vstd::string::StringSliceAdditionalSpecFns;
use vstd::utf8::*;

verus! {

/// In well-formed UTF-8 a character begins right after every ASCII byte.
pub proof fn boundary_after_ascii(bytes: Seq<u8>, at: int)
    requires
        valid_utf8(bytes),
        0 <= at < bytes.len(),
        bytes[at] < 0x80,
    ensures
        is_char_boundary(bytes, at + 1),
    decreases bytes.len(),
{
    let width = length_of_first_scalar(bytes);
    let rest = pop_first_scalar(bytes);
    if at == 0 {
        assert(width == 1);
        assert(is_char_boundary(rest, 0));
    } else if at < width {
        assert(is_continuation_byte(bytes[at]));
    } else {
        assert(rest[at - width] == bytes[at]);
        boundary_after_ascii(rest, at - width);
    }
}

/// The piece of `code` between the byte offsets `from` and `to`. A piece
/// that is not empty begins and ends with an ASCII byte; the empty piece is
/// taken at the end of `code`.
pub(crate) fn slice<'a>(code: &'a str, from: usize, to: usize) -> (piece: &'a str)
    requires
        from <= to <= code.spec_bytes().len(),
        from < to ==> code.spec_bytes()[from as int] < 0x80 && code.spec_bytes()[to - 1] < 0x80,
        from == to ==> to == code.spec_bytes().len(),
    ensures
        piece.spec_bytes() == code.spec_bytes().subrange(from as int, to as int),
{
    broadcast use encode_utf8_valid_utf8;

    let ghost bytes = code.spec_bytes();
    proof {
        if from < to {
            boundary_after_ascii(bytes, to - 1);
        } else {
            is_char_boundary_start_end_of_seq(bytes);
        }
    }
    let (head, _) = code.split_at(to);
    proof {
        let front = head.spec_bytes();
        if from < to {
            assert(front[from as int] == bytes[from as int]);
            is_char_boundary_iff_not_is_continuation_byte(front, from as int);
        } else {
            is_char_boundary_start_end_of_seq(front);
        }
    }
    let (_, piece) = head.split_at(from);
    piece
}

/// Whether two texts hold the same bytes.
pub fn same_text(a: &str, b: &str) -> (r: bool)
    ensures
        r == (a.spec_bytes() == b.spec_bytes()),
{
    let x = a.as_bytes();
    let y = b.as_bytes();
    if x.len() != y.len() {
        return false;
    }
    let mut i: usize = 0;
    while i < x.len()
        invariant
            i <= x@.len(),
            x@.len() == y@.len(),
            x@ == a.spec_bytes(),
            y@ == b.spec_bytes(),
            forall|k: int| 0 <= k < i ==> x@[k] == y@[k],
        decreases x@.len() - i,
    {
        if x[i] != y[i] {
            assert(x@[i as int] != y@[i as int]);
            return false;
        }
        i = i + 1;
    }
    assert(x@ =~= y@);
    true
}

} // verus!
