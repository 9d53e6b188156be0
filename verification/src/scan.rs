//! Byte classes of the language and runs of bytes of one class.

use vstd::prelude::*;

verus! {

/// The classes of bytes that tokens and the gaps between them are made of.
#[derive(Clone, Copy, Debug, PartialEq, Eq, Structural)]
pub enum Class {
    /// Space, tab, line feed, carriage return.
    Space,
    /// `0` to `9`.
    Digit,
    /// ASCII letters, digits and `_`.
    Name,
}

/// A blank byte: space, tab, line feed or carriage return.
pub open spec fn is_space(b: u8) -> bool {
    b == 0x20 || b == 0x09 || b == 0x0a || b == 0x0d
}

/// A decimal digit.
pub open spec fn is_digit(b: u8) -> bool {
    0x30 <= b <= 0x39
}

/// A sign, `+` or `-`.
pub open spec fn is_sign(b: u8) -> bool {
    b == 0x2b || b == 0x2d
}

/// A byte that may begin a name: an ASCII letter or `_`.
pub open spec fn is_name_start(b: u8) -> bool {
    (0x41 <= b <= 0x5a) || (0x61 <= b <= 0x7a) || b == 0x5f
}

/// A byte that may continue a name: an ASCII letter, a digit or `_`.
pub open spec fn is_name_part(b: u8) -> bool {
    is_name_start(b) || is_digit(b)
}

/// Tests whether a byte may begin a name.
pub fn begins_name(b: u8) -> (r: bool)
    ensures
        r == is_name_start(b),
{
    (0x41 <= b && b <= 0x5a) || (0x61 <= b && b <= 0x7a) || b == 0x5f
}

/// Tests whether a byte is a sign.
pub fn signs(b: u8) -> (r: bool)
    ensures
        r == is_sign(b),
{
    b == 0x2b || b == 0x2d
}

impl Class {
    /// Whether `b` belongs to the class.
    pub open spec fn has(self, b: u8) -> bool {
        match self {
            Class::Space => is_space(b),
            Class::Digit => is_digit(b),
            Class::Name => is_name_part(b),
        }
    }

    /// Tests one byte against the class.
    pub fn holds(self, b: u8) -> (r: bool)
        ensures
            r == self.has(b),
    {
        match self {
            Class::Space => b == 0x20 || b == 0x09 || b == 0x0a || b == 0x0d,
            Class::Digit => 0x30 <= b && b <= 0x39,
            Class::Name => (0x41 <= b && b <= 0x5a) || (0x61 <= b && b <= 0x7a) || b == 0x5f || (
            0x30 <= b && b <= 0x39),
        }
    }
}

/// Where the longest run of bytes of `class` that begins at `from` ends:
/// the first index at or after `from` whose byte is not of the class, or
/// the length of `s`. Outside `0..=s.len()` it is `from` itself.
pub open spec fn run_end(s: Seq<u8>, class: Class, from: int) -> int
    decreases s.len() - from,
{
    if 0 <= from < s.len() && class.has(s[from]) {
        run_end(s, class, from + 1)
    } else {
        from
    }
}

/// A run ends inside the text, at or after its start; every byte of it is
/// of the class, and the byte that follows it, if there is one, is not.
pub proof fn run_end_is_maximal(s: Seq<u8>, class: Class, from: int)
    requires
        0 <= from <= s.len(),
    ensures
        from <= run_end(s, class, from) <= s.len(),
        forall|k: int| from <= k < run_end(s, class, from) ==> class.has(#[trigger] s[k]),
        run_end(s, class, from) < s.len() ==> !class.has(s[run_end(s, class, from)]),
    decreases s.len() - from,
{
    if from < s.len() && class.has(s[from]) {
        run_end_is_maximal(s, class, from + 1);
    }
}

/// The end of a run is determined by those two facts: an index `to` up to
/// which all bytes are of the class, and at which the class stops, is the
/// end of the run.
pub proof fn run_end_is_unique(s: Seq<u8>, class: Class, from: int, to: int)
    requires
        0 <= from <= to <= s.len(),
        forall|k: int| from <= k < to ==> class.has(#[trigger] s[k]),
        to < s.len() ==> !class.has(s[to]),
    ensures
        run_end(s, class, from) == to,
    decreases to - from,
{
    if from < to {
        assert(class.has(s[from]));
        run_end_is_unique(s, class, from + 1, to);
    }
}

/// Finds the end of the run of `class` that begins at `from`.
pub fn scan(bytes: &[u8], class: Class, from: usize) -> (to: usize)
    ensures
        to == run_end(bytes@, class, from as int),
        from <= to,
        from <= bytes@.len() ==> to <= bytes@.len(),
{
    let mut to: usize = from;
    while to < bytes.len() && class.holds(bytes[to])
        invariant
            from <= to,
            from <= bytes@.len() ==> to <= bytes@.len(),
            run_end(bytes@, class, to as int) == run_end(bytes@, class, from as int),
        decreases bytes@.len() - to,
    {
        to = to + 1;
    }
    to
}

} // verus!
