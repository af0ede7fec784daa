//! Splitting a byte buffer into lines.
//!
//! A line ends at a line feed or at the end of the buffer; a `\r\n`
//! sequence counts as one terminator and is stripped with it.  A final
//! line without a terminator is still a line; nothing follows a final
//! line feed.

use vstd::prelude::*;
use vstd::utf8::decode_utf8;
use vstd::utf8::valid_utf8;

verus! {

/// The index of the first line feed in `s`, or `s.len()` where there is none.
pub open spec fn line_break(s: Seq<u8>) -> int
    decreases s.len(),
{
    if s.len() == 0 {
        0
    } else if s[0] == 0x0au8 {
        0
    } else {
        1 + line_break(s.drop_first())
    }
}

/// `line_break` points at the first line feed: nothing before it is one,
/// and it is one itself unless the buffer has none at all.
pub proof fn lemma_line_break(s: Seq<u8>)
    ensures
        0 <= line_break(s) <= s.len(),
        forall|i: int| 0 <= i < line_break(s) ==> s[i] != 0x0au8,
        line_break(s) < s.len() ==> s[line_break(s)] == 0x0au8,
    decreases s.len(),
{
    if s.len() > 0 && s[0] != 0x0au8 {
        lemma_line_break(s.drop_first());
        assert forall|i: int| 0 <= i < line_break(s) implies s[i] != 0x0au8 by {
            if i > 0 {
                assert(s.drop_first()[i - 1] == s[i]);
            }
        }
        if line_break(s) < s.len() {
            assert(s.drop_first()[line_break(s) - 1] == s[line_break(s)]);
        }
    }
}

/// A position before which no line feed stands, and which holds one or is
/// the end, is exactly `line_break`.
pub proof fn lemma_line_break_at(s: Seq<u8>, m: int)
    requires
        0 <= m <= s.len(),
        forall|i: int| 0 <= i < m ==> s[i] != 0x0au8,
        m < s.len() ==> s[m] == 0x0au8,
    ensures
        line_break(s) == m,
{
    lemma_line_break(s);
    let b = line_break(s);
    if b < m {
        assert(s[b] != 0x0au8);
    }
    if m < b {
        assert(s[m] != 0x0au8);
    }
}

/// A terminated line's content: the carriage return of a `\r\n` terminator
/// is stripped along with the line feed.
pub open spec fn strip_cr(line: Seq<u8>) -> Seq<u8> {
    if line.len() > 0 && line.last() == 0x0du8 {
        line.drop_last()
    } else {
        line
    }
}

/// The lines of a byte buffer, in reading order, terminators stripped.
pub open spec fn spec_lines(bytes: Seq<u8>) -> Seq<Seq<u8>>
    decreases bytes.len(),
    via spec_lines_decreases
{
    if bytes.len() == 0 {
        Seq::empty()
    } else {
        let k = line_break(bytes);
        if k == bytes.len() {
            seq![bytes]
        } else {
            seq![strip_cr(bytes.take(k))] + spec_lines(bytes.skip(k + 1))
        }
    }
}

#[via_fn]
proof fn spec_lines_decreases(bytes: Seq<u8>) {
    lemma_line_break(bytes);
}

/// The index of the first line feed at or after `from`, or the buffer's
/// length where none follows.
pub(crate) fn find_line_break(bytes: &[u8], from: usize) -> (r: usize)
    requires
        from <= bytes@.len(),
    ensures
        from <= r <= bytes@.len(),
        forall|k: int| from <= k < r ==> bytes@[k] != 0x0au8,
        r < bytes@.len() ==> bytes@[r as int] == 0x0au8,
{
    let n = bytes.len();
    let mut i = from;
    while i < n
        invariant
            from <= i <= n == bytes@.len(),
            forall|k: int| from <= k < i ==> bytes@[k] != 0x0au8,
        decreases n - i,
    {
        if bytes[i] == 0x0au8 {
            return i;
        }
        i += 1;
    }
    n
}

/// Relies on `core::str::from_utf8`: returns the decoded text exactly when
/// the bytes are valid UTF-8, and nothing otherwise.
#[verifier::external_body]
pub(crate) fn bytes_to_str(v: &[u8]) -> (r: Option<&str>)
    ensures
        r is Some <==> valid_utf8(v@),
        r is Some ==> r->Some_0@ == decode_utf8(v@),
{
    core::str::from_utf8(v).ok()
}

/// A UTF-8 scalar takes at least one byte: decoded text is never longer
/// than its encoding.
pub proof fn lemma_decode_le_bytes(bytes: Seq<u8>)
    requires
        valid_utf8(bytes),
    ensures
        decode_utf8(bytes).len() <= bytes.len(),
    decreases bytes.len(),
{
    if bytes.len() != 0 {
        lemma_decode_le_bytes(vstd::utf8::pop_first_scalar(bytes));
    }
}

} // verus!
