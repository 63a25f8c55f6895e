use vstd::prelude::*;

verus! {

/// A node's position in the source text handed to [`parse`](crate::parse).
///
/// `start` and `end` are a half-open range of UTF-8 byte offsets. A line
/// terminator belongs to no span: a span ends at the last byte of its last
/// line. So text inserted "directly after" a span begins at line
/// `end_line + 1`, whatever the file's line endings are.
#[derive(Debug, Clone, Copy, PartialEq, Eq, Structural)]
pub struct Span {
    pub start: usize,
    pub end: usize,
    /// 0-based line holding `start`.
    pub start_line: usize,
    /// 0-based line holding `end - 1`.
    pub end_line: usize,
}

/// The number of `\n` bytes in `s`: the 0-based line an offset just past `s` is on.
pub open spec fn count_newlines(s: Seq<u8>) -> nat
    decreases s.len(),
{
    if s.len() == 0 {
        0
    } else {
        count_newlines(s.drop_last()) + if s.last() == 10u8 {
            1nat
        } else {
            0nat
        }
    }
}

/// `end` is where a line's content stops: the end of the source, a `\n`
/// that no `\r` comes before, or the `\r` of a `\r\n` pair. So a line's
/// content never takes in any part of its terminator.
pub open spec fn ends_line(src: Seq<u8>, end: int) -> bool {
    ||| end == src.len()
    ||| (0 <= end < src.len() && src[end] == 10u8 && (end == 0 || src[end - 1] != 13u8))
    ||| (0 <= end && end + 1 < src.len() && src[end] == 13u8 && src[end + 1] == 10u8)
}

impl Span {
    /// The span is a non-empty range of `src` that stops at the end of a
    /// line's content, and its line numbers count the `\n` bytes before its
    /// two ends.
    pub open spec fn describes(self, src: Seq<u8>) -> bool {
        &&& self.start < self.end <= src.len()
        &&& src[self.end - 1] != 10u8
        &&& ends_line(src, self.end as int)
        &&& self.start_line == count_newlines(src.take(self.start as int))
        &&& self.end_line == count_newlines(src.take(self.end as int))
    }

    /// `other` lies within this span.
    pub open spec fn covers(self, other: Span) -> bool {
        self.start <= other.start && other.end <= self.end
    }

    pub open spec fn extended(self, closing: Span) -> Span {
        Span { start: self.start, end: closing.end, start_line: self.start_line, end_line: closing.end_line }
    }

    pub(crate) fn line(start: usize, end: usize, line: usize) -> (span: Span)
        ensures
            span == (Span { start, end, start_line: line, end_line: line }),
    {
        Span { start, end, start_line: line, end_line: line }
    }

    /// An opening line joined to the closing line that ends the same node.
    pub(crate) fn extend(self, closing: Span) -> (span: Span)
        ensures
            span == self.extended(closing),
    {
        Span { start: self.start, end: closing.end, start_line: self.start_line, end_line: closing.end_line }
    }
}

/// Joining a span to one that ends after it starts, both describing the
/// source, gives a span that describes it.
pub proof fn lemma_extended_describes(a: Span, b: Span, src: Seq<u8>)
    requires
        a.describes(src),
        b.describes(src),
        a.start < b.end,
    ensures
        a.extended(b).describes(src),
        a.extended(b).covers(a) <== a.end <= b.end,
        a.extended(b).covers(b) <== a.start <= b.start,
{
    lemma_count_newlines_mono(src, a.start as int, b.end as int);
}

/// Counting newlines further into a sequence never counts fewer.
pub proof fn lemma_count_newlines_mono(s: Seq<u8>, a: int, b: int)
    requires
        0 <= a <= b <= s.len(),
    ensures
        count_newlines(s.take(a)) <= count_newlines(s.take(b)),
    decreases b - a,
{
    if a < b {
        lemma_count_newlines_mono(s, a, b - 1);
        assert(s.take(b).drop_last() =~= s.take(b - 1));
    }
}

/// Over a stretch without `\n` the count does not change.
pub proof fn lemma_count_newlines_flat(s: Seq<u8>, a: int, b: int)
    requires
        0 <= a <= b <= s.len(),
        forall|k: int| a <= k < b ==> s[k] != 10u8,
    ensures
        count_newlines(s.take(a)) == count_newlines(s.take(b)),
    decreases b - a,
{
    if a < b {
        lemma_count_newlines_flat(s, a, b - 1);
        assert(s.take(b).drop_last() =~= s.take(b - 1));
    }
}

/// A `\n` at `k` adds one to the count past it.
pub proof fn lemma_count_newlines_step(s: Seq<u8>, k: int)
    requires
        0 <= k < s.len(),
        s[k] == 10u8,
    ensures
        count_newlines(s.take(k + 1)) == count_newlines(s.take(k)) + 1,
{
    assert(s.take(k + 1).drop_last() =~= s.take(k));
}

} // verus!
