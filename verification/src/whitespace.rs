use vstd::prelude::*;

use crate::text::{SPACE, TAB};

verus! {

/// The two bytes that count as horizontal whitespace: space and tab.
pub open spec fn is_ws(b: u8) -> bool {
    b == SPACE || b == TAB
}

pub(crate) fn is_ws_byte(b: u8) -> (r: bool)
    ensures
        r == is_ws(b),
{
    b == SPACE || b == TAB
}

/// The number of whitespace bytes `s` starts with.
pub open spec fn leading_ws(s: Seq<u8>) -> nat
    decreases s.len(),
{
    if s.len() > 0 && is_ws(s[0]) {
        1 + leading_ws(s.drop_first())
    } else {
        0
    }
}

/// The number of whitespace bytes `s` ends with.
pub open spec fn trailing_ws(s: Seq<u8>) -> nat
    decreases s.len(),
{
    if s.len() > 0 && is_ws(s.last()) {
        1 + trailing_ws(s.drop_last())
    } else {
        0
    }
}

pub open spec fn trim_start_spec(s: Seq<u8>) -> Seq<u8> {
    s.skip(leading_ws(s) as int)
}

pub open spec fn trim_end_spec(s: Seq<u8>) -> Seq<u8> {
    s.take(s.len() - trailing_ws(s))
}

pub open spec fn trim_spec(s: Seq<u8>) -> Seq<u8> {
    trim_end_spec(trim_start_spec(s))
}

/// `leading_ws` is the length of the whitespace run at the start.
pub proof fn lemma_leading_ws(s: Seq<u8>)
    ensures
        leading_ws(s) <= s.len(),
        forall|i: int| 0 <= i < leading_ws(s) ==> is_ws(#[trigger] s[i]),
        leading_ws(s) < s.len() ==> !is_ws(s[leading_ws(s) as int]),
    decreases s.len(),
{
    if s.len() > 0 && is_ws(s[0]) {
        lemma_leading_ws(s.drop_first());
        assert forall|i: int| 0 <= i < leading_ws(s) implies is_ws(#[trigger] s[i]) by {
            if i > 0 {
                assert(s[i] == s.drop_first()[i - 1]);
            }
        }
    }
}

/// A run of `n` whitespace bytes that is not followed by another is the leading run.
pub proof fn lemma_leading_ws_is(s: Seq<u8>, n: int)
    requires
        0 <= n <= s.len(),
        forall|i: int| 0 <= i < n ==> is_ws(#[trigger] s[i]),
        n < s.len() ==> !is_ws(s[n]),
    ensures
        leading_ws(s) == n,
    decreases n,
{
    if n > 0 {
        assert forall|i: int| 0 <= i < n - 1 implies is_ws(#[trigger] s.drop_first()[i]) by {
            assert(s.drop_first()[i] == s[i + 1]);
        }
        lemma_leading_ws_is(s.drop_first(), n - 1);
    }
}

/// `trailing_ws` is the length of the whitespace run at the end.
pub proof fn lemma_trailing_ws(s: Seq<u8>)
    ensures
        trailing_ws(s) <= s.len(),
        forall|i: int| s.len() - trailing_ws(s) <= i < s.len() ==> is_ws(#[trigger] s[i]),
        trailing_ws(s) < s.len() ==> !is_ws(s[s.len() - trailing_ws(s) - 1]),
    decreases s.len(),
{
    if s.len() > 0 && is_ws(s.last()) {
        lemma_trailing_ws(s.drop_last());
        assert forall|i: int| s.len() - trailing_ws(s) <= i < s.len() implies is_ws(#[trigger] s[i]) by {
            if i < s.len() - 1 {
                assert(s[i] == s.drop_last()[i]);
            }
        }
    }
}

pub proof fn lemma_trailing_ws_is(s: Seq<u8>, n: int)
    requires
        0 <= n <= s.len(),
        forall|i: int| s.len() - n <= i < s.len() ==> is_ws(#[trigger] s[i]),
        n < s.len() ==> !is_ws(s[s.len() - n - 1]),
    ensures
        trailing_ws(s) == n,
    decreases n,
{
    if n > 0 {
        let t = s.drop_last();
        assert forall|i: int| t.len() - (n - 1) <= i < t.len() implies is_ws(#[trigger] t[i]) by {
            assert(t[i] == s[i]);
        }
        if n - 1 < t.len() {
            assert(t[t.len() - (n - 1) - 1] == s[s.len() - n - 1]);
        }
        lemma_trailing_ws_is(t, n - 1);
    }
}

/// The width of the whitespace that `text` starts with.
pub(crate) fn indent(text: &[u8]) -> (n: usize)
    ensures
        n == leading_ws(text@),
        n <= text.len(),
{
    let mut n: usize = 0;
    while n < text.len() && (text[n] == SPACE || text[n] == TAB)
        invariant
            n <= text.len(),
            forall|i: int| 0 <= i < n ==> is_ws(#[trigger] text@[i]),
        decreases text.len() - n,
    {
        n = n + 1;
    }
    proof {
        lemma_leading_ws_is(text@, n as int);
    }
    n
}

/// The width of the whitespace that `text` ends with.
pub(crate) fn trailing(text: &[u8]) -> (n: usize)
    ensures
        n == trailing_ws(text@),
        n <= text.len(),
{
    let mut n: usize = 0;
    while n < text.len() && (text[text.len() - 1 - n] == SPACE || text[text.len() - 1 - n] == TAB)
        invariant
            n <= text.len(),
            forall|i: int| text.len() - n <= i < text.len() ==> is_ws(#[trigger] text@[i]),
        decreases text.len() - n,
    {
        n = n + 1;
    }
    proof {
        lemma_trailing_ws_is(text@, n as int);
    }
    n
}

pub(crate) fn trim_start(text: &[u8]) -> (r: &[u8])
    ensures
        r@ == trim_start_spec(text@),
{
    let n = indent(text);
    &text[n..text.len()]
}

pub(crate) fn trim_end(text: &[u8]) -> (r: &[u8])
    ensures
        r@ == trim_end_spec(text@),
{
    let n = trailing(text);
    &text[0..text.len() - n]
}

pub(crate) fn trim(text: &[u8]) -> (r: &[u8])
    ensures
        r@ == trim_spec(text@),
{
    trim_end(trim_start(text))
}

/// `text` without at most `width` bytes of its leading whitespace.
pub(crate) fn dedent(text: &[u8], width: usize) -> (r: &[u8])
    ensures
        r@ == text@.skip(
            if width < leading_ws(text@) {
                width as int
            } else {
                leading_ws(text@) as int
            },
        ),
{
    let n = indent(text);
    let cut = if width < n {
        width
    } else {
        n
    };
    &text[cut..text.len()]
}

/// Every byte of `w` is a space or a tab.
pub open spec fn spaces_and_tabs(w: Seq<u8>) -> bool {
    forall|i: int| 0 <= i < w.len() ==> #[trigger] w[i] == SPACE || w[i] == TAB
}

/// Tabs indent as spaces do: a run of spaces and tabs before a line counts
/// whole in its indentation, and trimming the line leaves the same text
/// whichever of them it was indented with, so a line indented with tabs
/// reads as the same line indented with spaces. A run after a line is
/// trailing whitespace likewise.
pub proof fn law_tabs_indent_as_spaces(w: Seq<u8>, line: Seq<u8>)
    requires
        spaces_and_tabs(w),
    ensures
        leading_ws(w + line) == w.len() + leading_ws(line),
        trim_start_spec(w + line) == trim_start_spec(line),
        trim_spec(w + line) == trim_spec(line),
        trailing_ws(line + w) == w.len() + trailing_ws(line),
        trim_end_spec(line + w) == trim_end_spec(line),
{
    let a = w + line;
    lemma_leading_ws(line);
    let n: int = (w.len() + leading_ws(line)) as int;
    assert forall|i: int| 0 <= i < n implies is_ws(#[trigger] a[i]) by {
        if i >= w.len() {
            assert(a[i] == line[i - w.len()]);
        }
    }
    if n < a.len() {
        assert(a[n] == line[leading_ws(line) as int]);
    }
    lemma_leading_ws_is(a, n);
    assert(a.skip(n) =~= line.skip(leading_ws(line) as int));
    let b = line + w;
    lemma_trailing_ws(line);
    let m: int = (w.len() + trailing_ws(line)) as int;
    assert forall|i: int| b.len() - m <= i < b.len() implies is_ws(#[trigger] b[i]) by {
        if i < line.len() {
            assert(b[i] == line[i]);
        }
    }
    if m < b.len() {
        assert(b[b.len() - m - 1] == line[line.len() - trailing_ws(line) - 1]);
    }
    lemma_trailing_ws_is(b, m);
    assert(b.take(b.len() - m) =~= line.take(line.len() - trailing_ws(line)));
}

} // verus!
