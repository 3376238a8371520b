use vstd::prelude::*;

use crate::error::Error;
use crate::lexer::{is_ws, Span, Token, TokenType, Tokens};
use crate::source::{lemma_line_starts, Source};

verus! {

/// One source line of a rendered span: the line's index, the byte range of its
/// text without trailing whitespace, and where the underline starts (a column
/// counted in bytes from the line's start) and how many carets it has.
#[derive(Clone, Copy, PartialEq, Eq, Debug, Structural)]
pub struct ExcerptLine {
    pub line: usize,
    pub start: usize,
    pub end: usize,
    pub column: usize,
    pub width: usize,
}

/// How a character of a rendered line is coloured.
#[derive(Clone, Copy, PartialEq, Eq, Debug, Structural)]
pub enum Highlight {
    Plain,
    Number,
    Symbol,
    Error,
}

/// A stretch `[start, end)` of bytes that share one colour.
#[derive(Clone, Copy, PartialEq, Eq, Debug, Structural)]
pub struct Run {
    pub start: usize,
    pub end: usize,
    pub highlight: Highlight,
}

/// `runs` cover `[start, end)` in order, each non-empty and of one colour, and
/// no two neighbours share a colour: the maximal single-colour stretches.
pub open spec fn colour_runs(ts: Seq<Token>, span: Span, start: int, end: int, runs: Seq<Run>) -> bool {
    &&& (runs.len() == 0 <==> start >= end)
    &&& runs.len() > 0 ==> runs[0].start == start && runs.last().end == end
    &&& forall|k: int| 0 <= k < runs.len() ==> (#[trigger] runs[k]).start < runs[k].end
    &&& forall|j: int, k: int|
        0 <= j && k == j + 1 && k < runs.len() ==> (#[trigger] runs[j]).end == (#[trigger] runs[k]).start
            && runs[j].highlight != runs[k].highlight
    &&& forall|k: int, p: int|
        0 <= k < runs.len() && runs[k].start <= p < runs[k].end ==> #[trigger] highlight(ts, span, p)
            == (#[trigger] runs[k]).highlight
}

/// `[s, e)` without its trailing whitespace.
pub open spec fn trim_end(b: Seq<u8>, s: int, e: int) -> int
    decreases e - s,
{
    if s < e && is_ws(b[e - 1]) {
        trim_end(b, s, e - 1)
    } else {
        e
    }
}

/// `n`, but at least one.
pub open spec fn max1(n: int) -> int {
    if n >= 1 {
        n
    } else {
        1
    }
}

/// The excerpt of line `k` for `span`, where the span's first line is `first`
/// and its last is `last`: the first line is underlined from the span's start,
/// the last up to its end, and lines between in full; at least one caret.
pub open spec fn excerpt(src: &Source, span: Span, first: int, last: int, k: int) -> ExcerptLine {
    let start = src.lines@[k] as int;
    let end = trim_end(src.bytes(), start, src.line_end_spec(k));
    let column = if k == first {
        span.start - start
    } else {
        0
    };
    let stop = if k == last {
        span.end - start
    } else {
        end - start
    };
    ExcerptLine {
        line: k as usize,
        start: start as usize,
        end: end as usize,
        column: column as usize,
        width: max1(stop - column) as usize,
    }
}

/// The first token whose span holds byte `pos`.
pub open spec fn covering(ts: Seq<Token>, pos: int) -> Option<TokenType>
    decreases ts.len(),
{
    if ts.len() == 0 {
        None
    } else if ts[0].span.start <= pos < ts[0].span.end {
        Some(ts[0].ttype)
    } else {
        covering(ts.drop_first(), pos)
    }
}

/// The colour of byte `pos`: the error's span first, then the token there.
pub open spec fn highlight(ts: Seq<Token>, span: Span, pos: int) -> Highlight {
    if span.start <= pos < span.end {
        Highlight::Error
    } else {
        match covering(ts, pos) {
            Some(TokenType::Number) => Highlight::Number,
            Some(TokenType::EOF) => Highlight::Plain,
            Some(_) => Highlight::Symbol,
            None => Highlight::Plain,
        }
    }
}

pub proof fn lemma_trim_end(b: Seq<u8>, s: int, e: int)
    requires
        s <= e,
    ensures
        s <= trim_end(b, s, e) <= e,
    decreases e - s,
{
    if s < e && is_ws(b[e - 1]) {
        lemma_trim_end(b, s, e - 1);
    }
}

fn trimmed_end(b: &[u8], s: usize, e: usize) -> (r: usize)
    requires
        s <= e <= b@.len(),
    ensures
        r == trim_end(b@, s as int, e as int),
{
    let mut j = e;
    while j > s && (b[j - 1] == 32u8 || b[j - 1] == 9u8 || b[j - 1] == 10u8 || b[j - 1] == 13u8)
        invariant
            s <= j <= e,
            e <= b@.len(),
            trim_end(b@, s as int, e as int) == trim_end(b@, s as int, j as int),
        decreases j,
    {
        j -= 1;
    }
    j
}

impl Span {
    /// The excerpt lines that render this span: one for each source line from
    /// the one holding `start` to the one holding `end`.
    pub fn print(&self, tokens: &Tokens) -> (r: Vec<ExcerptLine>)
        requires
            tokens.source.wf(),
            self.start <= self.end <= tokens.source.bytes().len(),
        ensures
            r@.len() >= 1,
            r@.len() == r@.last().line - r@[0].line + 1,
            tokens.source.line_holds(r@[0].line as int, self.start as int),
            tokens.source.line_holds(r@.last().line as int, self.end as int),
            forall|k: int|
                0 <= k < r@.len() ==> #[trigger] r@[k] == excerpt(
                    tokens.source,
                    *self,
                    r@[0].line as int,
                    r@.last().line as int,
                    r@[0].line + k,
                ),
            r@.len() == 1 ==> {
                &&& r@[0].width == max1(self.end - self.start)
                &&& r@[0].column == self.start - tokens.source.lines@[r@[0].line as int]
            },
    {
        let src = tokens.source;
        let b = src.text.as_str().as_bytes();
        proof {
            lemma_line_starts(src.bytes());
        }
        let first = src.line_of(self.start);
        let last = src.line_of(self.end);
        assert(first <= last) by {
            if first > last {
                assert(src.lines@[last as int + 1] <= src.lines@[first as int]);
            }
        }
        let mut out: Vec<ExcerptLine> = Vec::new();
        let n = src.lines.len();
        let mut k = first;
        while k <= last
            invariant
                n == src.lines@.len(),
                src.wf(),
                b@ == src.bytes(),
                first <= k <= last + 1,
                last < src.lines@.len(),
                self.start <= self.end <= src.bytes().len(),
                src.line_holds(first as int, self.start as int),
                src.line_holds(last as int, self.end as int),
                out@.len() == k - first,
                forall|j: int| 0 <= j < out@.len() ==> #[trigger] out@[j] == excerpt(
                    src, *self, first as int, last as int, first + j),
                forall|j: int, m: int|
                    0 <= j < m < src.lines@.len() ==> src.lines@[j] < src.lines@[m],
                forall|j: int| 0 <= j < src.lines@.len() ==> #[trigger] src.lines@[j] <= src.bytes().len(),
            decreases last + 1 - k,
        {
            let start = src.lines[k];
            let line_end = src.line_end(k);
            proof {
                if k + 1 < src.lines@.len() {
                    assert(src.lines@[k as int] < src.lines@[k + 1]);
                }
            }
            let end = trimmed_end(b, start, line_end);
            proof {
                lemma_trim_end(b@, start as int, line_end as int);
            }
            let column = if k == first {
                self.start - start
            } else {
                0
            };
            let stop = if k == last {
                proof {
                    if k > first {
                        assert(src.lines@[first as int] < src.lines@[k as int]);
                    }
                }
                self.end - start
            } else {
                end - start
            };
            let width = if stop > column {
                stop - column
            } else {
                1
            };
            out.push(ExcerptLine { line: k, start, end, column, width });
            k += 1;
        }
        out
    }
}

impl ExcerptLine {
    /// The underline row: `column` spaces, then `width` carets.
    pub fn underline(&self) -> (r: String)
        ensures
            r@ == Seq::new(self.column as nat, |i: int| ' ') + Seq::new(self.width as nat, |i: int| '^'),
    {
        let mut r = String::new();
        let mut i: usize = 0;
        while i < self.column
            invariant
                i <= self.column,
                r@ == Seq::new(i as nat, |j: int| ' '),
            decreases self.column - i,
        {
            proof {
                reveal_strlit(" ");
            }
            r.append(" ");
            i += 1;
            assert(r@ =~= Seq::new(i as nat, |j: int| ' '));
        }
        let mut n: usize = 0;
        while n < self.width
            invariant
                n <= self.width,
                r@ == Seq::new(self.column as nat, |j: int| ' ') + Seq::new(n as nat, |j: int| '^'),
            decreases self.width - n,
        {
            proof {
                reveal_strlit("^");
            }
            r.append("^");
            n += 1;
            assert(r@ =~= Seq::new(self.column as nat, |j: int| ' ') + Seq::new(n as nat, |j: int| '^'));
        }
        r
    }
}

/// The colour of byte `pos` of the source, for an error at `span`.
pub fn highlight_at(tokens: &Tokens, span: Span, pos: usize) -> (r: Highlight)
    ensures
        r == highlight(tokens.tokens@, span, pos as int),
{
    if span.start <= pos && pos < span.end {
        return Highlight::Error;
    }
    let ts = &tokens.tokens;
    let mut i: usize = 0;
    assert(ts@.subrange(0, ts@.len() as int) =~= ts@);
    while i < ts.len()
        invariant
            ts@ == tokens.tokens@,
            !(span.start <= pos && pos < span.end),
            i <= ts@.len(),
            covering(ts@, pos as int) == covering(ts@.subrange(i as int, ts@.len() as int), pos as int),
        decreases ts@.len() - i,
    {
        let t = ts[i];
        proof {
            let rest = ts@.subrange(i as int, ts@.len() as int);
            assert(rest[0] == t);
            assert(rest.drop_first() =~= ts@.subrange(i + 1, ts@.len() as int));
            if t.span.start <= pos && pos < t.span.end {
                assert(covering(rest, pos as int) == Some(t.ttype));
            }
        }
        if t.span.start <= pos && pos < t.span.end {
            let h = match t.ttype {
                TokenType::Number => Highlight::Number,
                TokenType::EOF => Highlight::Plain,
                _ => Highlight::Symbol,
            };
            return h;
        }
        i += 1;
    }
    assert(ts@.subrange(i as int, ts@.len() as int) =~= Seq::<Token>::empty());
    Highlight::Plain
}

proof fn lemma_runs_extend(ts: Seq<Token>, span: Span, start: int, p: int, runs: Seq<Run>)
    requires
        0 <= start <= p < usize::MAX,
        colour_runs(ts, span, start, p, runs),
        runs.len() > 0,
        highlight(ts, span, p) == runs.last().highlight,
    ensures
        colour_runs(ts, span, start, p + 1, runs.update(runs.len() - 1, (Run { end: (p + 1) as usize, ..runs.last() }))),
{
    let n = runs.len() - 1;
    let next = runs.update(n, Run { end: (p + 1) as usize, ..runs.last() });
    assert forall|k: int, q: int|
        0 <= k < next.len() && next[k].start <= q < next[k].end implies #[trigger] highlight(ts, span, q)
            == (#[trigger] next[k]).highlight by {
        if k < n {
            assert(next[k] == runs[k]);
        } else if q < p {
            assert(runs[k].start <= q < runs[k].end);
        }
    }
    assert forall|j: int, k: int| 0 <= j && k == j + 1 && k < next.len() implies (#[trigger] next[j]).end
        == (#[trigger] next[k]).start && next[j].highlight != next[k].highlight by {
        assert(next[j] == runs[j]);
        if k < n {
            assert(next[k] == runs[k]);
        }
    }
    assert forall|k: int| 0 <= k < next.len() implies (#[trigger] next[k]).start < next[k].end by {
        if k < n {
            assert(next[k] == runs[k]);
        }
    }
}

proof fn lemma_runs_push(ts: Seq<Token>, span: Span, start: int, p: int, runs: Seq<Run>, h: Highlight)
    requires
        0 <= start <= p < usize::MAX,
        colour_runs(ts, span, start, p, runs),
        runs.len() > 0 ==> runs.last().highlight != h,
        h == highlight(ts, span, p),
    ensures
        colour_runs(ts, span, start, p + 1, runs.push((Run { start: p as usize, end: (p + 1) as usize, highlight: h }))),
{
    let n = runs.len();
    let next = runs.push(Run { start: p as usize, end: (p + 1) as usize, highlight: h });
    assert forall|k: int, q: int|
        0 <= k < next.len() && next[k].start <= q < next[k].end implies #[trigger] highlight(ts, span, q)
            == (#[trigger] next[k]).highlight by {
        if k < n {
            assert(next[k] == runs[k]);
        }
    }
    assert forall|j: int, k: int| 0 <= j && k == j + 1 && k < next.len() implies (#[trigger] next[j]).end
        == (#[trigger] next[k]).start && next[j].highlight != next[k].highlight by {
        assert(next[j] == runs[j]);
        if k < n {
            assert(next[k] == runs[k]);
        }
    }
    assert forall|k: int| 0 <= k < next.len() implies (#[trigger] next[k]).start < next[k].end by {
        if k < n {
            assert(next[k] == runs[k]);
        }
    }
}

/// Splits bytes `[start, end)` of the source into stretches of one colour each,
/// for an error at `span`.
pub fn colour_runs_of(tokens: &Tokens, span: Span, start: usize, end: usize) -> (r: Vec<Run>)
    ensures
        colour_runs(tokens.tokens@, span, start as int, end as int, r@),
{
    let ghost ts = tokens.tokens@;
    let mut runs: Vec<Run> = Vec::new();
    if start >= end {
        return runs;
    }
    let mut p = start;
    while p < end
        invariant
            ts == tokens.tokens@,
            start <= p <= end,
            colour_runs(ts, span, start as int, p as int, runs@),
        decreases end - p,
    {
        let h = highlight_at(tokens, span, p);
        let n = runs.len();
        if n > 0 && runs[n - 1].highlight == h {
            proof {
                lemma_runs_extend(ts, span, start as int, p as int, runs@);
            }
            let mut last = runs[n - 1];
            last.end = p + 1;
            runs.set(n - 1, last);
        } else {
            proof {
                lemma_runs_push(ts, span, start as int, p as int, runs@, h);
            }
            runs.push(Run { start: p, end: p + 1, highlight: h });
        }
        p += 1;
    }
    runs
}

impl<'t> Error<'t> {
    /// The excerpt lines that show where this error is.
    pub fn excerpt(&self) -> (r: Vec<ExcerptLine>)
        requires
            self.tokens.source.wf(),
            self.span.start <= self.span.end <= self.tokens.source.bytes().len(),
        ensures
            r@.len() >= 1,
            self.tokens.source.line_holds(r@[0].line as int, self.span.start as int),
            self.tokens.source.line_holds(r@.last().line as int, self.span.end as int),
            forall|k: int|
                0 <= k < r@.len() ==> #[trigger] r@[k] == excerpt(
                    self.tokens.source,
                    self.span,
                    r@[0].line as int,
                    r@.last().line as int,
                    r@[0].line + k,
                ),
    {
        self.span.print(&self.tokens)
    }
}

} // verus!
