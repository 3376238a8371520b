use vstd::prelude::*;
use vstd::utf8::encode_utf8;
use vstd::string::StringSliceAdditionalSpecFns;

verus! {

/// Byte offsets just past each `'\n'` of `b`, in increasing order.
pub open spec fn newline_ends(b: Seq<u8>) -> Seq<usize>
    decreases b.len(),
{
    if b.len() == 0 {
        Seq::empty()
    } else {
        let before = newline_ends(b.drop_last());
        if b.last() == 10u8 {
            before.push(b.len() as usize)
        } else {
            before
        }
    }
}

/// The start offset of every line of `b`: `0`, then the offset after each newline.
pub open spec fn line_starts(b: Seq<u8>) -> Seq<usize> {
    seq![0usize] + newline_ends(b)
}

/// Every entry of `newline_ends(b)` lies in `1..=b.len()`, strictly increasing,
/// and follows a newline byte.
pub proof fn lemma_newline_ends(b: Seq<u8>)
    requires
        b.len() <= usize::MAX,
    ensures
        forall|k: int| 0 <= k < newline_ends(b).len() ==> 1 <= #[trigger] newline_ends(b)[k] <= b.len(),
        forall|k: int| 0 <= k < newline_ends(b).len() ==> b[newline_ends(b)[k] - 1] == 10u8,
        forall|j: int, k: int|
            0 <= j < k < newline_ends(b).len() ==> newline_ends(b)[j] < newline_ends(b)[k],
    decreases b.len(),
{
    if b.len() > 0 {
        let p = b.drop_last();
        lemma_newline_ends(p);
        assert forall|k: int| 0 <= k < newline_ends(p).len() implies b[newline_ends(p)[k] - 1] == 10u8 by {
            assert(b[newline_ends(p)[k] - 1] == p[newline_ends(p)[k] - 1]);
        }
        let n = newline_ends(b);
        assert forall|k: int| 0 <= k < n.len() implies b[n[k] - 1] == 10u8 by {
            if k < newline_ends(p).len() {
                assert(n[k] == newline_ends(p)[k]);
                assert(1 <= newline_ends(p)[k] <= p.len());
                assert(b[n[k] - 1] == p[n[k] - 1]);
            } else {
                assert(b.last() == 10u8);
                assert(n[k] == b.len());
                assert(b[b.len() - 1] == b.last());
            }
        }
    }
}

/// Line starts are strictly increasing, begin at `0` and stay within the text.
pub proof fn lemma_line_starts(b: Seq<u8>)
    requires
        b.len() <= usize::MAX,
    ensures
        line_starts(b).len() >= 1,
        line_starts(b)[0] == 0,
        forall|k: int| 0 <= k < line_starts(b).len() ==> #[trigger] line_starts(b)[k] <= b.len(),
        forall|j: int, k: int|
            0 <= j < k < line_starts(b).len() ==> line_starts(b)[j] < line_starts(b)[k],
{
    lemma_newline_ends(b);
    let s = line_starts(b);
    let n = newline_ends(b);
    assert forall|k: int| 0 < k < s.len() implies s[k] == n[k - 1] by {}
    assert forall|j: int, k: int| 0 <= j < k < s.len() implies s[j] < s[k] by {
        if j > 0 {
            assert(n[j - 1] < n[k - 1]);
        } else {
            assert(n[k - 1] >= 1);
        }
    }
    assert forall|k: int| 0 <= k < s.len() implies #[trigger] s[k] <= b.len() by {
        if k > 0 {
            assert(n[k - 1] <= b.len());
        }
    }
}

/// Source text together with the offset at which each of its lines starts.
pub struct Source {
    pub text: String,
    pub lines: Vec<usize>,
}

impl Source {
    /// The text as UTF-8 bytes; every offset of this library indexes these.
    pub open spec fn bytes(&self) -> Seq<u8> {
        encode_utf8(self.text@)
    }

    /// `lines` is the line table of `text`.
    pub open spec fn wf(&self) -> bool {
        &&& self.lines@ == line_starts(self.bytes())
        &&& self.bytes().len() <= usize::MAX
    }

    /// Line `i` starts at or before `offset`, and the next line (if any) after it.
    pub open spec fn line_holds(&self, i: int, offset: int) -> bool {
        &&& 0 <= i < self.lines@.len()
        &&& self.lines@[i] <= offset
        &&& i + 1 < self.lines@.len() ==> offset < self.lines@[i + 1]
    }

    /// The offset at which line `i` ends, its line break included.
    pub open spec fn line_end_spec(&self, i: int) -> int {
        if i + 1 < self.lines@.len() {
            self.lines@[i + 1] as int
        } else {
            self.bytes().len() as int
        }
    }

    pub fn new(text: String) -> (r: Source)
        ensures
            r.text@ == text@,
            r.wf(),
    {
        let ends = find_lines(text.as_str());
        let mut lines: Vec<usize> = Vec::new();
        lines.push(0);
        let mut i: usize = 0;
        while i < ends.len()
            invariant
                i <= ends@.len(),
                lines@ == seq![0usize] + ends@.subrange(0, i as int),
            decreases ends@.len() - i,
        {
            lines.push(ends[i]);
            i += 1;
            assert(lines@ =~= seq![0usize] + ends@.subrange(0, i as int));
        }
        assert(ends@.subrange(0, ends@.len() as int) =~= ends@);
        Source { text, lines }
    }

    /// The index of the line that holds byte `offset`: the last line starting at
    /// or before it.
    pub fn line_of(&self, offset: usize) -> (r: usize)
        requires
            self.wf(),
            offset <= self.bytes().len(),
        ensures
            self.line_holds(r as int, offset as int),
    {
        proof {
            lemma_line_starts(self.bytes());
        }
        let mut lo: usize = 0;
        let mut hi: usize = self.lines.len();
        while lo + 1 < hi
            invariant
                self.wf(),
                0 <= lo < hi <= self.lines@.len(),
                self.lines@[lo as int] <= offset,
                hi < self.lines@.len() ==> offset < self.lines@[hi as int],
                forall|j: int, k: int|
                    0 <= j < k < self.lines@.len() ==> self.lines@[j] < self.lines@[k],
            decreases hi - lo,
        {
            let mid = lo + (hi - lo) / 2;
            if self.lines[mid] <= offset {
                lo = mid;
            } else {
                hi = mid;
            }
        }
        lo
    }

    /// Where line `i` ends, its line break included.
    pub fn line_end(&self, i: usize) -> (r: usize)
        requires
            self.wf(),
            i < self.lines@.len(),
        ensures
            r == self.line_end_spec(i as int),
    {
        if i < self.lines.len() - 1 {
            self.lines[i + 1]
        } else {
            self.text.as_str().as_bytes().len()
        }
    }
}

/// Returns the offset just past each `'\n'` of `text`: where every line but
/// the first starts.
pub fn find_lines(text: &str) -> (r: Vec<usize>)
    ensures
        r@ == newline_ends(text.spec_bytes()),
        text.spec_bytes().len() <= usize::MAX,
{
    let b = text.as_bytes();
    let mut lines: Vec<usize> = Vec::new();
    let mut i: usize = 0;
    while i < b.len()
        invariant
            b@ == text.spec_bytes(),
            i <= b@.len(),
            lines@ == newline_ends(b@.subrange(0, i as int)),
        decreases b@.len() - i,
    {
        proof {
            let next = b@.subrange(0, i + 1);
            assert(next.drop_last() =~= b@.subrange(0, i as int));
        }
        if b[i] == 10u8 {
            lines.push(i + 1);
        }
        i += 1;
        proof {
            assert(newline_ends(b@.subrange(0, i as int)) =~= lines@);
        }
    }
    assert(b@.subrange(0, b@.len() as int) =~= b@);
    lines
}

} // verus!
