//! Line numbers in source files: the line a byte offset lies on, the line
//! range a symbol spans, and a symbol's body with its first line.
use vstd::prelude::*;
use crate::text::{decimal, push_decimal, string_from};

verus! {

/// The number of newline bytes in `s`.
pub open spec fn newline_count(s: Seq<u8>) -> nat
    decreases s.len(),
{
    if s.len() == 0 {
        0
    } else {
        newline_count(s.drop_last()) + if s.last() == 10u8 { 1nat } else { 0nat }
    }
}

/// The 1-based line that byte offset `off` of `src` lies on (an offset past
/// the end lies on the last line).
pub open spec fn line_at(src: Seq<u8>, off: nat) -> nat {
    1 + newline_count(src.take(if off <= src.len() { off as int } else { src.len() as int }))
}

pub proof fn lemma_newline_count_le(s: Seq<u8>)
    ensures
        newline_count(s) <= s.len(),
    decreases s.len(),
{
    if s.len() > 0 {
        lemma_newline_count_le(s.drop_last());
    }
}

/// The offsets where lines start: 0 and every offset just after a newline.
pub open spec fn line_start_offsets(src: Seq<u8>) -> Seq<usize>
    decreases src.len(),
{
    if src.len() == 0 {
        seq![0usize]
    } else {
        let prev = line_start_offsets(src.drop_last());
        if src.last() == 10u8 {
            prev.push(src.len() as usize)
        } else {
            prev
        }
    }
}

proof fn lemma_starts_shape(src: Seq<u8>)
    requires
        src.len() <= usize::MAX,
    ensures
        line_start_offsets(src).len() >= 1,
        line_start_offsets(src)[0] == 0,
        forall|k: int| 0 <= k < line_start_offsets(src).len() ==> #[trigger] line_start_offsets(src)[k] <= src.len(),
        forall|i: int, j: int| 0 <= i < j < line_start_offsets(src).len()
            ==> line_start_offsets(src)[i] < line_start_offsets(src)[j],
    decreases src.len(),
{
    if src.len() > 0 {
        lemma_starts_shape(src.drop_last());
    }
}

/// `b` splits the offsets into those at most `x` and those beyond it.
pub open spec fn is_boundary(starts: Seq<usize>, x: nat, b: int) -> bool {
    &&& 0 <= b <= starts.len()
    &&& forall|k: int| 0 <= k < b ==> #[trigger] starts[k] <= x
    &&& forall|k: int| b <= k < starts.len() ==> #[trigger] starts[k] > x
}

proof fn lemma_boundary_is_line(src: Seq<u8>, x: nat, b: int)
    requires
        src.len() <= usize::MAX,
        is_boundary(line_start_offsets(src), x, b),
    ensures
        b == line_at(src, x),
    decreases src.len(),
{
    lemma_starts_shape(src);
    let ls = line_start_offsets(src);
    let n = src.len();
    if n == 0 {
        assert(ls =~= seq![0usize]);
        assert(b == 1);
        assert(src.take(0) =~= Seq::<u8>::empty());
    } else {
        let s2 = src.drop_last();
        let l2 = line_start_offsets(s2);
        lemma_starts_shape(s2);
        assert(forall|k: int| 0 <= k < l2.len() ==> #[trigger] ls[k] == l2[k]);
        if x < n {
            // the offset after a trailing newline, if any, lies beyond x
            assert(b <= l2.len()) by {
                if ls.len() > l2.len() {
                    assert(ls[l2.len() as int] == n);
                }
            }
            assert forall|k: int| 0 <= k < b implies #[trigger] l2[k] <= x by {
                assert(ls[k] == l2[k]);
            }
            assert forall|k: int| b <= k < l2.len() implies #[trigger] l2[k] > x by {
                assert(ls[k] == l2[k]);
            }
            assert(is_boundary(l2, x, b));
            lemma_boundary_is_line(s2, x, b);
            assert(s2.take(x as int) =~= src.take(x as int));
        } else {
            assert(b == ls.len()) by {
                if b < ls.len() {
                    assert(ls[b] <= n);
                }
            }
            lemma_boundary_is_line(s2, (n - 1) as nat, l2.len() as int);
            assert(s2.take((n - 1) as int) =~= s2);
            assert(src.take(n as int) =~= src);
        }
    }
}

/// The line starts of one source file, for repeated line lookups.
pub struct LineStarts {
    starts: Vec<usize>,
    source: Ghost<Seq<u8>>,
}

impl LineStarts {
    /// The source the line starts belong to.
    pub closed spec fn source(&self) -> Seq<u8> {
        self.source@
    }

    #[verifier::type_invariant]
    spec fn wf(&self) -> bool {
        &&& self.source@.len() <= usize::MAX
        &&& self.starts@ == line_start_offsets(self.source@)
    }
}

/// Records where the lines of `source` start.
pub fn line_starts(source: &[u8]) -> (r: LineStarts)
    ensures
        r.source() == source@,
{
    let mut starts: Vec<usize> = Vec::new();
    starts.push(0);
    let mut i: usize = 0;
    proof { assert(source@.take(0) =~= Seq::<u8>::empty()); }
    while i < source.len()
        invariant
            i <= source@.len(),
            starts@ == line_start_offsets(source@.take(i as int)),
        decreases source.len() - i,
    {
        proof {
            assert(source@.take(i + 1).drop_last() =~= source@.take(i as int));
            assert(source@.take(i + 1).last() == source@[i as int]);
        }
        if source[i] == 10u8 {
            starts.push(i + 1);
        }
        i = i + 1;
    }
    proof { assert(source@.take(source@.len() as int) =~= source@); }
    LineStarts { starts, source: Ghost(source@) }
}

impl LineStarts {
    /// The 1-based line that a byte offset lies on.
    pub fn line_of(&self, off: usize) -> (r: usize)
        ensures
            r == line_at(self.source(), off as nat),
    {
        proof {
            use_type_invariant(self);
            lemma_starts_shape(self.source@);
        }
        let ghost ls = self.starts@;
        let mut lo: usize = 0;
        let mut hi: usize = self.starts.len();
        while lo < hi
            invariant
                ls == self.starts@,
                0 <= lo <= hi <= ls.len(),
                forall|k: int| 0 <= k < lo ==> #[trigger] ls[k] <= off,
                forall|k: int| hi <= k < ls.len() ==> #[trigger] ls[k] > off,
                forall|i: int, j: int| 0 <= i < j < ls.len() ==> ls[i] < ls[j],
            decreases hi - lo,
        {
            let mid = lo + (hi - lo) / 2;
            if self.starts[mid] <= off {
                lo = mid + 1;
            } else {
                hi = mid;
            }
        }
        proof {
            lemma_boundary_is_line(self.source@, off as nat, lo as int);
        }
        lo
    }
}

/// The line range text: `N` for one line, `A-B` for several.
pub open spec fn range_text(first: nat, last: nat) -> Seq<char> {
    if first == last {
        decimal(first)
    } else {
        decimal(first) + seq!['-'] + decimal(last)
    }
}

/// The lines a byte range spans: its start, and its last byte (the start for
/// an empty range).
pub open spec fn span_lines(src: Seq<u8>, start: nat, end: nat) -> (nat, nat) {
    let last = if end == 0 { 0 } else { (end - 1) as nat };
    let last = if last < start { start } else { last };
    (line_at(src, start), line_at(src, last))
}

/// The line range of a byte range, as `N` or `A-B`; `None` for a range that
/// ends before it starts.
pub fn line_range(starts: &LineStarts, byte_range: (usize, usize)) -> (r: Option<String>)
    ensures
        byte_range.0 > byte_range.1 ==> r is None,
        byte_range.0 <= byte_range.1 ==> (r matches Some(t) && {
            let (a, b) = span_lines(starts.source(), byte_range.0 as nat, byte_range.1 as nat);
            t@ == range_text(a, b)
        }),
{
    let (start, end) = byte_range;
    if start > end {
        return None;
    }
    let last = if end == 0 { 0 } else { end - 1 };
    let last = if last < start { start } else { last };
    let a = starts.line_of(start);
    let b = starts.line_of(last);
    let mut out: Vec<char> = Vec::new();
    push_decimal(&mut out, a);
    if a != b {
        out.push('-');
        push_decimal(&mut out, b);
    }
    proof {
        if a != b {
            assert(out@ =~= decimal(a as nat) + seq!['-'] + decimal(b as nat));
        } else {
            assert(out@ =~= decimal(a as nat));
        }
    }
    Some(string_from(out.as_slice()))
}

/// What `String::from_utf8_lossy` makes of a byte sequence.
pub uninterp spec fn utf8_lossy(b: Seq<u8>) -> Seq<char>;

/// Decodes bytes as UTF-8, replacing invalid sequences
/// (`String::from_utf8_lossy`). The contract names the result and states the
/// documented case of valid input, which comes back unchanged.
#[verifier::external_body]
fn decode_lossy(b: &[u8]) -> (r: String)
    ensures
        r@ == utf8_lossy(b@),
        vstd::utf8::valid_utf8(b@) ==> r@ == vstd::utf8::decode_utf8(b@),
{
    String::from_utf8_lossy(b).into_owned()
}

/// The text of a symbol's byte range and the line it starts on; `None` when
/// the range runs past the end of the source. A range within the source must
/// not end before it starts.
pub fn read_body(source: &[u8], byte_range: (usize, usize)) -> (r: Option<(String, usize)>)
    requires
        byte_range.1 <= source@.len() ==> byte_range.0 <= byte_range.1,
        source@.len() < usize::MAX,
    ensures
        byte_range.1 > source@.len() ==> r is None,
        byte_range.1 <= source@.len() ==> (r matches Some((body, line)) && {
            &&& body@ == utf8_lossy(source@.subrange(byte_range.0 as int, byte_range.1 as int))
            &&& line == line_at(source@, byte_range.0 as nat)
            &&& vstd::utf8::valid_utf8(source@.subrange(byte_range.0 as int, byte_range.1 as int))
                ==> body@ == vstd::utf8::decode_utf8(source@.subrange(byte_range.0 as int, byte_range.1 as int))
        }),
{
    let (start, end) = byte_range;
    if end > source.len() {
        return None;
    }
    let mut count: usize = 0;
    let mut i: usize = 0;
    proof { assert(source@.take(0) =~= Seq::<u8>::empty()); }
    while i < start
        invariant
            start <= source@.len(),
            i <= start,
            count == newline_count(source@.take(i as int)),
        decreases start - i,
    {
        proof {
            assert(source@.take(i + 1).drop_last() =~= source@.take(i as int));
            assert(source@.take(i + 1).last() == source@[i as int]);
            lemma_newline_count_le(source@.take(i as int));
        }
        if source[i] == 10u8 {
            count = count + 1;
        }
        i = i + 1;
    }
    proof { lemma_newline_count_le(source@.take(start as int)); }
    let line = count + 1;
    let body = decode_lossy(&source[start..end]);
    Some((body, line))
}

} // verus!
