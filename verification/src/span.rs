//! The interval store: an ordered list of labelled, pairwise disjoint byte
//! ranges for a single attribute category.

use crate::attribute::AttrValue;
use vstd::prelude::*;
use vstd::string::StringSliceAdditionalSpecFns;

verus! {

/// A half-open interval `[start, end)` of byte offsets.
#[derive(Clone, Copy, Debug, PartialEq, Eq)]
pub struct ByteRange {
    pub start: usize,
    pub end: usize,
}

impl ByteRange {
    /// Whether the offset `x` lies in the interval.
    pub open spec fn contains(self, x: int) -> bool {
        self.start <= x < self.end
    }

    pub fn new(start: usize, end: usize) -> (r: Self)
        ensures
            r.start == start,
            r.end == end,
    {
        ByteRange { start, end }
    }

    /// True when the interval holds no offset.
    pub fn is_empty(&self) -> (r: bool)
        ensures
            r == (self.start >= self.end),
            r == (forall|x: int| !self.contains(x)),
    {
        proof {
            if self.start < self.end {
                assert(self.contains(self.start as int));
            }
        }
        self.start >= self.end
    }
}

/// Why a range was rejected.
#[derive(Clone, Copy, Debug, PartialEq, Eq)]
pub enum SpanError {
    /// The range's start lies behind its end, or the range does not fit the
    /// text that it was checked against.
    InvalidRange,
}

/// The range does not run backwards, and both of its ends fall between two
/// characters of the text or at one of its ends; an offset behind the end of
/// the text does neither.
pub open spec fn fits(text: Seq<u8>, range: ByteRange) -> bool {
    &&& range.start <= range.end
    &&& vstd::utf8::is_char_boundary(text, range.start as int)
    &&& vstd::utf8::is_char_boundary(text, range.end as int)
}

/// Checks a range against the text that it is meant for.
pub fn check_range(text: &str, range: ByteRange) -> (r: Result<(), SpanError>)
    ensures
        r == if fits(text.spec_bytes(), range) {
            Ok::<(), SpanError>(())
        } else {
            Err::<(), SpanError>(SpanError::InvalidRange)
        },
{
    if range.start <= range.end && text.is_char_boundary(range.start) && text.is_char_boundary(
        range.end,
    ) {
        Ok(())
    } else {
        Err(SpanError::InvalidRange)
    }
}

/// One attribute value, valid over one range.
#[derive(Clone, Copy, Debug, PartialEq, Eq)]
pub struct Span<T> {
    pub range: ByteRange,
    pub attr: T,
}

impl<T> Span<T> {
    pub fn new(range: ByteRange, attr: T) -> (r: Self)
        ensures
            r.range == range,
            r.attr == attr,
    {
        Span { range, attr }
    }
}


/// Every span is non-empty, and each ends before the next one starts
/// (touching is allowed).
pub open spec fn well_formed<T>(s: Seq<Span<T>>) -> bool {
    &&& forall|i: int| 0 <= i < s.len() ==> (#[trigger] s[i]).range.start < s[i].range.end
    &&& forall|i: int, j: int|
        0 <= i < j < s.len() ==> (#[trigger] s[i]).range.end <= (#[trigger] s[j]).range.start
}

/// Some span of `s` contains the offset `x`.
pub open spec fn covered<T>(s: Seq<Span<T>>, x: int) -> bool {
    exists|i: int| 0 <= i < s.len() && (#[trigger] s[i]).range.contains(x)
}

/// A span of `s` that contains the offset `x`, if there is one.
pub open spec fn span_at<T>(s: Seq<Span<T>>, x: int) -> Option<Span<T>> {
    if covered(s, x) {
        Some(s[choose|i: int| 0 <= i < s.len() && (#[trigger] s[i]).range.contains(x)])
    } else {
        None
    }
}

/// The value that `s` gives the offset `x`, if any span contains it.
pub open spec fn value_at<T>(s: Seq<Span<T>>, x: int) -> Option<T> {
    match span_at(s, x) {
        Some(sp) => Some(sp.attr),
        None => None,
    }
}

/// In a well-formed list the span that contains an offset is the only one,
/// so it decides the value.
pub proof fn lemma_value_at<T>(s: Seq<Span<T>>, i: int, x: int)
    requires
        well_formed(s),
        0 <= i < s.len(),
        s[i].range.contains(x),
    ensures
        span_at(s, x) == Some(s[i]),
        value_at(s, x) == Some(s[i].attr),
{
    let j = choose|j: int| 0 <= j < s.len() && (#[trigger] s[j]).range.contains(x);
    if j < i {
        assert(s[j].range.end <= s[i].range.start);
    } else if i < j {
        assert(s[i].range.end <= s[j].range.start);
    }
}

/// What is left of `s` in front of `r`: nothing unless `s` starts before
/// `r`, and then `s` cut off where `r` starts.
pub open spec fn part_before<T>(s: Span<T>, r: ByteRange) -> Option<Span<T>> {
    if s.range.start < r.start {
        Some(
            Span {
                range: ByteRange {
                    start: s.range.start,
                    end: if s.range.end <= r.start { s.range.end } else { r.start },
                },
                attr: s.attr,
            },
        )
    } else {
        None
    }
}

/// What is left of `s` behind `r`: nothing unless `s` ends after `r`, and
/// then `s` from where `r` ends.
pub open spec fn part_after<T>(s: Span<T>, r: ByteRange) -> Option<Span<T>> {
    if s.range.end > r.end {
        Some(
            Span {
                range: ByteRange {
                    start: if s.range.start >= r.end { s.range.start } else { r.end },
                    end: s.range.end,
                },
                attr: s.attr,
            },
        )
    } else {
        None
    }
}

pub open spec fn kept_before<T>(s: Seq<Span<T>>, r: ByteRange) -> Seq<Span<T>> {
    s.filter_map(|sp: Span<T>| part_before(sp, r))
}

pub open spec fn kept_after<T>(s: Seq<Span<T>>, r: ByteRange) -> Seq<Span<T>> {
    s.filter_map(|sp: Span<T>| part_after(sp, r))
}

/// The list after `span` has overwritten its range: the remainders in front
/// of it, the span itself, the remainders behind it. A span that reaches
/// over both ends of the range leaves a remainder on each side.
pub open spec fn overwritten<T>(s: Seq<Span<T>>, span: Span<T>) -> Seq<Span<T>> {
    kept_before(s, span.range).push(span) + kept_after(s, span.range)
}

/// The list after `span` was added: overwritten where the span's range holds
/// an offset, unchanged where it holds none.
pub open spec fn added<T>(s: Seq<Span<T>>, span: Span<T>) -> Seq<Span<T>> {
    if span.range.start < span.range.end {
        overwritten(s, span)
    } else {
        s
    }
}

/// The range of `span`, stretched over each neighbour that carries the
/// span's value: in front, the stored span that holds the offset just before
/// the range; behind, the stored span that holds the offset at which the
/// range ends.
pub open spec fn widened<T>(s: Seq<Span<T>>, span: Span<T>) -> ByteRange {
    ByteRange {
        start: match span_at(s, span.range.start - 1) {
            Some(l) => if l.attr == span.attr {
                l.range.start
            } else {
                span.range.start
            },
            None => span.range.start,
        },
        end: match span_at(s, span.range.end as int) {
            Some(n) => if n.attr == span.attr {
                n.range.end
            } else {
                span.range.end
            },
            None => span.range.end,
        },
    }
}

/// The list after `span` was added and joined with the neighbours that
/// carry its value.
pub open spec fn added_coalescing<T>(s: Seq<Span<T>>, span: Span<T>) -> Seq<Span<T>> {
    if span.range.start < span.range.end {
        overwritten(s, Span { range: widened(s, span), attr: span.attr })
    } else {
        s
    }
}

/// The value that `s` gives the offset `x`, or `default` where no span
/// contains it.
pub open spec fn value_or<T>(s: Seq<Span<T>>, x: int, default: T) -> T {
    match value_at(s, x) {
        Some(v) => v,
        None => default,
    }
}

/// `kept_before` is a prefix of the list, each span cut off at `r.start`.
pub proof fn lemma_kept_before<T>(s: Seq<Span<T>>, r: ByteRange)
    requires
        well_formed(s),
    ensures
        kept_before(s, r).len() <= s.len(),
        forall|j: int|
            0 <= j < kept_before(s, r).len() ==> part_before(s[j], r) == Some(
                #[trigger] kept_before(s, r)[j],
            ),
        forall|i: int|
            kept_before(s, r).len() <= i < s.len() ==> (#[trigger] s[i]).range.start >= r.start,
    decreases s.len(),
{
    let f = |sp: Span<T>| part_before(sp, r);
    if s.len() > 0 {
        let t = s.drop_last();
        lemma_kept_before(t, r);
        let k = kept_before(t, r);
        assert(kept_before(s, r) == s.filter_map(f));
        assert(k == t.filter_map(f));
        if s.last().range.start < r.start {
            if k.len() < t.len() {
                assert(t[k.len() as int].range.start >= r.start);
                assert(s[k.len() as int].range.end <= s[s.len() - 1].range.start);
                assert(false);
            }
            assert(kept_before(s, r) =~= k + seq![part_before(s.last(), r).unwrap()]);
        } else {
            assert(kept_before(s, r) =~= k);
        }
    }
}

/// `kept_after` is a suffix of the list, each span starting no earlier than
/// `r.end`.
pub proof fn lemma_kept_after<T>(s: Seq<Span<T>>, r: ByteRange)
    requires
        well_formed(s),
    ensures
        kept_after(s, r).len() <= s.len(),
        forall|j: int|
            0 <= j < kept_after(s, r).len() ==> part_after(
                s[s.len() - kept_after(s, r).len() + j],
                r,
            ) == Some(#[trigger] kept_after(s, r)[j]),
        forall|i: int|
            0 <= i < s.len() - kept_after(s, r).len() ==> (#[trigger] s[i]).range.end <= r.end,
    decreases s.len(),
{
    let f = |sp: Span<T>| part_after(sp, r);
    if s.len() > 0 {
        let t = s.drop_last();
        lemma_kept_after(t, r);
        let k = kept_after(t, r);
        assert(kept_after(s, r) == s.filter_map(f));
        assert(k == t.filter_map(f));
        assert forall|i: int| 0 <= i < t.len() - k.len() implies (#[trigger] s[i]).range.end
            <= r.end by {
            assert(t[i] == s[i]);
        }
        if s.last().range.end > r.end {
            assert(kept_after(s, r) =~= k + seq![part_after(s.last(), r).unwrap()]);
            assert forall|j: int| 0 <= j < kept_after(s, r).len() implies part_after(
                s[s.len() - kept_after(s, r).len() + j],
                r,
            ) == Some(#[trigger] kept_after(s, r)[j]) by {
                if j < k.len() {
                    assert(kept_after(s, r)[j] == k[j]);
                    assert(t[t.len() - k.len() + j] == s[s.len() - kept_after(s, r).len() + j]);
                }
            }
        } else {
            if k.len() > 0 {
                let i = t.len() - k.len();
                assert(part_after(t[i], r) == Some(k[0]));
                assert(s[i].range.end <= s[s.len() - 1].range.start);
                assert(false);
            }
            assert(kept_after(s, r) =~= k);
        }
    }
}

/// Overwriting keeps the list well formed, gives every offset of the new
/// span's range the new value, and leaves every other offset as it was.
pub proof fn lemma_overwritten<T>(s: Seq<Span<T>>, span: Span<T>)
    requires
        well_formed(s),
        span.range.start < span.range.end,
    ensures
        well_formed(overwritten(s, span)),
        forall|x: int|
            #[trigger] value_at(overwritten(s, span), x) == if span.range.contains(x) {
                Some(span.attr)
            } else {
                value_at(s, x)
            },
{
    let r = span.range;
    let kb = kept_before(s, r);
    let ka = kept_after(s, r);
    let o = overwritten(s, span);
    let n = kb.len() as int;
    let d = s.len() - ka.len();
    lemma_kept_before(s, r);
    lemma_kept_after(s, r);
    assert(o.len() == n + 1 + ka.len());
    assert(o[n] == span);
    assert forall|j: int| 0 <= j < n implies part_before(s[j], r) == Some(#[trigger] o[j]) by {
        assert(o[j] == kb[j]);
    }
    assert forall|j: int| n < j < o.len() implies part_after(s[d + j - n - 1], r) == Some(
        #[trigger] o[j],
    ) by {
        assert(o[j] == ka[j - n - 1]);
        assert(part_after(s[s.len() - ka.len() + (j - n - 1)], r) == Some(ka[j - n - 1]));
    }
    assert forall|i: int| 0 <= i < o.len() implies (#[trigger] o[i]).range.start
        < o[i].range.end by {
        if i < n {
            assert(s[i].range.start < s[i].range.end);
        } else if i > n {
            assert(s[d + i - n - 1].range.start < s[d + i - n - 1].range.end);
        }
    }
    assert forall|i: int, j: int| 0 <= i < j < o.len() implies (#[trigger] o[i]).range.end <= (
    #[trigger] o[j]).range.start by {
        if j < n {
            assert(s[i].range.end <= s[j].range.start);
        } else if i > n {
            assert(s[d + i - n - 1].range.end <= s[d + j - n - 1].range.start);
        }
    }
    assert forall|x: int|
        #[trigger] value_at(o, x) == if r.contains(x) {
            Some(span.attr)
        } else {
            value_at(s, x)
        } by {
        if r.contains(x) {
            lemma_value_at(o, n, x);
        } else if covered(s, x) {
            let i = choose|i: int| 0 <= i < s.len() && (#[trigger] s[i]).range.contains(x);
            lemma_value_at(s, i, x);
            if x < r.start {
                assert(i < n);
                assert(part_before(s[i], r) == Some(o[i]));
                lemma_value_at(o, i, x);
            } else {
                assert(i >= d);
                let j = i - d + n + 1;
                assert(part_after(s[d + j - n - 1], r) == Some(o[j]));
                lemma_value_at(o, j, x);
            }
        } else {
            if covered(o, x) {
                let j = choose|j: int| 0 <= j < o.len() && (#[trigger] o[j]).range.contains(x);
                if j < n {
                    assert(part_before(s[j], r) == Some(o[j]));
                    assert(s[j].range.contains(x));
                } else if j > n {
                    assert(part_after(s[d + j - n - 1], r) == Some(o[j]));
                    assert(s[d + j - n - 1].range.contains(x));
                }
                assert(false);
            }
        }
    }
}

/// The list after the spans of `adds` were added to `s` one after the other.
pub open spec fn added_all<T>(s: Seq<Span<T>>, adds: Seq<Span<T>>) -> Seq<Span<T>>
    decreases adds.len(),
{
    if adds.len() == 0 {
        s
    } else {
        added(added_all(s, adds.drop_last()), adds.last())
    }
}

/// Two different spans of a well-formed list share no offset.
pub proof fn lemma_spans_disjoint<T>(s: Seq<Span<T>>, i: int, j: int, x: int)
    requires
        well_formed(s),
        0 <= i < s.len(),
        0 <= j < s.len(),
        i != j,
    ensures
        !(s[i].range.contains(x) && s[j].range.contains(x)),
{
    if i < j {
        assert(s[i].range.end <= s[j].range.start);
    } else {
        assert(s[j].range.end <= s[i].range.start);
    }
}

/// Whatever spans are added to a well-formed list, in whatever order, the
/// list stays well formed: no two of its spans share an offset.
pub proof fn lemma_adds_keep_spans_disjoint<T>(s: Seq<Span<T>>, adds: Seq<Span<T>>)
    requires
        well_formed(s),
    ensures
        well_formed(added_all(s, adds)),
        forall|i: int, j: int, x: int|
            0 <= i < j < added_all(s, adds).len() ==> !(#[trigger] added_all(
                s,
                adds,
            )[i].range.contains(x) && #[trigger] added_all(s, adds)[j].range.contains(x)),
    decreases adds.len(),
{
    if adds.len() > 0 {
        lemma_adds_keep_spans_disjoint(s, adds.drop_last());
        if adds.last().range.start < adds.last().range.end {
            lemma_overwritten(added_all(s, adds.drop_last()), adds.last());
        }
    }
    let o = added_all(s, adds);
    assert forall|i: int, j: int, x: int| 0 <= i < j < o.len() implies !(
    #[trigger] o[i].range.contains(x) && #[trigger] o[j].range.contains(x)) by {
        lemma_spans_disjoint(o, i, j, x);
    }
}

/// Right after a span with a non-empty range was added, every offset of
/// its range has the span's value.
pub proof fn lemma_write_wins<T>(s: Seq<Span<T>>, span: Span<T>, x: int)
    requires
        well_formed(s),
        span.range.contains(x),
    ensures
        value_at(added(s, span), x) == Some(span.attr),
{
    lemma_overwritten(s, span);
}

/// Adding a span leaves every offset outside its range as it was.
pub proof fn lemma_outside_unchanged<T>(s: Seq<Span<T>>, span: Span<T>, x: int)
    requires
        well_formed(s),
        !span.range.contains(x),
    ensures
        value_at(added(s, span), x) == value_at(s, x),
{
    if span.range.start < span.range.end {
        lemma_overwritten(s, span);
    }
}

/// The part of `s` that lies inside `r`, if any offset does.
pub open spec fn clip<T>(s: Span<T>, r: ByteRange) -> Option<(ByteRange, T)> {
    let start = if s.range.start >= r.start { s.range.start } else { r.start };
    let end = if s.range.end <= r.end { s.range.end } else { r.end };
    if start < end {
        Some((ByteRange { start, end }, s.attr))
    } else {
        None
    }
}

/// The spans of `s` that reach into `r`, each clipped to `r`, in the order
/// in which `s` holds them.
pub open spec fn clipped<T>(s: Seq<Span<T>>, r: ByteRange) -> Seq<(ByteRange, T)> {
    s.filter_map(|sp: Span<T>| clip(sp, r))
}

/// A span of `s` starts or ends at `b`.
pub open spec fn is_boundary<T>(s: Seq<Span<T>>, b: int) -> bool {
    exists|i: int|
        0 <= i < s.len() && ((#[trigger] s[i]).range.start == b || s[i].range.end == b)
}

/// The interval store of one attribute category.
pub struct SpanSet<T> {
    spans: Vec<Span<T>>,
}

impl<T> View for SpanSet<T> {
    type V = Seq<Span<T>>;

    closed spec fn view(&self) -> Seq<Span<T>> {
        self.spans@
    }
}

impl<T: Copy> SpanSet<T> {
    /// The invariant of the store: see [`well_formed`].
    pub open spec fn wf(&self) -> bool {
        well_formed(self@)
    }

    pub fn new() -> (r: Self)
        ensures
            r@ == Seq::<Span<T>>::empty(),
            r.wf(),
    {
        SpanSet { spans: Vec::new() }
    }

    /// The stored spans, in ascending order.
    pub fn spans(&self) -> (r: &Vec<Span<T>>)
        ensures
            r@ == self@,
    {
        &self.spans
    }

    /// Index of the first span that ends behind `offset`.
    fn first_ending_after(&self, offset: usize) -> (i: usize)
        requires
            self.wf(),
        ensures
            i <= self@.len(),
            forall|j: int| 0 <= j < i ==> (#[trigger] self@[j]).range.end <= offset,
            forall|j: int| i <= j < self@.len() ==> (#[trigger] self@[j]).range.end > offset,
    {
        let mut lo: usize = 0;
        let mut hi: usize = self.spans.len();
        while lo < hi
            invariant
                self.wf(),
                lo <= hi <= self@.len(),
                forall|j: int| 0 <= j < lo ==> (#[trigger] self@[j]).range.end <= offset,
                forall|j: int| hi <= j < self@.len() ==> (#[trigger] self@[j]).range.end > offset,
            decreases hi - lo,
        {
            let mid: usize = lo + (hi - lo) / 2;
            if self.spans[mid].range.end <= offset {
                proof {
                    assert forall|j: int| 0 <= j < mid + 1 implies (#[trigger] self@[j]).range.end
                        <= offset by {
                        if j < mid {
                            assert(self@[j].range.end <= self@[mid as int].range.start);
                            assert(self@[mid as int].range.start < self@[mid as int].range.end);
                        }
                    }
                }
                lo = mid + 1;
            } else {
                proof {
                    assert forall|j: int| mid <= j < self@.len() implies (
                    #[trigger] self@[j]).range.end > offset by {
                        if j > mid {
                            assert(self@[mid as int].range.end <= self@[j].range.start);
                            assert(self@[j].range.start < self@[j].range.end);
                        }
                    }
                }
                hi = mid;
            }
        }
        lo
    }

    /// The value of the span that contains `offset`; `None` where no span
    /// does.
    pub fn point_query(&self, offset: usize) -> (r: Option<&T>)
        requires
            self.wf(),
        ensures
            match r {
                Some(v) => value_at(self@, offset as int) == Some(*v),
                None => value_at(self@, offset as int) is None,
            },
    {
        match self.index_at(offset) {
            Some(i) => Some(&self.spans[i].attr),
            None => None,
        }
    }

    /// Index of the span that contains `offset`.
    fn index_at(&self, offset: usize) -> (r: Option<usize>)
        requires
            self.wf(),
        ensures
            match r {
                Some(i) => i < self@.len() && span_at(self@, offset as int) == Some(
                    self@[i as int],
                ) && self@[i as int].range.contains(offset as int),
                None => span_at(self@, offset as int) is None,
            },
    {
        let i = self.first_ending_after(offset);
        if i < self.spans.len() && self.spans[i].range.start <= offset {
            proof {
                lemma_value_at(self@, i as int, offset as int);
            }
            Some(i)
        } else {
            proof {
                self.lemma_gap(i as int, offset as int);
            }
            None
        }
    }

    /// The value at `offset`, or `default` where no span contains it.
    pub fn value_or(&self, offset: usize, default: T) -> (r: T)
        requires
            self.wf(),
        ensures
            r == value_or(self@, offset as int, default),
    {
        match self.point_query(offset) {
            Some(v) => *v,
            None => default,
        }
    }

    /// If every span in front of index `i` ends at or before `x`, and the
    /// span at `i`, if there is one, starts behind `x`, no span contains `x`.
    proof fn lemma_gap(&self, i: int, x: int)
        requires
            self.wf(),
            0 <= i <= self@.len(),
            forall|j: int| 0 <= j < i ==> (#[trigger] self@[j]).range.end <= x,
            i < self@.len() ==> self@[i].range.start > x,
        ensures
            !covered(self@, x),
    {
        if covered(self@, x) {
            let j = choose|j: int| 0 <= j < self@.len() && (#[trigger] self@[j]).range.contains(x);
            if j > i {
                assert(self@[i].range.end <= self@[j].range.start);
                assert(self@[i].range.start < self@[i].range.end);
            }
            assert(false);
        }
    }

    /// The nearest offset behind `pos` at which a span starts or ends, or
    /// `limit` where there is none in front of it. The store gives one value
    /// to all of `[pos, b)`.
    pub fn next_boundary(&self, pos: usize, limit: usize) -> (b: usize)
        requires
            self.wf(),
            pos < limit,
        ensures
            pos < b <= limit,
            b == limit || is_boundary(self@, b as int),
            forall|y: int| pos < y < b ==> !is_boundary(self@, y),
            forall|x: int|
                pos <= x < b ==> #[trigger] value_at(self@, x) == value_at(self@, pos as int),
    {
        let i = self.first_ending_after(pos);
        let mut b: usize = limit;
        if i < self.spans.len() {
            let s = self.spans[i];
            let edge: usize = if s.range.start > pos { s.range.start } else { s.range.end };
            if edge < limit {
                b = edge;
            }
        }
        proof {
            assert forall|y: int| pos < y < b implies !is_boundary(self@, y) by {
                if is_boundary(self@, y) {
                    let j = choose|j: int|
                        0 <= j < self@.len() && ((#[trigger] self@[j]).range.start == y
                            || self@[j].range.end == y);
                    assert(self@[j].range.start < self@[j].range.end);
                    if j > i {
                        assert(self@[i as int].range.end <= self@[j].range.start);
                        assert(self@[i as int].range.start < self@[i as int].range.end);
                    }
                    assert(false);
                }
            }
            assert forall|x: int| pos <= x < b implies #[trigger] value_at(self@, x) == value_at(
                self@,
                pos as int,
            ) by {
                if i < self@.len() && self@[i as int].range.start <= pos {
                    lemma_value_at(self@, i as int, x);
                    lemma_value_at(self@, i as int, pos as int);
                } else {
                    self.lemma_gap(i as int, x);
                    self.lemma_gap(i as int, pos as int);
                }
            }
        }
        b
    }

    /// Each stored span that reaches into `range`, clipped to it, in
    /// ascending order. Stretches of `range` that no span covers are absent.
    pub fn range_query(&self, range: ByteRange) -> (out: Vec<(ByteRange, T)>)
        ensures
            out@ == clipped(self@, range),
    {
        let mut out: Vec<(ByteRange, T)> = Vec::new();
        let n: usize = self.spans.len();
        let mut i: usize = 0;
        while i < n
            invariant
                i <= n,
                n == self@.len(),
                out@ == clipped(self@.take(i as int), range),
            decreases n - i,
        {
            let s = self.spans[i];
            let start: usize = if s.range.start >= range.start { s.range.start } else { range.start };
            let end: usize = if s.range.end <= range.end { s.range.end } else { range.end };
            proof {
                self@.lemma_filter_map_take_succ(|sp: Span<T>| clip(sp, range), i as int);
            }
            if start < end {
                out.push((ByteRange { start, end }, s.attr));
            }
            i += 1;
        }
        proof {
            assert(self@.take(n as int) == self@);
        }
        out
    }

    /// Makes `span.attr` the value of every offset of `span.range`,
    /// overwriting whatever part of a stored span lies in that range. An
    /// empty range changes nothing; a range whose start lies behind its end
    /// is rejected, and the store is left as it was.
    pub fn add(&mut self, span: Span<T>) -> (r: Result<(), SpanError>)
        requires
            old(self).wf(),
        ensures
            final(self).wf(),
            r == if span.range.start > span.range.end {
                Err::<(), SpanError>(SpanError::InvalidRange)
            } else {
                Ok::<(), SpanError>(())
            },
            final(self)@ == added(old(self)@, span),
            span.range.start <= span.range.end ==> forall|x: int|
                #[trigger] value_at(final(self)@, x) == if span.range.contains(x) {
                    Some(span.attr)
                } else {
                    value_at(old(self)@, x)
                },
    {
        if span.range.start > span.range.end {
            return Err(SpanError::InvalidRange);
        }
        if span.range.start == span.range.end {
            return Ok(());
        }
        let r = span.range;
        let ghost before = self@;
        let n: usize = self.spans.len();
        let mut out: Vec<Span<T>> = Vec::new();
        let mut i: usize = 0;
        while i < n
            invariant
                i <= n,
                n == self@.len(),
                self@ == before,
                out@ == kept_before(before.take(i as int), r),
            decreases n - i,
        {
            let s = self.spans[i];
            proof {
                before.lemma_filter_map_take_succ(|sp: Span<T>| part_before(sp, r), i as int);
            }
            if s.range.start < r.start {
                let end: usize = if s.range.end <= r.start { s.range.end } else { r.start };
                out.push(Span { range: ByteRange { start: s.range.start, end }, attr: s.attr });
            }
            i += 1;
        }
        proof {
            assert(before.take(n as int) == before);
        }
        out.push(span);
        i = 0;
        while i < n
            invariant
                i <= n,
                n == self@.len(),
                self@ == before,
                out@ == kept_before(before, r).push(span) + kept_after(before.take(i as int), r),
            decreases n - i,
        {
            let s = self.spans[i];
            proof {
                before.lemma_filter_map_take_succ(|sp: Span<T>| part_after(sp, r), i as int);
            }
            if s.range.end > r.end {
                let start: usize = if s.range.start >= r.end { s.range.start } else { r.end };
                out.push(Span { range: ByteRange { start, end: s.range.end }, attr: s.attr });
            }
            i += 1;
        }
        proof {
            assert(before.take(n as int) == before);
            lemma_overwritten(before, span);
        }
        self.spans = out;
        Ok(())
    }
}

impl<T: AttrValue> SpanSet<T> {
    /// As [`SpanSet::add`], and the new span is joined with a neighbour
    /// that touches it and carries an equal value, so that the list stays
    /// short. Every offset has the value that `add` would have given it.
    pub fn add_coalescing(&mut self, span: Span<T>) -> (r: Result<(), SpanError>)
        requires
            old(self).wf(),
        ensures
            final(self).wf(),
            r == if span.range.start > span.range.end {
                Err::<(), SpanError>(SpanError::InvalidRange)
            } else {
                Ok::<(), SpanError>(())
            },
            final(self)@ == added_coalescing(old(self)@, span),
            span.range.start <= span.range.end ==> forall|x: int|
                #[trigger] value_at(final(self)@, x) == if span.range.contains(x) {
                    Some(span.attr)
                } else {
                    value_at(old(self)@, x)
                },
    {
        if span.range.start >= span.range.end {
            return self.add(span);
        }
        let ghost before = self@;
        let mut start: usize = span.range.start;
        let mut end: usize = span.range.end;
        if start > 0 {
            match self.index_at(start - 1) {
                Some(i) => {
                    if self.spans[i].attr.same(&span.attr) {
                        start = self.spans[i].range.start;
                        proof {
                            assert forall|x: int| start <= x < span.range.start implies value_at(
                                before,
                                x,
                            ) == Some(span.attr) by {
                                lemma_value_at(before, i as int, x);
                            }
                        }
                    }
                },
                None => {},
            }
        } else {
            proof {
                if covered(before, -1) {
                    assert(false);
                }
            }
        }
        match self.index_at(span.range.end) {
            Some(i) => {
                if self.spans[i].attr.same(&span.attr) {
                    end = self.spans[i].range.end;
                    proof {
                        assert forall|x: int| span.range.end <= x < end implies value_at(
                            before,
                            x,
                        ) == Some(span.attr) by {
                            lemma_value_at(before, i as int, x);
                        }
                    }
                }
            },
            None => {},
        }
        self.add(Span { range: ByteRange { start, end }, attr: span.attr })
    }
}

} // verus!
