//! The overlay: one interval store per attribute category, and the runs of
//! uniform attributes that the stores define together.

use crate::attribute::{
    AttrValue, Attribute, Category, Color, FontDescriptor, FontFamily, FontSize, FontStyle, FontWeight,
    KeyOrValue,
};
use crate::span::{
    added, check_range, fits, value_at, value_or, well_formed, ByteRange, Span, SpanError, SpanSet,
};
use vstd::prelude::*;
use vstd::string::StringSliceAdditionalSpecFns;

verus! {

/// One value for each category: the defaults handed to a query, and the
/// attributes of a run.
#[derive(Clone, Copy, Debug, PartialEq, Eq)]
pub struct AttributeSet {
    pub family: FontFamily,
    pub size: KeyOrValue<FontSize>,
    pub weight: FontWeight,
    pub fg_color: KeyOrValue<Color>,
    pub style: FontStyle,
    pub underline: bool,
    pub font_descriptor: KeyOrValue<FontDescriptor>,
}

impl AttrValue for AttributeSet {
    fn same(&self, other: &Self) -> (r: bool) {
        self.family.same(&other.family) && self.size.same(&other.size) && self.weight.same(
            &other.weight,
        ) && self.fg_color.same(&other.fg_color) && self.style.same(&other.style)
            && self.underline.same(&other.underline) && self.font_descriptor.same(
            &other.font_descriptor,
        )
    }
}

/// A stretch of text whose every offset has the same attributes.
#[derive(Clone, Copy, Debug, PartialEq, Eq)]
pub struct ResolvedRun {
    pub range: ByteRange,
    pub attrs: AttributeSet,
}

/// What an overlay holds: the span list of each category.
pub struct OverlayView {
    pub family: Seq<Span<FontFamily>>,
    pub size: Seq<Span<KeyOrValue<FontSize>>>,
    pub weight: Seq<Span<FontWeight>>,
    pub fg_color: Seq<Span<KeyOrValue<Color>>>,
    pub style: Seq<Span<FontStyle>>,
    pub underline: Seq<Span<bool>>,
    pub font_descriptor: Seq<Span<KeyOrValue<FontDescriptor>>>,
}

impl OverlayView {
    pub open spec fn wf(self) -> bool {
        &&& well_formed(self.family)
        &&& well_formed(self.size)
        &&& well_formed(self.weight)
        &&& well_formed(self.fg_color)
        &&& well_formed(self.style)
        &&& well_formed(self.underline)
        &&& well_formed(self.font_descriptor)
    }

    /// The overlay after `attr` was added over `range`: the list of the
    /// attribute's category takes the new span, the other six stay.
    pub open spec fn added(self, range: ByteRange, attr: Attribute) -> OverlayView {
        match attr {
            Attribute::FontFamily(a) => OverlayView {
                family: added(self.family, Span { range, attr: a }),
                ..self
            },
            Attribute::FontSize(a) => OverlayView {
                size: added(self.size, Span { range, attr: a }),
                ..self
            },
            Attribute::Weight(a) => OverlayView {
                weight: added(self.weight, Span { range, attr: a }),
                ..self
            },
            Attribute::ForegroundColor(a) => OverlayView {
                fg_color: added(self.fg_color, Span { range, attr: a }),
                ..self
            },
            Attribute::Style(a) => OverlayView {
                style: added(self.style, Span { range, attr: a }),
                ..self
            },
            Attribute::Underline(a) => OverlayView {
                underline: added(self.underline, Span { range, attr: a }),
                ..self
            },
            Attribute::Descriptor(a) => OverlayView {
                font_descriptor: added(self.font_descriptor, Span { range, attr: a }),
                ..self
            },
        }
    }

    /// The attributes of the offset `x`: in each category the value of the
    /// span that contains `x`, or the default where none does.
    #[verifier::opaque]
    pub open spec fn resolved_at(self, x: int, defaults: AttributeSet) -> AttributeSet {
        AttributeSet {
            family: value_or(self.family, x, defaults.family),
            size: value_or(self.size, x, defaults.size),
            weight: value_or(self.weight, x, defaults.weight),
            fg_color: value_or(self.fg_color, x, defaults.fg_color),
            style: value_or(self.style, x, defaults.style),
            underline: value_or(self.underline, x, defaults.underline),
            font_descriptor: value_or(self.font_descriptor, x, defaults.font_descriptor),
        }
    }
}

impl AttributeSet {
    /// The set with family, size, weight and style taken from `font`.
    pub open spec fn with_font(self, font: FontDescriptor) -> AttributeSet {
        AttributeSet {
            family: font.family,
            size: KeyOrValue::Concrete(font.size),
            weight: font.weight,
            style: font.style,
            ..self
        }
    }

    /// The set with family, size, weight and style taken from `font`.
    pub fn set_font(&self, font: FontDescriptor) -> (r: AttributeSet)
        ensures
            r == self.with_font(font),
    {
        AttributeSet {
            family: font.family,
            size: KeyOrValue::Concrete(font.size),
            weight: font.weight,
            fg_color: self.fg_color,
            style: font.style,
            underline: self.underline,
            font_descriptor: self.font_descriptor,
        }
    }
}

impl OverlayView {
    /// The defaults in force at the offset `x`. Plainly they are `defaults`
    /// everywhere. Layered, a font descriptor that a span gives `x` by value
    /// supplies the defaults of the four categories that it bundles.
    pub open spec fn defaults_at(self, x: int, defaults: AttributeSet, layered: bool)
        -> AttributeSet {
        match value_at(self.font_descriptor, x) {
            Some(KeyOrValue::Concrete(font)) => if layered {
                defaults.with_font(font)
            } else {
                defaults
            },
            _ => defaults,
        }
    }

    /// The attributes of the offset `x` over the defaults in force there.
    /// Layered, an attribute that names a part of the font wins over the
    /// descriptor, and the descriptor over `defaults`.
    #[verifier::opaque]
    pub open spec fn attributes(self, x: int, defaults: AttributeSet, layered: bool)
        -> AttributeSet {
        self.resolved_at(x, self.defaults_at(x, defaults, layered))
    }
}

/// Run `k` ends where the next one starts.
pub open spec fn touches(runs: Seq<ResolvedRun>, k: int) -> bool {
    runs[k].range.end == runs[k + 1].range.start
}

/// Run `k` and the next one carry different attributes.
pub open spec fn differs(runs: Seq<ResolvedRun>, k: int) -> bool {
    runs[k].attrs != runs[k + 1].attrs
}

/// The runs are non-empty, each starts where the one before it ends, and
/// together they reach from the start of `range` to its end. An empty range
/// has no runs.
pub open spec fn partitions(runs: Seq<ResolvedRun>, range: ByteRange) -> bool {
    &&& forall|k: int|
        0 <= k < runs.len() ==> (#[trigger] runs[k]).range.start < runs[k].range.end
    &&& forall|k: int| 0 <= k < runs.len() - 1 ==> #[trigger] touches(runs, k)
    &&& if range.start < range.end {
        runs.len() > 0 && runs[0].range.start == range.start && runs.last().range.end
            == range.end
    } else {
        runs.len() == 0
    }
}

/// The runs partition `range`, each carries the attributes that the overlay
/// gives every one of its offsets, plainly or layered, and no two neighbours
/// carry the same attributes, so that each run is as long as it can be.
pub open spec fn is_resolution(
    runs: Seq<ResolvedRun>,
    v: OverlayView,
    range: ByteRange,
    defaults: AttributeSet,
    layered: bool,
) -> bool {
    &&& partitions(runs, range)
    &&& forall|k: int, x: int|
        0 <= k < runs.len() && #[trigger] runs[k].range.contains(x) ==> runs[k].attrs
            == v.attributes(x, defaults, layered)
    &&& forall|k: int| 0 <= k < runs.len() - 1 ==> #[trigger] differs(runs, k)
}

/// Within a partition each run ends at or before the start of every later
/// one.
pub proof fn lemma_runs_ascend(runs: Seq<ResolvedRun>, range: ByteRange, i: int, j: int)
    requires
        partitions(runs, range),
        0 <= i < j < runs.len(),
    ensures
        runs[i].range.end <= runs[j].range.start,
    decreases j - i,
{
    assert(touches(runs, j - 1));
    if i < j - 1 {
        lemma_runs_ascend(runs, range, i, j - 1);
        assert(runs[j - 1].range.start < runs[j - 1].range.end);
    }
}

/// An offset between the start of the first run and the end of run `k`
/// lies in one of the runs up to `k`.
proof fn lemma_run_of(runs: Seq<ResolvedRun>, range: ByteRange, k: int, x: int) -> (m: int)
    requires
        partitions(runs, range),
        0 <= k < runs.len(),
        runs[0].range.start <= x < runs[k].range.end,
    ensures
        0 <= m <= k,
        runs[m].range.contains(x),
    decreases k,
{
    if runs[k].range.start <= x {
        k
    } else {
        assert(touches(runs, k - 1));
        lemma_run_of(runs, range, k - 1, x)
    }
}

/// The runs of a partition are sorted, pairwise disjoint, and cover the
/// range exactly: an offset lies in some run if and only if it lies in the
/// range.
pub proof fn lemma_partition_exact(runs: Seq<ResolvedRun>, range: ByteRange)
    requires
        partitions(runs, range),
    ensures
        forall|i: int, j: int|
            0 <= i < j < runs.len() ==> (#[trigger] runs[i]).range.end <= (
            #[trigger] runs[j]).range.start,
        forall|i: int, j: int, x: int|
            0 <= i < j < runs.len() ==> !(#[trigger] runs[i].range.contains(x)
                && #[trigger] runs[j].range.contains(x)),
        forall|x: int|
            #[trigger] range.contains(x) <==> exists|k: int|
                0 <= k < runs.len() && (#[trigger] runs[k]).range.contains(x),
{
    assert forall|i: int, j: int| 0 <= i < j < runs.len() implies (#[trigger] runs[i]).range.end
        <= (#[trigger] runs[j]).range.start by {
        lemma_runs_ascend(runs, range, i, j);
    }
    assert forall|x: int| #[trigger]
        range.contains(x) <==> exists|k: int|
            0 <= k < runs.len() && (#[trigger] runs[k]).range.contains(x) by {
        if range.contains(x) {
            let m = lemma_run_of(runs, range, runs.len() - 1, x);
            assert(runs[m].range.contains(x));
        }
        if exists|k: int| 0 <= k < runs.len() && (#[trigger] runs[k]).range.contains(x) {
            let k = choose|k: int| 0 <= k < runs.len() && (#[trigger] runs[k]).range.contains(x);
            assert(runs[k].range.start < runs[k].range.end);
            if 0 < k {
                lemma_runs_ascend(runs, range, 0, k);
                assert(runs[0].range.start < runs[0].range.end);
            }
            if k < runs.len() - 1 {
                lemma_runs_ascend(runs, range, k, runs.len() - 1);
                assert(runs[runs.len() - 1].range.start < runs[runs.len() - 1].range.end);
            }
        }
    }
}

/// Every run of a partition lies inside the range, and only the last one
/// reaches the range's end.
proof fn lemma_run_within(runs: Seq<ResolvedRun>, range: ByteRange, k: int)
    requires
        partitions(runs, range),
        0 <= k < runs.len(),
    ensures
        range.start <= runs[k].range.start,
        runs[k].range.end <= range.end,
        k < runs.len() - 1 ==> runs[k].range.end < range.end,
{
    let last = runs.len() - 1;
    assert(runs[0].range.start < runs[0].range.end);
    assert(runs[last].range.start < runs[last].range.end);
    if k < last {
        lemma_runs_ascend(runs, range, k, last);
    }
    if 0 < k {
        lemma_runs_ascend(runs, range, 0, k);
    }
}

/// Two resolutions of one range cannot have runs that start together and
/// end apart: the shorter run would be followed by one with its own
/// attributes.
proof fn lemma_runs_end_together(
    a: Seq<ResolvedRun>,
    b: Seq<ResolvedRun>,
    v: OverlayView,
    range: ByteRange,
    defaults: AttributeSet,
    layered: bool,
    k: int,
)
    requires
        is_resolution(a, v, range, defaults, layered),
        is_resolution(b, v, range, defaults, layered),
        0 <= k < a.len(),
        0 <= k < b.len(),
        a[k].range.start == b[k].range.start,
    ensures
        a[k].range.end >= b[k].range.end,
{
    if a[k].range.end < b[k].range.end {
        let s = a[k].range.start as int;
        let x = a[k].range.end as int;
        lemma_run_within(b, range, k);
        assert(a[k].range.start < a[k].range.end);
        assert(touches(a, k));
        assert(differs(a, k));
        assert(a[k + 1].range.start < a[k + 1].range.end);
        assert(a[k].range.contains(s));
        assert(b[k].range.contains(s));
        assert(a[k + 1].range.contains(x));
        assert(b[k].range.contains(x));
        assert(false);
    }
}

/// Two resolutions of one range agree on every run that the first one has.
proof fn lemma_same_runs(
    a: Seq<ResolvedRun>,
    b: Seq<ResolvedRun>,
    v: OverlayView,
    range: ByteRange,
    defaults: AttributeSet,
    layered: bool,
    k: int,
)
    requires
        is_resolution(a, v, range, defaults, layered),
        is_resolution(b, v, range, defaults, layered),
        0 <= k < a.len(),
    ensures
        k < b.len(),
        a[k] == b[k],
    decreases k,
{
    assert(a[k].range.start < a[k].range.end);
    lemma_run_within(a, range, k);
    if k > 0 {
        lemma_same_runs(a, b, v, range, defaults, layered, k - 1);
        assert(touches(a, k - 1));
        assert(touches(b, k - 1));
    }
    assert(b[k].range.start < b[k].range.end);
    lemma_runs_end_together(a, b, v, range, defaults, layered, k);
    lemma_runs_end_together(b, a, v, range, defaults, layered, k);
    assert(a[k].range.contains(a[k].range.start as int));
    assert(b[k].range.contains(a[k].range.start as int));
}

/// A range has one resolution only: runs that partition the range, carry
/// the attributes of their offsets and differ from their neighbours are the
/// runs that [`AttributeSpans::resolve`] or
/// [`AttributeSpans::resolve_layered`] returns.
pub proof fn lemma_resolution_unique(
    a: Seq<ResolvedRun>,
    b: Seq<ResolvedRun>,
    v: OverlayView,
    range: ByteRange,
    defaults: AttributeSet,
    layered: bool,
)
    requires
        is_resolution(a, v, range, defaults, layered),
        is_resolution(b, v, range, defaults, layered),
    ensures
        a == b,
{
    if a.len() > 0 {
        lemma_same_runs(a, b, v, range, defaults, layered, a.len() - 1);
    }
    if b.len() > 0 {
        lemma_same_runs(b, a, v, range, defaults, layered, b.len() - 1);
    }
    assert forall|k: int| 0 <= k < a.len() implies a[k] == b[k] by {
        lemma_same_runs(a, b, v, range, defaults, layered, k);
    }
    assert(a =~= b);
}

/// In the layered attributes of an offset the weight is that of the weight
/// span that contains the offset; where there is none, that of the font
/// descriptor which a span gives the offset by value; and the default only
/// where there is neither.
pub proof fn lemma_layered_weight(v: OverlayView, x: int, defaults: AttributeSet)
    ensures
        v.attributes(x, defaults, true).weight == match value_at(v.weight, x) {
            Some(w) => w,
            None => match value_at(v.font_descriptor, x) {
                Some(KeyOrValue::Concrete(font)) => font.weight,
                _ => defaults.weight,
            },
        },
        v.attributes(x, defaults, true).font_descriptor == value_or(
            v.font_descriptor,
            x,
            defaults.font_descriptor,
        ),
{
    reveal(OverlayView::attributes);
    reveal(OverlayView::resolved_at);
}

/// Adding an attribute changes the store of its own category at most: the
/// span lists of the six other categories are what they were.
pub proof fn lemma_add_leaves_other_categories(v: OverlayView, range: ByteRange, attr: Attribute)
    ensures
        attr.category_of() != Category::FontFamily ==> v.added(range, attr).family == v.family,
        attr.category_of() != Category::FontSize ==> v.added(range, attr).size == v.size,
        attr.category_of() != Category::Weight ==> v.added(range, attr).weight == v.weight,
        attr.category_of() != Category::ForegroundColor ==> v.added(range, attr).fg_color
            == v.fg_color,
        attr.category_of() != Category::Style ==> v.added(range, attr).style == v.style,
        attr.category_of() != Category::Underline ==> v.added(range, attr).underline
            == v.underline,
        attr.category_of() != Category::FontDescriptor ==> v.added(range, attr).font_descriptor
            == v.font_descriptor,
{
}

/// The attribute spans of one text buffer, by category.
pub struct AttributeSpans {
    pub family: SpanSet<FontFamily>,
    pub size: SpanSet<KeyOrValue<FontSize>>,
    pub weight: SpanSet<FontWeight>,
    pub fg_color: SpanSet<KeyOrValue<Color>>,
    pub style: SpanSet<FontStyle>,
    pub underline: SpanSet<bool>,
    pub font_descriptor: SpanSet<KeyOrValue<FontDescriptor>>,
}

impl View for AttributeSpans {
    type V = OverlayView;

    open spec fn view(&self) -> OverlayView {
        OverlayView {
            family: self.family@,
            size: self.size@,
            weight: self.weight@,
            fg_color: self.fg_color@,
            style: self.style@,
            underline: self.underline@,
            font_descriptor: self.font_descriptor@,
        }
    }
}

impl AttributeSpans {
    /// Every category's store is well formed.
    pub open spec fn wf(&self) -> bool {
        self@.wf()
    }

    /// An overlay without spans.
    pub fn new() -> (r: Self)
        ensures
            r.wf(),
            r@.family.len() == 0,
            r@.size.len() == 0,
            r@.weight.len() == 0,
            r@.fg_color.len() == 0,
            r@.style.len() == 0,
            r@.underline.len() == 0,
            r@.font_descriptor.len() == 0,
    {
        AttributeSpans {
            family: SpanSet::new(),
            size: SpanSet::new(),
            weight: SpanSet::new(),
            fg_color: SpanSet::new(),
            style: SpanSet::new(),
            underline: SpanSet::new(),
            font_descriptor: SpanSet::new(),
        }
    }

    /// Adds `attr` over `range` to the store of its category. A range whose
    /// start lies behind its end is rejected and nothing changes.
    pub fn add(&mut self, range: ByteRange, attr: Attribute) -> (r: Result<(), SpanError>)
        requires
            old(self).wf(),
        ensures
            final(self).wf(),
            r == if range.start > range.end {
                Err::<(), SpanError>(SpanError::InvalidRange)
            } else {
                Ok::<(), SpanError>(())
            },
            final(self)@ == old(self)@.added(range, attr),
    {
        match attr {
            Attribute::FontFamily(a) => self.family.add(Span::new(range, a)),
            Attribute::FontSize(a) => self.size.add(Span::new(range, a)),
            Attribute::Weight(a) => self.weight.add(Span::new(range, a)),
            Attribute::ForegroundColor(a) => self.fg_color.add(Span::new(range, a)),
            Attribute::Style(a) => self.style.add(Span::new(range, a)),
            Attribute::Underline(a) => self.underline.add(Span::new(range, a)),
            Attribute::Descriptor(a) => self.font_descriptor.add(Span::new(range, a)),
        }
    }

    /// As [`AttributeSpans::add`], for a range that is meant for `text`: a
    /// range that does not fit the text is rejected and nothing changes.
    pub fn add_within(&mut self, text: &str, range: ByteRange, attr: Attribute) -> (r: Result<
        (),
        SpanError,
    >)
        requires
            old(self).wf(),
        ensures
            final(self).wf(),
            r == if fits(text.spec_bytes(), range) {
                Ok::<(), SpanError>(())
            } else {
                Err::<(), SpanError>(SpanError::InvalidRange)
            },
            final(self)@ == if fits(text.spec_bytes(), range) {
                old(self)@.added(range, attr)
            } else {
                old(self)@
            },
    {
        match check_range(text, range) {
            Ok(_) => self.add(range, attr),
            Err(e) => Err(e),
        }
    }

    /// The value of every category at `offset`.
    pub fn attributes_at(&self, offset: usize, defaults: &AttributeSet) -> (r: AttributeSet)
        requires
            self.wf(),
        ensures
            r == self@.resolved_at(offset as int, *defaults),
            r == self@.attributes(offset as int, *defaults, false),
    {
        reveal(OverlayView::resolved_at);
        reveal(OverlayView::attributes);
        AttributeSet {
            family: self.family.value_or(offset, defaults.family),
            size: self.size.value_or(offset, defaults.size),
            weight: self.weight.value_or(offset, defaults.weight),
            fg_color: self.fg_color.value_or(offset, defaults.fg_color),
            style: self.style.value_or(offset, defaults.style),
            underline: self.underline.value_or(offset, defaults.underline),
            font_descriptor: self.font_descriptor.value_or(offset, defaults.font_descriptor),
        }
    }

    /// The value of every category at `offset`, layered: where a span gives
    /// the offset a font descriptor by value, the descriptor's family, size,
    /// weight and style stand in for the defaults of these categories.
    pub fn layered_at(&self, offset: usize, defaults: &AttributeSet) -> (r: AttributeSet)
        requires
            self.wf(),
        ensures
            r == self@.attributes(offset as int, *defaults, true),
    {
        reveal(OverlayView::attributes);
        let base = self.defaults_at(offset, defaults, true);
        self.attributes_at(offset, &base)
    }

    /// The defaults in force at `offset`.
    fn defaults_at(&self, offset: usize, defaults: &AttributeSet, layered: bool) -> (r:
        AttributeSet)
        requires
            self.wf(),
        ensures
            r == self@.defaults_at(offset as int, *defaults, layered),
    {
        if layered {
            match self.font_descriptor.point_query(offset) {
                Some(KeyOrValue::Concrete(font)) => defaults.set_font(*font),
                _ => *defaults,
            }
        } else {
            *defaults
        }
    }

    /// The attributes of `pos`, and the nearest offset behind `pos`, at most
    /// `limit`, up to which every offset has the same attributes.
    fn run_from(&self, pos: usize, limit: usize, defaults: &AttributeSet, layered: bool) -> (r: (
        AttributeSet,
        usize,
    ))
        requires
            self.wf(),
            pos < limit,
        ensures
            pos < r.1 <= limit,
            forall|x: int|
                pos <= x < r.1 ==> #[trigger] self@.attributes(x, *defaults, layered) == r.0,
    {
        reveal(OverlayView::attributes);
        let base = self.defaults_at(pos, defaults, layered);
        let attrs = self.attributes_at(pos, &base);
        let next = self.next_boundary(pos, limit, &base);
        proof {
            assert forall|x: int| pos <= x < next implies #[trigger] self@.attributes(
                x,
                *defaults,
                layered,
            ) == attrs by {
                assert(value_at(self@.font_descriptor, x) == value_at(
                    self@.font_descriptor,
                    pos as int,
                ));
                assert(self@.resolved_at(x, base) == self@.resolved_at(pos as int, base));
            }
        }
        (attrs, next)
    }

    /// The nearest offset behind `pos`, at most `limit`, at which a span of
    /// any category starts or ends. All of `[pos, b)` has the attributes of
    /// `pos`.
    fn next_boundary(&self, pos: usize, limit: usize, defaults: &AttributeSet) -> (b: usize)
        requires
            self.wf(),
            pos < limit,
        ensures
            pos < b <= limit,
            forall|x: int|
                pos <= x < b ==> #[trigger] self@.resolved_at(x, *defaults) == self@.resolved_at(
                    pos as int,
                    *defaults,
                ),
            forall|x: int|
                pos <= x < b ==> #[trigger] value_at(self@.font_descriptor, x) == value_at(
                    self@.font_descriptor,
                    pos as int,
                ),
    {
        reveal(OverlayView::resolved_at);
        let b = self.family.next_boundary(pos, limit);
        let b = self.size.next_boundary(pos, b);
        let b = self.weight.next_boundary(pos, b);
        let b = self.fg_color.next_boundary(pos, b);
        let b = self.style.next_boundary(pos, b);
        let b = self.underline.next_boundary(pos, b);
        let b = self.font_descriptor.next_boundary(pos, b);
        b
    }

    /// As [`AttributeSpans::resolve`], for a range that is meant for `text`:
    /// a range that does not fit the text is rejected.
    pub fn resolve_within(&self, text: &str, range: ByteRange, defaults: &AttributeSet) -> (r:
        Result<Vec<ResolvedRun>, SpanError>)
        requires
            self.wf(),
        ensures
            match r {
                Ok(runs) => fits(text.spec_bytes(), range) && is_resolution(
                    runs@,
                    self@,
                    range,
                    *defaults,
                    false,
                ),
                Err(e) => !fits(text.spec_bytes(), range) && e == SpanError::InvalidRange,
            },
    {
        match check_range(text, range) {
            Ok(_) => self.resolve(range, defaults),
            Err(e) => Err(e),
        }
    }

    /// Cuts `range` into the longest runs of uniform attributes, in
    /// ascending order. Each category has the value of the span that covers
    /// the run, or its default. A range without offsets has no runs; a range
    /// whose start lies behind its end is rejected.
    pub fn resolve(&self, range: ByteRange, defaults: &AttributeSet) -> (r: Result<
        Vec<ResolvedRun>,
        SpanError,
    >)
        requires
            self.wf(),
        ensures
            match r {
                Ok(runs) => range.start <= range.end && is_resolution(
                    runs@,
                    self@,
                    range,
                    *defaults,
                    false,
                ),
                Err(e) => range.start > range.end && e == SpanError::InvalidRange,
            },
    {
        self.runs_of(range, defaults, false)
    }

    /// As [`AttributeSpans::resolve`], layered: where no span names the
    /// family, size, weight or style of a run, the font descriptor that
    /// covers the run supplies it, if it is given by value, and the default
    /// only where there is none.
    pub fn resolve_layered(&self, range: ByteRange, defaults: &AttributeSet) -> (r: Result<
        Vec<ResolvedRun>,
        SpanError,
    >)
        requires
            self.wf(),
        ensures
            match r {
                Ok(runs) => range.start <= range.end && is_resolution(
                    runs@,
                    self@,
                    range,
                    *defaults,
                    true,
                ),
                Err(e) => range.start > range.end && e == SpanError::InvalidRange,
            },
    {
        self.runs_of(range, defaults, true)
    }

    fn runs_of(&self, range: ByteRange, defaults: &AttributeSet, layered: bool) -> (r: Result<
        Vec<ResolvedRun>,
        SpanError,
    >)
        requires
            self.wf(),
        ensures
            match r {
                Ok(runs) => range.start <= range.end && is_resolution(
                    runs@,
                    self@,
                    range,
                    *defaults,
                    layered,
                ),
                Err(e) => range.start > range.end && e == SpanError::InvalidRange,
            },
    {
        if range.start > range.end {
            return Err(SpanError::InvalidRange);
        }
        let mut runs: Vec<ResolvedRun> = Vec::new();
        let mut pos: usize = range.start;
        while pos < range.end
            invariant
                self.wf(),
                range.start <= pos <= range.end,
                is_resolution(
                    runs@,
                    self@,
                    ByteRange { start: range.start, end: pos },
                    *defaults,
                    layered,
                ),
            decreases range.end - pos,
        {
            let (attrs, next) = self.run_from(pos, range.end, defaults, layered);
            let n: usize = runs.len();
            let ghost before = runs@;
            if n > 0 && runs[n - 1].attrs.same(&attrs) {
                let last = runs[n - 1];
                runs.set(
                    n - 1,
                    ResolvedRun {
                        range: ByteRange { start: last.range.start, end: next },
                        attrs: last.attrs,
                    },
                );
                proof {
                    assert forall|k: int, x: int|
                        0 <= k < runs@.len() && #[trigger] runs@[k].range.contains(
                            x,
                        ) implies runs@[k].attrs == self@.attributes(x, *defaults, layered) by {
                        if k == n - 1 && x >= pos {
                            assert(self@.attributes(x, *defaults, layered) == attrs);
                        } else {
                            assert(before[k].range.contains(x));
                        }
                    }
                    assert forall|k: int| 0 <= k < runs@.len() - 1 implies #[trigger] differs(
                        runs@,
                        k,
                    ) by {
                        assert(differs(before, k));
                    }
                    assert forall|k: int| 0 <= k < runs@.len() - 1 implies #[trigger] touches(
                        runs@,
                        k,
                    ) by {
                        assert(touches(before, k));
                    }
                    assert forall|k: int| 0 <= k < runs@.len() implies (
                    #[trigger] runs@[k]).range.start < runs@[k].range.end by {
                        assert(before[k].range.start < before[k].range.end);
                    }
                }
            } else {
                runs.push(ResolvedRun { range: ByteRange { start: pos, end: next }, attrs });
                proof {
                    assert forall|k: int, x: int|
                        0 <= k < runs@.len() && #[trigger] runs@[k].range.contains(
                            x,
                        ) implies runs@[k].attrs == self@.attributes(x, *defaults, layered) by {
                        if k == n {
                            assert(self@.attributes(x, *defaults, layered) == attrs);
                        } else {
                            assert(before[k].range.contains(x));
                        }
                    }
                    assert forall|k: int| 0 <= k < runs@.len() - 1 implies #[trigger] differs(
                        runs@,
                        k,
                    ) by {
                        if k < n - 1 {
                            assert(differs(before, k));
                        }
                    }
                    assert forall|k: int| 0 <= k < runs@.len() - 1 implies #[trigger] touches(
                        runs@,
                        k,
                    ) by {
                        if k < n - 1 {
                            assert(touches(before, k));
                        }
                    }
                    assert forall|k: int| 0 <= k < runs@.len() implies (
                    #[trigger] runs@[k]).range.start < runs@[k].range.end by {
                        if k < n {
                            assert(before[k].range.start < before[k].range.end);
                        }
                    }
                }
            }
            pos = next;
        }
        Ok(runs)
    }
}

} // verus!
