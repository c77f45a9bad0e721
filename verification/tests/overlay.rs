use text_attributes::attribute::{
    AttrValue, Attribute, Category, Color, FontDescriptor, FontFamily, FontSize, FontStyle,
    FontWeight, Key, KeyOrValue,
};
use text_attributes::overlay::{AttributeSet, AttributeSpans, ResolvedRun};
use text_attributes::span::{ByteRange, SpanError};

fn defaults() -> AttributeSet {
    AttributeSet {
        family: FontFamily { id: 0 },
        size: KeyOrValue::Key(Key { id: 1 }),
        weight: FontWeight::normal(),
        fg_color: KeyOrValue::Key(Key { id: 2 }),
        style: FontStyle::Regular,
        underline: false,
        font_descriptor: KeyOrValue::Key(Key { id: 3 }),
    }
}

fn light_serif() -> FontDescriptor {
    FontDescriptor {
        family: FontFamily { id: 7 },
        size: FontSize { bits: 12.0f64.to_bits() },
        weight: FontWeight::new(300),
        style: FontStyle::Italic,
    }
}

fn ranges(runs: &[ResolvedRun]) -> Vec<(usize, usize)> {
    runs.iter().map(|r| (r.range.start, r.range.end)).collect()
}

#[test]
fn sort_order_puts_descriptors_first() {
    assert_eq!(Attribute::font_descriptor(KeyOrValue::Concrete(light_serif())).sort_order(), 0);
    assert_eq!(Attribute::font_descriptor(KeyOrValue::Key(Key { id: 4 })).sort_order(), 0);
    assert_eq!(Attribute::weight(FontWeight::bold()).sort_order(), 1);
    assert_eq!(Attribute::underline(true).sort_order(), 1);
    assert_eq!(Attribute::style(FontStyle::Italic).sort_order(), 1);
    assert_eq!(Attribute::font_family(FontFamily { id: 1 }).sort_order(), 1);
    assert_eq!(Attribute::size(KeyOrValue::Key(Key { id: 1 })).sort_order(), 1);
    assert_eq!(Attribute::foregound_color(KeyOrValue::Key(Key { id: 1 })).sort_order(), 1);
}

#[test]
fn builders_make_the_matching_variant() {
    let size = KeyOrValue::Concrete(FontSize { bits: 14.5f64.to_bits() });
    let color = KeyOrValue::Concrete(Color { rgba: 0xff00_00ff });
    assert_eq!(Attribute::size(size), Attribute::FontSize(size));
    assert_eq!(Attribute::foregound_color(color), Attribute::ForegroundColor(color));
    assert_eq!(
        Attribute::font_family(FontFamily { id: 3 }),
        Attribute::FontFamily(FontFamily { id: 3 })
    );
    assert_eq!(Attribute::weight(FontWeight::bold()), Attribute::Weight(FontWeight { value: 700 }));
    assert_eq!(Attribute::style(FontStyle::Italic), Attribute::Style(FontStyle::Italic));
    assert_eq!(Attribute::underline(true), Attribute::Underline(true));
    assert_eq!(
        Attribute::font_descriptor(KeyOrValue::Concrete(light_serif())),
        Attribute::Descriptor(KeyOrValue::Concrete(light_serif()))
    );
}

#[test]
fn each_attribute_names_its_category() {
    assert_eq!(Attribute::underline(true).category(), Category::Underline);
    assert_eq!(Attribute::weight(FontWeight::bold()).category(), Category::Weight);
    assert_eq!(Attribute::style(FontStyle::Regular).category(), Category::Style);
    assert_eq!(Attribute::font_family(FontFamily { id: 1 }).category(), Category::FontFamily);
    assert_eq!(Attribute::size(KeyOrValue::Key(Key { id: 1 })).category(), Category::FontSize);
    assert_eq!(
        Attribute::foregound_color(KeyOrValue::Key(Key { id: 1 })).category(),
        Category::ForegroundColor
    );
    assert_eq!(
        Attribute::font_descriptor(KeyOrValue::Key(Key { id: 1 })).category(),
        Category::FontDescriptor
    );
}

#[test]
fn same_agrees_with_equality() {
    let a = KeyOrValue::Concrete(light_serif());
    let mut other = light_serif();
    other.weight = FontWeight::bold();
    let b = KeyOrValue::Concrete(other);
    let k: KeyOrValue<FontDescriptor> = KeyOrValue::Key(Key { id: 1 });
    assert!(a.same(&a));
    assert!(!a.same(&b));
    assert!(!a.same(&k));
    assert!(k.same(&k));
    assert!(!k.same(&KeyOrValue::Key(Key { id: 2 })));
    assert!(FontStyle::Italic.same(&FontStyle::Italic));
    assert!(!FontStyle::Italic.same(&FontStyle::Regular));
    assert!(defaults().same(&defaults()));
    let mut d = defaults();
    d.underline = true;
    assert!(!d.same(&defaults()));
}

#[test]
fn add_goes_to_the_store_of_its_category_only() {
    let mut overlay = AttributeSpans::new();
    assert_eq!(overlay.add(ByteRange::new(0, 10), Attribute::underline(true)), Ok(()));
    assert_eq!(overlay.add(ByteRange::new(2, 5), Attribute::weight(FontWeight::bold())), Ok(()));
    assert_eq!(overlay.underline.spans().len(), 1);
    assert_eq!(overlay.underline.spans()[0].range, ByteRange::new(0, 10));
    assert_eq!(overlay.weight.spans().len(), 1);
    assert_eq!(overlay.weight.spans()[0].attr, FontWeight::bold());
    assert!(overlay.family.spans().is_empty());
    assert!(overlay.size.spans().is_empty());
    assert!(overlay.fg_color.spans().is_empty());
    assert!(overlay.style.spans().is_empty());
    assert!(overlay.font_descriptor.spans().is_empty());
}

#[test]
fn add_rejects_a_reversed_range_without_change() {
    let mut overlay = AttributeSpans::new();
    assert_eq!(overlay.add(ByteRange::new(0, 10), Attribute::underline(true)), Ok(()));
    assert_eq!(
        overlay.add(ByteRange::new(7, 3), Attribute::underline(false)),
        Err(SpanError::InvalidRange)
    );
    assert_eq!(overlay.underline.spans().len(), 1);
    assert_eq!(overlay.underline.spans()[0].attr, true);
}

#[test]
fn resolve_of_an_empty_overlay_is_one_default_run() {
    let overlay = AttributeSpans::new();
    let runs = overlay.resolve(ByteRange::new(3, 12), &defaults()).unwrap();
    assert_eq!(runs, vec![ResolvedRun { range: ByteRange::new(3, 12), attrs: defaults() }]);
}

#[test]
fn resolve_of_an_empty_range_has_no_runs() {
    let mut overlay = AttributeSpans::new();
    assert_eq!(overlay.add(ByteRange::new(0, 10), Attribute::underline(true)), Ok(()));
    assert_eq!(overlay.resolve(ByteRange::new(4, 4), &defaults()), Ok(vec![]));
}

#[test]
fn resolve_rejects_a_reversed_range() {
    let overlay = AttributeSpans::new();
    assert_eq!(overlay.resolve(ByteRange::new(5, 4), &defaults()), Err(SpanError::InvalidRange));
}

#[test]
fn resolve_cuts_at_the_boundaries_of_every_category() {
    let mut overlay = AttributeSpans::new();
    assert_eq!(overlay.add(ByteRange::new(2, 8), Attribute::underline(true)), Ok(()));
    assert_eq!(overlay.add(ByteRange::new(5, 12), Attribute::style(FontStyle::Italic)), Ok(()));
    let runs = overlay.resolve(ByteRange::new(0, 10), &defaults()).unwrap();
    assert_eq!(ranges(&runs), vec![(0, 2), (2, 5), (5, 8), (8, 10)]);
    let d = defaults();
    assert_eq!(runs[0].attrs, d);
    assert_eq!(runs[1].attrs, AttributeSet { underline: true, ..d });
    assert_eq!(runs[2].attrs, AttributeSet { underline: true, style: FontStyle::Italic, ..d });
    assert_eq!(runs[3].attrs, AttributeSet { style: FontStyle::Italic, ..d });
}

#[test]
fn resolve_runs_partition_the_range() {
    let mut overlay = AttributeSpans::new();
    let adds = [
        (1, 9, Attribute::underline(true)),
        (4, 30, Attribute::weight(FontWeight::bold())),
        (0, 3, Attribute::font_family(FontFamily { id: 5 })),
        (7, 8, Attribute::foregound_color(KeyOrValue::Concrete(Color { rgba: 1 }))),
        (8, 20, Attribute::size(KeyOrValue::Concrete(FontSize { bits: 9 }))),
    ];
    for (start, end, attr) in adds {
        assert_eq!(overlay.add(ByteRange::new(start, end), attr), Ok(()));
    }
    let range = ByteRange::new(2, 25);
    let runs = overlay.resolve(range, &defaults()).unwrap();
    assert_eq!(runs.first().unwrap().range.start, range.start);
    assert_eq!(runs.last().unwrap().range.end, range.end);
    for run in &runs {
        assert!(run.range.start < run.range.end);
        for x in run.range.start..run.range.end {
            assert_eq!(overlay.attributes_at(x, &defaults()), run.attrs);
        }
    }
    for pair in runs.windows(2) {
        assert_eq!(pair[0].range.end, pair[1].range.start);
        assert_ne!(pair[0].attrs, pair[1].attrs);
    }
    assert_eq!(ranges(&runs), vec![(2, 3), (3, 4), (4, 7), (7, 8), (8, 9), (9, 20), (20, 25)]);
}

#[test]
fn resolve_merges_runs_with_equal_attributes() {
    let mut overlay = AttributeSpans::new();
    assert_eq!(overlay.add(ByteRange::new(0, 4), Attribute::underline(true)), Ok(()));
    assert_eq!(overlay.add(ByteRange::new(4, 9), Attribute::underline(true)), Ok(()));
    assert_eq!(overlay.add(ByteRange::new(9, 12), Attribute::underline(false)), Ok(()));
    let runs = overlay.resolve(ByteRange::new(0, 20), &defaults()).unwrap();
    assert_eq!(ranges(&runs), vec![(0, 9), (9, 20)]);
    assert_eq!(runs[0].attrs.underline, true);
    assert_eq!(runs[1].attrs, defaults());
}

#[test]
fn resolve_clips_spans_that_reach_over_the_range() {
    let mut overlay = AttributeSpans::new();
    assert_eq!(overlay.add(ByteRange::new(0, 100), Attribute::underline(true)), Ok(()));
    let runs = overlay.resolve(ByteRange::new(10, 20), &defaults()).unwrap();
    assert_eq!(ranges(&runs), vec![(10, 20)]);
    assert_eq!(runs[0].attrs.underline, true);
}

#[test]
fn attributes_at_reads_every_category() {
    let mut overlay = AttributeSpans::new();
    let font = KeyOrValue::Concrete(light_serif());
    assert_eq!(overlay.add(ByteRange::new(0, 10), Attribute::font_descriptor(font)), Ok(()));
    assert_eq!(overlay.add(ByteRange::new(2, 5), Attribute::weight(FontWeight::bold())), Ok(()));
    let d = defaults();
    assert_eq!(
        overlay.attributes_at(3, &d),
        AttributeSet { weight: FontWeight::bold(), font_descriptor: font, ..d }
    );
    assert_eq!(overlay.attributes_at(7, &d), AttributeSet { font_descriptor: font, ..d });
    assert_eq!(overlay.attributes_at(10, &d), d);
}

#[test]
fn set_font_replaces_the_four_font_parts() {
    let d = defaults();
    let got = d.set_font(light_serif());
    assert_eq!(
        got,
        AttributeSet {
            family: FontFamily { id: 7 },
            size: KeyOrValue::Concrete(FontSize { bits: 12.0f64.to_bits() }),
            weight: FontWeight::new(300),
            style: FontStyle::Italic,
            ..d
        }
    );
}

#[test]
fn layered_at_prefers_named_parts_then_the_descriptor_then_defaults() {
    let mut overlay = AttributeSpans::new();
    let font = KeyOrValue::Concrete(light_serif());
    assert_eq!(overlay.add(ByteRange::new(0, 10), Attribute::font_descriptor(font)), Ok(()));
    assert_eq!(overlay.add(ByteRange::new(2, 5), Attribute::weight(FontWeight::bold())), Ok(()));
    assert_eq!(overlay.add(ByteRange::new(4, 12), Attribute::style(FontStyle::Regular)), Ok(()));
    let d = defaults();
    let from_font = d.set_font(light_serif());
    assert_eq!(overlay.layered_at(0, &d), AttributeSet { font_descriptor: font, ..from_font });
    assert_eq!(
        overlay.layered_at(3, &d),
        AttributeSet { weight: FontWeight::bold(), font_descriptor: font, ..from_font }
    );
    assert_eq!(
        overlay.layered_at(4, &d),
        AttributeSet {
            weight: FontWeight::bold(),
            style: FontStyle::Regular,
            font_descriptor: font,
            ..from_font
        }
    );
    assert_eq!(
        overlay.layered_at(7, &d),
        AttributeSet { style: FontStyle::Regular, font_descriptor: font, ..from_font }
    );
    assert_eq!(overlay.layered_at(11, &d), d);
}

#[test]
fn a_descriptor_given_by_key_supplies_no_defaults() {
    let mut overlay = AttributeSpans::new();
    let font = KeyOrValue::Key(Key { id: 8 });
    assert_eq!(overlay.add(ByteRange::new(0, 10), Attribute::font_descriptor(font)), Ok(()));
    let d = defaults();
    assert_eq!(overlay.layered_at(3, &d), AttributeSet { font_descriptor: font, ..d });
    assert_eq!(overlay.layered_at(3, &d), overlay.attributes_at(3, &d));
}

#[test]
fn layered_resolution_cuts_where_the_layered_attributes_change() {
    let mut overlay = AttributeSpans::new();
    let font = KeyOrValue::Concrete(light_serif());
    assert_eq!(overlay.add(ByteRange::new(2, 8), Attribute::font_descriptor(font)), Ok(()));
    assert_eq!(
        overlay.add(ByteRange::new(4, 6), Attribute::weight(FontWeight::new(300))),
        Ok(())
    );
    let d = defaults();
    let plain = overlay.resolve(ByteRange::new(0, 10), &d).unwrap();
    assert_eq!(ranges(&plain), vec![(0, 2), (2, 4), (4, 6), (6, 8), (8, 10)]);
    let layered = overlay.resolve_layered(ByteRange::new(0, 10), &d).unwrap();
    assert_eq!(ranges(&layered), vec![(0, 2), (2, 8), (8, 10)]);
    assert_eq!(layered[0].attrs, d);
    assert_eq!(layered[1].attrs, AttributeSet { font_descriptor: font, ..d.set_font(light_serif()) });
    assert_eq!(layered[2].attrs, d);
    for run in &layered {
        for x in run.range.start..run.range.end {
            assert_eq!(overlay.layered_at(x, &d), run.attrs);
        }
    }
}

#[test]
fn layered_resolution_rejects_and_empties_like_the_plain_one() {
    let overlay = AttributeSpans::new();
    assert_eq!(
        overlay.resolve_layered(ByteRange::new(5, 4), &defaults()),
        Err(SpanError::InvalidRange)
    );
    assert_eq!(overlay.resolve_layered(ByteRange::new(4, 4), &defaults()), Ok(vec![]));
    assert_eq!(
        overlay.resolve_layered(ByteRange::new(1, 4), &defaults()),
        overlay.resolve(ByteRange::new(1, 4), &defaults())
    );
}
