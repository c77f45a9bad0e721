use text_attributes::attribute::{Attribute, FontStyle};
use text_attributes::overlay::{AttributeSet, AttributeSpans};
use text_attributes::attribute::{FontFamily, FontWeight, Key, KeyOrValue};
use text_attributes::span::{check_range, ByteRange, SpanError};

fn base() -> AttributeSet {
    AttributeSet {
        family: FontFamily { id: 0 },
        size: KeyOrValue::Key(Key { id: 1 }),
        weight: FontWeight::normal(),
        fg_color: KeyOrValue::Key(Key { id: 2 }),
        style: FontStyle::Regular,
        underline: false,
        font_descriptor: KeyOrValue::Key(Key { id: 3 }),
    }
}

#[test]
fn range_on_character_boundaries_is_accepted() {
    let text = "h\u{e9}llo";
    assert_eq!(text.len(), 6);
    assert_eq!(check_range(text, ByteRange::new(0, 6)), Ok(()));
    assert_eq!(check_range(text, ByteRange::new(1, 3)), Ok(()));
    assert_eq!(check_range(text, ByteRange::new(3, 3)), Ok(()));
    assert_eq!(check_range(text, ByteRange::new(6, 6)), Ok(()));
    assert_eq!(check_range("", ByteRange::new(0, 0)), Ok(()));
}

#[test]
fn range_inside_a_character_is_rejected() {
    let text = "h\u{e9}llo";
    assert_eq!(check_range(text, ByteRange::new(0, 2)), Err(SpanError::InvalidRange));
    assert_eq!(check_range(text, ByteRange::new(2, 4)), Err(SpanError::InvalidRange));
}

#[test]
fn range_behind_the_text_is_rejected() {
    assert_eq!(check_range("hello", ByteRange::new(0, 6)), Err(SpanError::InvalidRange));
    assert_eq!(check_range("hello", ByteRange::new(7, 9)), Err(SpanError::InvalidRange));
}

#[test]
fn reversed_range_is_rejected_against_a_text() {
    assert_eq!(check_range("hello", ByteRange::new(3, 1)), Err(SpanError::InvalidRange));
}

#[test]
fn add_within_rejects_before_any_change() {
    let text = "h\u{e9}llo";
    let mut overlay = AttributeSpans::new();
    assert_eq!(overlay.add_within(text, ByteRange::new(0, 3), Attribute::underline(true)), Ok(()));
    assert_eq!(
        overlay.add_within(text, ByteRange::new(0, 2), Attribute::underline(false)),
        Err(SpanError::InvalidRange)
    );
    assert_eq!(
        overlay.add_within(text, ByteRange::new(0, 9), Attribute::underline(false)),
        Err(SpanError::InvalidRange)
    );
    assert_eq!(overlay.underline.spans().len(), 1);
    assert_eq!(overlay.underline.spans()[0].range, ByteRange::new(0, 3));
    assert_eq!(overlay.underline.spans()[0].attr, true);
}

#[test]
fn resolve_within_checks_the_range_first() {
    let text = "h\u{e9}llo";
    let mut overlay = AttributeSpans::new();
    assert_eq!(overlay.add_within(text, ByteRange::new(1, 3), Attribute::style(FontStyle::Italic)), Ok(()));
    assert_eq!(
        overlay.resolve_within(text, ByteRange::new(0, 7), &base()),
        Err(SpanError::InvalidRange)
    );
    assert_eq!(
        overlay.resolve_within(text, ByteRange::new(2, 6), &base()),
        Err(SpanError::InvalidRange)
    );
    let runs = overlay.resolve_within(text, ByteRange::new(0, 6), &base()).unwrap();
    let cuts: Vec<(usize, usize, FontStyle)> =
        runs.iter().map(|r| (r.range.start, r.range.end, r.attrs.style)).collect();
    assert_eq!(
        cuts,
        vec![(0, 1, FontStyle::Regular), (1, 3, FontStyle::Italic), (3, 6, FontStyle::Regular)]
    );
}
