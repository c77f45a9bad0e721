//! The closed set of attribute categories and the values they carry.

use vstd::prelude::*;

verus! {

/// A value that can be tested for equality with another of its type.
pub trait AttrValue: Copy {
    /// True exactly when the two values are equal.
    fn same(&self, other: &Self) -> (r: bool)
        ensures
            r == (*self == *other),
    ;
}

/// The name of an entry of the theme, to be looked up when text is shaped.
#[derive(Clone, Copy, Debug, PartialEq, Eq)]
pub struct Key {
    pub id: u32,
}

/// Either a value or the theme key under which the value is found.
#[derive(Clone, Copy, Debug, PartialEq, Eq)]
pub enum KeyOrValue<T> {
    Concrete(T),
    Key(Key),
}

/// A font family, by its identifier.
#[derive(Clone, Copy, Debug, PartialEq, Eq)]
pub struct FontFamily {
    pub id: u32,
}

/// A font size in points, held as the 64-bit pattern of its binary encoding.
#[derive(Clone, Copy, Debug, PartialEq, Eq)]
pub struct FontSize {
    pub bits: u64,
}

/// A font weight on the usual scale from 1 to 1000.
#[derive(Clone, Copy, Debug, PartialEq, Eq)]
pub struct FontWeight {
    pub value: u16,
}

/// A colour as packed red, green, blue and alpha.
#[derive(Clone, Copy, Debug, PartialEq, Eq)]
pub struct Color {
    pub rgba: u32,
}

#[derive(Clone, Copy, Debug, PartialEq, Eq)]
pub enum FontStyle {
    Regular,
    Italic,
}

/// Family, size, weight and style in one value.
#[derive(Clone, Copy, Debug, PartialEq, Eq)]
pub struct FontDescriptor {
    pub family: FontFamily,
    pub size: FontSize,
    pub weight: FontWeight,
    pub style: FontStyle,
}

impl FontWeight {
    pub fn new(value: u16) -> (r: Self)
        ensures
            r.value == value,
    {
        FontWeight { value }
    }

    pub fn normal() -> (r: Self)
        ensures
            r.value == 400,
    {
        FontWeight { value: 400 }
    }

    pub fn bold() -> (r: Self)
        ensures
            r.value == 700,
    {
        FontWeight { value: 700 }
    }
}

impl AttrValue for bool {
    fn same(&self, other: &Self) -> (r: bool) {
        *self == *other
    }
}

impl AttrValue for Key {
    fn same(&self, other: &Self) -> (r: bool) {
        self.id == other.id
    }
}

impl AttrValue for FontFamily {
    fn same(&self, other: &Self) -> (r: bool) {
        self.id == other.id
    }
}

impl AttrValue for FontSize {
    fn same(&self, other: &Self) -> (r: bool) {
        self.bits == other.bits
    }
}

impl AttrValue for FontWeight {
    fn same(&self, other: &Self) -> (r: bool) {
        self.value == other.value
    }
}

impl AttrValue for Color {
    fn same(&self, other: &Self) -> (r: bool) {
        self.rgba == other.rgba
    }
}

impl AttrValue for FontStyle {
    fn same(&self, other: &Self) -> (r: bool) {
        match (self, other) {
            (FontStyle::Regular, FontStyle::Regular) => true,
            (FontStyle::Italic, FontStyle::Italic) => true,
            _ => false,
        }
    }
}

impl AttrValue for FontDescriptor {
    fn same(&self, other: &Self) -> (r: bool) {
        self.family.same(&other.family) && self.size.same(&other.size) && self.weight.same(
            &other.weight,
        ) && self.style.same(&other.style)
    }
}

impl<T: AttrValue> AttrValue for KeyOrValue<T> {
    fn same(&self, other: &Self) -> (r: bool) {
        match (self, other) {
            (KeyOrValue::Concrete(a), KeyOrValue::Concrete(b)) => a.same(b),
            (KeyOrValue::Key(a), KeyOrValue::Key(b)) => a.same(b),
            _ => false,
        }
    }
}

/// The seven categories of attribute.
#[derive(Clone, Copy, Debug, PartialEq, Eq)]
pub enum Category {
    FontFamily,
    FontSize,
    Weight,
    ForegroundColor,
    Style,
    Underline,
    FontDescriptor,
}

/// Attributes that can be applied to text.
#[derive(Clone, Copy, Debug, PartialEq, Eq)]
pub enum Attribute {
    /// The font family.
    FontFamily(FontFamily),
    /// The font size, in points.
    FontSize(KeyOrValue<FontSize>),
    /// The font weight.
    Weight(FontWeight),
    /// The foreground color of the text.
    ForegroundColor(KeyOrValue<Color>),
    /// The font style; either regular or italic.
    Style(FontStyle),
    /// Underline.
    Underline(bool),
    /// Family, size, weight and style at once.
    Descriptor(KeyOrValue<FontDescriptor>),
}

impl Attribute {
    pub fn size(size: KeyOrValue<FontSize>) -> (r: Self)
        ensures
            r == Attribute::FontSize(size),
    {
        Attribute::FontSize(size)
    }

    pub fn foregound_color(color: KeyOrValue<Color>) -> (r: Self)
        ensures
            r == Attribute::ForegroundColor(color),
    {
        Attribute::ForegroundColor(color)
    }

    pub fn font_family(family: FontFamily) -> (r: Self)
        ensures
            r == Attribute::FontFamily(family),
    {
        Attribute::FontFamily(family)
    }

    pub fn weight(weight: FontWeight) -> (r: Self)
        ensures
            r == Attribute::Weight(weight),
    {
        Attribute::Weight(weight)
    }

    pub fn style(style: FontStyle) -> (r: Self)
        ensures
            r == Attribute::Style(style),
    {
        Attribute::Style(style)
    }

    pub fn underline(underline: bool) -> (r: Self)
        ensures
            r == Attribute::Underline(underline),
    {
        Attribute::Underline(underline)
    }

    pub fn font_descriptor(font: KeyOrValue<FontDescriptor>) -> (r: Self)
        ensures
            r == Attribute::Descriptor(font),
    {
        Attribute::Descriptor(font)
    }

    /// The category that the attribute belongs to.
    pub open spec fn category_of(self) -> Category {
        match self {
            Attribute::FontFamily(_) => Category::FontFamily,
            Attribute::FontSize(_) => Category::FontSize,
            Attribute::Weight(_) => Category::Weight,
            Attribute::ForegroundColor(_) => Category::ForegroundColor,
            Attribute::Style(_) => Category::Style,
            Attribute::Underline(_) => Category::Underline,
            Attribute::Descriptor(_) => Category::FontDescriptor,
        }
    }

    pub fn category(&self) -> (r: Category)
        ensures
            r == self.category_of(),
    {
        match self {
            Attribute::FontFamily(_) => Category::FontFamily,
            Attribute::FontSize(_) => Category::FontSize,
            Attribute::Weight(_) => Category::Weight,
            Attribute::ForegroundColor(_) => Category::ForegroundColor,
            Attribute::Style(_) => Category::Style,
            Attribute::Underline(_) => Category::Underline,
            Attribute::Descriptor(_) => Category::FontDescriptor,
        }
    }

    /// The rank by which a batch of attributes is ordered before it is
    /// applied: 0 for a font descriptor, 1 for every other attribute.
    pub open spec fn rank(self) -> nat {
        if self is Descriptor {
            0
        } else {
            1
        }
    }

    /// When applying attributes to overlapping ranges, we prefer to add
    /// some before others. A lower sort order is applied first.
    ///
    /// Only a font descriptor comes early, so that the attributes that name
    /// one of its constituent parts override it.
    pub fn sort_order(&self) -> (r: usize)
        ensures
            r == self.rank(),
    {
        match self {
            Attribute::Descriptor(_) => 0,
            _ => 1,
        }
    }
}

} // verus!
