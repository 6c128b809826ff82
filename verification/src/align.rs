//! Alignment primitives shared across layout-aware widgets.

use vstd::prelude::*;
use crate::geometry::Axis2D;

verus! {

/// Content alignment along an axis.
#[derive(Clone, Copy, Debug, PartialEq, Eq, Structural)]
pub enum Align {
    /// Aligns to the start of the axis.
    Start,
    /// Aligns to the middle of the axis.
    Middle,
    /// Aligns to the end of the axis.
    End,
}

impl Align {
    /// The alignment mirrored across the center.
    pub open spec fn spec_flip(self) -> Align {
        match self {
            Align::Start => Align::End,
            Align::End => Align::Start,
            Align::Middle => Align::Middle,
        }
    }

    /// Returns the alignment mirrored across the center.
    pub fn flip(&self) -> (r: Align)
        ensures
            r == self.spec_flip(),
    {
        match self {
            Align::Start => Align::End,
            Align::End => Align::Start,
            Align::Middle => Align::Middle,
        }
    }

    /// Returns the variant's name.
    pub fn label(&self) -> (r: &'static str)
        ensures
            r@ == (match *self {
                Align::Start => "Start"@,
                Align::Middle => "Middle"@,
                Align::End => "End"@,
            }),
    {
        match self {
            Align::Start => "Start",
            Align::Middle => "Middle",
            Align::End => "End",
        }
    }
}

/// Flipping an alignment twice gives it back.
pub proof fn lemma_align_flip_involutive(a: Align)
    ensures
        a.spec_flip().spec_flip() == a,
{
}

/// Per-axis sizing and positioning mode.
#[derive(Clone, Copy, Debug, PartialEq, Eq, Structural)]
pub enum FlexAlign {
    /// Aligns the item to the start of the axis.
    Start,
    /// Aligns the item to the middle of the axis.
    Middle,
    /// Aligns the item to the end of the axis.
    End,
    /// Stretches the item to fill the axis.
    Stretch,
}

impl FlexAlign {
    /// Returns the variant's name.
    pub fn label(&self) -> (r: &'static str)
        ensures
            r@ == (match *self {
                FlexAlign::Start => "Start"@,
                FlexAlign::Middle => "Middle"@,
                FlexAlign::End => "End"@,
                FlexAlign::Stretch => "Stretch"@,
            }),
    {
        match self {
            FlexAlign::Start => "Start",
            FlexAlign::Middle => "Middle",
            FlexAlign::End => "End",
            FlexAlign::Stretch => "Stretch",
        }
    }
}

/// Parent-side positioning and slack distribution along an axis.
#[derive(Clone, Copy, Debug, PartialEq, Eq, Structural)]
pub enum Place {
    /// Pack items at the start of the axis.
    Start,
    /// Pack items at the middle of the axis.
    Middle,
    /// Pack items at the end of the axis.
    End,
    /// Stretch each item to fill the axis.
    Stretch,
    /// Distribute slack evenly around and between items.
    Evenly,
    /// Push slack to the outsides so items spread apart.
    Apart,
}

impl Place {
    /// The numeric code of the variant, `0` through `5` in declaration order.
    pub open spec fn spec_code(self) -> u8 {
        match self {
            Place::Start => 0,
            Place::Middle => 1,
            Place::End => 2,
            Place::Stretch => 3,
            Place::Evenly => 4,
            Place::Apart => 5,
        }
    }

    /// Returns the numeric code of the variant.
    pub fn code(&self) -> (r: u8)
        ensures
            r == self.spec_code(),
            r < 6,
    {
        match self {
            Place::Start => 0,
            Place::Middle => 1,
            Place::End => 2,
            Place::Stretch => 3,
            Place::Evenly => 4,
            Place::Apart => 5,
        }
    }

    /// Returns the variant's name.
    pub fn label(&self) -> (r: &'static str)
        ensures
            r@ == (match *self {
                Place::Start => "Start"@,
                Place::Middle => "Middle"@,
                Place::End => "End"@,
                Place::Stretch => "Stretch"@,
                Place::Evenly => "Evenly"@,
                Place::Apart => "Apart"@,
            }),
    {
        match self {
            Place::Start => "Start",
            Place::Middle => "Middle",
            Place::End => "End",
            Place::Stretch => "Stretch",
            Place::Evenly => "Evenly",
            Place::Apart => "Apart",
        }
    }
}

/// Error returned when an alignment conversion has no matching target variant.
#[derive(Clone, Copy, Debug, PartialEq, Eq, Structural)]
pub struct AlignConversionError;

impl AlignConversionError {
    /// Returns the error's message.
    pub fn message(&self) -> (r: &'static str)
        ensures
            r@ == "alignment value has no corresponding variant in target type"@,
    {
        "alignment value has no corresponding variant in target type"
    }
}

/// The flex mode that an alignment becomes.
pub open spec fn spec_flex_align_of_align(a: Align) -> FlexAlign {
    match a {
        Align::Start => FlexAlign::Start,
        Align::Middle => FlexAlign::Middle,
        Align::End => FlexAlign::End,
    }
}

/// The place that a flex mode becomes.
pub open spec fn spec_place_of_flex_align(f: FlexAlign) -> Place {
    match f {
        FlexAlign::Start => Place::Start,
        FlexAlign::Middle => Place::Middle,
        FlexAlign::End => Place::End,
        FlexAlign::Stretch => Place::Stretch,
    }
}

/// The place that an alignment becomes.
pub open spec fn spec_place_of_align(a: Align) -> Place {
    match a {
        Align::Start => Place::Start,
        Align::Middle => Place::Middle,
        Align::End => Place::End,
    }
}

/// The flex mode a place converts to, or an error for `Evenly` and `Apart`.
pub open spec fn spec_flex_align_of_place(p: Place) -> Result<FlexAlign, AlignConversionError> {
    match p {
        Place::Start => Ok(FlexAlign::Start),
        Place::Middle => Ok(FlexAlign::Middle),
        Place::End => Ok(FlexAlign::End),
        Place::Stretch => Ok(FlexAlign::Stretch),
        Place::Evenly | Place::Apart => Err(AlignConversionError),
    }
}

/// The alignment a flex mode converts to, or an error for `Stretch`.
pub open spec fn spec_align_of_flex_align(f: FlexAlign) -> Result<Align, AlignConversionError> {
    match f {
        FlexAlign::Start => Ok(Align::Start),
        FlexAlign::Middle => Ok(Align::Middle),
        FlexAlign::End => Ok(Align::End),
        FlexAlign::Stretch => Err(AlignConversionError),
    }
}

/// The alignment a place converts to, or an error for `Stretch`, `Evenly` and `Apart`.
pub open spec fn spec_align_of_place(p: Place) -> Result<Align, AlignConversionError> {
    match p {
        Place::Start => Ok(Align::Start),
        Place::Middle => Ok(Align::Middle),
        Place::End => Ok(Align::End),
        Place::Stretch | Place::Evenly | Place::Apart => Err(AlignConversionError),
    }
}

impl From<Align> for FlexAlign {
    fn from(a: Align) -> (r: FlexAlign) {
        match a {
            Align::Start => FlexAlign::Start,
            Align::Middle => FlexAlign::Middle,
            Align::End => FlexAlign::End,
        }
    }
}

impl vstd::std_specs::convert::FromSpecImpl<Align> for FlexAlign {
    open spec fn obeys_from_spec() -> bool {
        true
    }

    open spec fn from_spec(a: Align) -> FlexAlign {
        spec_flex_align_of_align(a)
    }
}

impl From<FlexAlign> for Place {
    fn from(f: FlexAlign) -> (r: Place) {
        match f {
            FlexAlign::Start => Place::Start,
            FlexAlign::Middle => Place::Middle,
            FlexAlign::End => Place::End,
            FlexAlign::Stretch => Place::Stretch,
        }
    }
}

impl vstd::std_specs::convert::FromSpecImpl<FlexAlign> for Place {
    open spec fn obeys_from_spec() -> bool {
        true
    }

    open spec fn from_spec(f: FlexAlign) -> Place {
        spec_place_of_flex_align(f)
    }
}

impl From<Align> for Place {
    fn from(a: Align) -> (r: Place) {
        match a {
            Align::Start => Place::Start,
            Align::Middle => Place::Middle,
            Align::End => Place::End,
        }
    }
}

impl vstd::std_specs::convert::FromSpecImpl<Align> for Place {
    open spec fn obeys_from_spec() -> bool {
        true
    }

    open spec fn from_spec(a: Align) -> Place {
        spec_place_of_align(a)
    }
}

impl TryFrom<Place> for FlexAlign {
    type Error = AlignConversionError;

    fn try_from(p: Place) -> (r: Result<FlexAlign, AlignConversionError>) {
        match p {
            Place::Start => Ok(FlexAlign::Start),
            Place::Middle => Ok(FlexAlign::Middle),
            Place::End => Ok(FlexAlign::End),
            Place::Stretch => Ok(FlexAlign::Stretch),
            Place::Evenly | Place::Apart => Err(AlignConversionError),
        }
    }
}

impl vstd::std_specs::convert::TryFromSpecImpl<Place> for FlexAlign {
    open spec fn obeys_try_from_spec() -> bool {
        true
    }

    open spec fn try_from_spec(p: Place) -> Result<FlexAlign, AlignConversionError> {
        spec_flex_align_of_place(p)
    }
}

impl TryFrom<FlexAlign> for Align {
    type Error = AlignConversionError;

    fn try_from(f: FlexAlign) -> (r: Result<Align, AlignConversionError>) {
        match f {
            FlexAlign::Start => Ok(Align::Start),
            FlexAlign::Middle => Ok(Align::Middle),
            FlexAlign::End => Ok(Align::End),
            FlexAlign::Stretch => Err(AlignConversionError),
        }
    }
}

impl vstd::std_specs::convert::TryFromSpecImpl<FlexAlign> for Align {
    open spec fn obeys_try_from_spec() -> bool {
        true
    }

    open spec fn try_from_spec(f: FlexAlign) -> Result<Align, AlignConversionError> {
        spec_align_of_flex_align(f)
    }
}

impl TryFrom<Place> for Align {
    type Error = AlignConversionError;

    fn try_from(p: Place) -> (r: Result<Align, AlignConversionError>) {
        match p {
            Place::Start => Ok(Align::Start),
            Place::Middle => Ok(Align::Middle),
            Place::End => Ok(Align::End),
            Place::Stretch | Place::Evenly | Place::Apart => Err(AlignConversionError),
        }
    }
}

impl vstd::std_specs::convert::TryFromSpecImpl<Place> for Align {
    open spec fn obeys_try_from_spec() -> bool {
        true
    }

    open spec fn try_from_spec(p: Place) -> Result<Align, AlignConversionError> {
        spec_align_of_place(p)
    }
}

/// Converting a flex mode to a place and back gives the flex mode.
pub proof fn lemma_flex_align_place_round_trip(f: FlexAlign)
    ensures
        spec_flex_align_of_place(spec_place_of_flex_align(f)) == Ok::<FlexAlign, AlignConversionError>(f),
{
}

/// Converting an alignment to a flex mode and back gives the alignment.
pub proof fn lemma_align_flex_align_round_trip(a: Align)
    ensures
        spec_align_of_flex_align(spec_flex_align_of_align(a)) == Ok::<Align, AlignConversionError>(a),
{
}

/// Converting an alignment to a place and back gives the alignment.
pub proof fn lemma_align_place_round_trip(a: Align)
    ensures
        spec_align_of_place(spec_place_of_align(a)) == Ok::<Align, AlignConversionError>(a),
        spec_place_of_flex_align(spec_flex_align_of_align(a)) == spec_place_of_align(a),
{
}

/// The place stored under a three-bit code; codes above five read as `Start`.
pub open spec fn spec_place_from_bits(b: u8) -> Place {
    if b == 0 {
        Place::Start
    } else if b == 1 {
        Place::Middle
    } else if b == 2 {
        Place::End
    } else if b == 3 {
        Place::Stretch
    } else if b == 4 {
        Place::Evenly
    } else if b == 5 {
        Place::Apart
    } else {
        Place::Start
    }
}

/// Packed pair of per-axis [`Place`]s: bits 0..3 hold x, bits 3..6 hold y.
#[derive(Clone, Copy, Debug, PartialEq, Eq, Structural)]
pub struct AlignSpec(pub u8);

impl AlignSpec {
    /// The place along the x axis.
    pub open spec fn spec_place_x(self) -> Place {
        spec_place_from_bits(self.0 & 7)
    }

    /// The place along the y axis.
    pub open spec fn spec_place_y(self) -> Place {
        spec_place_from_bits((self.0 >> 3) & 7)
    }

    /// The place along `axis`.
    pub open spec fn spec_place(self, axis: Axis2D) -> Place {
        match axis {
            Axis2D::X => self.spec_place_x(),
            Axis2D::Y => self.spec_place_y(),
        }
    }

    fn place_from_bits(b: u8) -> (r: Place)
        ensures
            r == spec_place_from_bits(b),
    {
        match b {
            0 => Place::Start,
            1 => Place::Middle,
            2 => Place::End,
            3 => Place::Stretch,
            4 => Place::Evenly,
            5 => Place::Apart,
            _ => Place::Start,
        }
    }

    /// Creates an empty spec with both axes set to [`Place::Start`].
    pub fn new() -> (r: AlignSpec)
        ensures
            r.0 == 0,
            r.spec_place_x() == Place::Start,
            r.spec_place_y() == Place::Start,
    {
        assert((0u8 & 7u8) == 0u8 && ((0u8 >> 3u8) & 7u8) == 0u8) by (bit_vector);
        AlignSpec(0)
    }

    /// Returns the place along the x axis.
    pub fn get_place_x(self) -> (r: Place)
        ensures
            r == self.spec_place_x(),
    {
        Self::place_from_bits(self.0 & 0b111)
    }

    /// Returns the place along the y axis.
    pub fn get_place_y(self) -> (r: Place)
        ensures
            r == self.spec_place_y(),
    {
        Self::place_from_bits((self.0 >> 3) & 0b111)
    }

    /// Returns the place along `axis`.
    pub fn get_place(self, axis: Axis2D) -> (r: Place)
        ensures
            r == self.spec_place(axis),
    {
        match axis {
            Axis2D::X => self.get_place_x(),
            Axis2D::Y => self.get_place_y(),
        }
    }

    /// Returns a copy with the x place set to `p`.
    pub fn place_x(self, p: Place) -> (r: AlignSpec)
        ensures
            r.0 == (self.0 & !7u8) | p.spec_code(),
            r.spec_place_x() == p,
            r.spec_place_y() == self.spec_place_y(),
            r.0 >> 6 == self.0 >> 6,
    {
        let c = p.code();
        let b = self.0;
        let v: u8 = (b & !0b111u8) | (c & 0b111u8);
        assert(v == (b & !7u8) | c && v & 7u8 == c && (v >> 3u8) & 7u8 == (b >> 3u8) & 7u8
            && v >> 6u8 == b >> 6u8) by (bit_vector)
            requires
                c < 6u8,
                v == (b & !7u8) | (c & 7u8),
        ;
        AlignSpec(v)
    }

    /// Returns a copy with the y place set to `p`.
    pub fn place_y(self, p: Place) -> (r: AlignSpec)
        ensures
            r.0 == (self.0 & !56u8) | (p.spec_code() << 3u8),
            r.spec_place_y() == p,
            r.spec_place_x() == self.spec_place_x(),
            r.0 >> 6 == self.0 >> 6,
    {
        let c = p.code();
        let b = self.0;
        let v: u8 = (b & !(0b111u8 << 3u8)) | ((c & 0b111u8) << 3u8);
        assert(v == (b & !56u8) | (c << 3u8) && v & 7u8 == b & 7u8 && (v >> 3u8) & 7u8 == c
            && v >> 6u8 == b >> 6u8) by (bit_vector)
            requires
                c < 6u8,
                v == (b & !(7u8 << 3u8)) | ((c & 7u8) << 3u8),
        ;
        AlignSpec(v)
    }
}

impl Default for AlignSpec {
    fn default() -> (r: AlignSpec)
        ensures
            r.spec_place_x() == Place::Stretch,
            r.spec_place_y() == Place::Stretch,
    {
        Self::new().place_x(Place::Stretch).place_y(Place::Stretch)
    }
}

/// Setting the x place of a spec leaves its y place alone, and setting the y place leaves
/// its x place alone; reading a place back gives what was set.
pub proof fn lemma_align_spec_axes_independent(s: AlignSpec, p: Place, q: Place)
    ensures
        ({
            let t = AlignSpec((s.0 & !7u8) | p.spec_code());
            t.spec_place_x() == p && t.spec_place_y() == s.spec_place_y()
        }),
        ({
            let t = AlignSpec((s.0 & !56u8) | (q.spec_code() << 3u8));
            t.spec_place_y() == q && t.spec_place_x() == s.spec_place_x()
        }),
{
    let b = s.0;
    let c = p.spec_code();
    let d = q.spec_code();
    assert(((b & !7u8) | c) & 7u8 == c && (((b & !7u8) | c) >> 3u8) & 7u8 == (b >> 3u8) & 7u8)
        by (bit_vector)
        requires
            c < 6u8,
    ;
    assert(((b & !56u8) | (d << 3u8)) & 7u8 == b & 7u8
        && (((b & !56u8) | (d << 3u8)) >> 3u8) & 7u8 == d) by (bit_vector)
        requires
            d < 6u8,
    ;
}

/// The flex mode stored under a three-bit code: `0` is none, `1` to `4` are the modes in
/// declaration order, codes above four read as none.
pub open spec fn spec_mode_from_bits(b: u8) -> Option<FlexAlign> {
    if b == 1 {
        Some(FlexAlign::Start)
    } else if b == 2 {
        Some(FlexAlign::Middle)
    } else if b == 3 {
        Some(FlexAlign::End)
    } else if b == 4 {
        Some(FlexAlign::Stretch)
    } else {
        None
    }
}

/// The three-bit code of an optional flex mode.
pub open spec fn spec_mode_to_bits(m: Option<FlexAlign>) -> u8 {
    match m {
        None => 0,
        Some(FlexAlign::Start) => 1,
        Some(FlexAlign::Middle) => 2,
        Some(FlexAlign::End) => 3,
        Some(FlexAlign::Stretch) => 4,
    }
}

/// Child-side per-axis alignment override, where unset axes inherit from the parent.
#[derive(Clone, Copy, Debug, PartialEq, Eq, Structural)]
pub struct AlignOverride(pub u8);

impl AlignOverride {
    /// The x mode override.
    pub open spec fn spec_mode_x(self) -> Option<FlexAlign> {
        spec_mode_from_bits(self.0 & 7)
    }

    /// The y mode override.
    pub open spec fn spec_mode_y(self) -> Option<FlexAlign> {
        spec_mode_from_bits((self.0 >> 3) & 7)
    }

    /// The mode override along `axis`.
    pub open spec fn spec_mode(self, axis: Axis2D) -> Option<FlexAlign> {
        match axis {
            Axis2D::X => self.spec_mode_x(),
            Axis2D::Y => self.spec_mode_y(),
        }
    }

    fn mode_from_bits(b: u8) -> (r: Option<FlexAlign>)
        ensures
            r == spec_mode_from_bits(b),
    {
        match b {
            0 => None,
            1 => Some(FlexAlign::Start),
            2 => Some(FlexAlign::Middle),
            3 => Some(FlexAlign::End),
            4 => Some(FlexAlign::Stretch),
            _ => None,
        }
    }

    fn mode_to_bits(m: Option<FlexAlign>) -> (r: u8)
        ensures
            r == spec_mode_to_bits(m),
            r < 5,
    {
        match m {
            None => 0,
            Some(FlexAlign::Start) => 1,
            Some(FlexAlign::Middle) => 2,
            Some(FlexAlign::End) => 3,
            Some(FlexAlign::Stretch) => 4,
        }
    }

    /// Creates an empty override that inherits both axes from the parent.
    pub fn new() -> (r: AlignOverride)
        ensures
            r.0 == 0,
            r.spec_mode_x() == None::<FlexAlign>,
            r.spec_mode_y() == None::<FlexAlign>,
    {
        assert((0u8 & 7u8) == 0u8 && ((0u8 >> 3u8) & 7u8) == 0u8) by (bit_vector);
        AlignOverride(0)
    }

    /// Returns the x mode override, or `None` to inherit from the parent.
    pub fn get_mode_x(self) -> (r: Option<FlexAlign>)
        ensures
            r == self.spec_mode_x(),
    {
        Self::mode_from_bits(self.0 & 0b111)
    }

    /// Returns the y mode override, or `None` to inherit from the parent.
    pub fn get_mode_y(self) -> (r: Option<FlexAlign>)
        ensures
            r == self.spec_mode_y(),
    {
        Self::mode_from_bits((self.0 >> 3) & 0b111)
    }

    /// Returns the mode override along `axis`, or `None` to inherit.
    pub fn get_mode(self, axis: Axis2D) -> (r: Option<FlexAlign>)
        ensures
            r == self.spec_mode(axis),
    {
        match axis {
            Axis2D::X => self.get_mode_x(),
            Axis2D::Y => self.get_mode_y(),
        }
    }

    /// Returns a copy with the x mode override set.
    pub fn mode_x(self, m: Option<FlexAlign>) -> (r: AlignOverride)
        ensures
            r.0 == (self.0 & !7u8) | spec_mode_to_bits(m),
            r.spec_mode_x() == m,
            r.spec_mode_y() == self.spec_mode_y(),
            r.0 >> 6 == self.0 >> 6,
    {
        let c = Self::mode_to_bits(m);
        let b = self.0;
        let v: u8 = (b & !0b111u8) | c;
        assert(v & 7u8 == c && (v >> 3u8) & 7u8 == (b >> 3u8) & 7u8 && v >> 6u8 == b >> 6u8)
            by (bit_vector)
            requires
                c < 5u8,
                v == (b & !7u8) | c,
        ;
        AlignOverride(v)
    }

    /// Returns a copy with the y mode override set.
    pub fn mode_y(self, m: Option<FlexAlign>) -> (r: AlignOverride)
        ensures
            r.0 == (self.0 & !56u8) | (spec_mode_to_bits(m) << 3u8),
            r.spec_mode_y() == m,
            r.spec_mode_x() == self.spec_mode_x(),
            r.0 >> 6 == self.0 >> 6,
    {
        let c = Self::mode_to_bits(m);
        let b = self.0;
        let v: u8 = (b & !(0b111u8 << 3u8)) | (c << 3u8);
        assert(v == (b & !56u8) | (c << 3u8) && v & 7u8 == b & 7u8 && (v >> 3u8) & 7u8 == c
            && v >> 6u8 == b >> 6u8) by (bit_vector)
            requires
                c < 5u8,
                v == (b & !(7u8 << 3u8)) | (c << 3u8),
        ;
        AlignOverride(v)
    }

    /// Returns a copy with the mode override along `axis` set.
    pub fn mode(self, axis: Axis2D, m: Option<FlexAlign>) -> (r: AlignOverride)
        ensures
            r.spec_mode(axis) == m,
            r.spec_mode(axis.spec_flip()) == self.spec_mode(axis.spec_flip()),
    {
        match axis {
            Axis2D::X => self.mode_x(m),
            Axis2D::Y => self.mode_y(m),
        }
    }
}

impl Default for AlignOverride {
    fn default() -> (r: AlignOverride)
        ensures
            r.0 == 0,
            r.spec_mode_x() == None::<FlexAlign>,
            r.spec_mode_y() == None::<FlexAlign>,
    {
        Self::new()
    }
}

/// Reading back an override along an axis gives what was set there, and the other axis is
/// untouched.
pub proof fn lemma_align_override_read_back(o: AlignOverride, m: Option<FlexAlign>)
    ensures
        ({
            let t = AlignOverride((o.0 & !7u8) | spec_mode_to_bits(m));
            t.spec_mode_x() == m && t.spec_mode_y() == o.spec_mode_y()
        }),
        ({
            let t = AlignOverride((o.0 & !56u8) | (spec_mode_to_bits(m) << 3u8));
            t.spec_mode_y() == m && t.spec_mode_x() == o.spec_mode_x()
        }),
{
    let b = o.0;
    let c = spec_mode_to_bits(m);
    assert(((b & !7u8) | c) & 7u8 == c && (((b & !7u8) | c) >> 3u8) & 7u8 == (b >> 3u8) & 7u8)
        by (bit_vector)
        requires
            c < 5u8,
    ;
    assert(((b & !56u8) | (c << 3u8)) & 7u8 == b & 7u8
        && (((b & !56u8) | (c << 3u8)) >> 3u8) & 7u8 == c) by (bit_vector)
        requires
            c < 5u8,
    ;
}

} // verus!
