use tuie::align::{Align, AlignConversionError, AlignOverride, AlignSpec, FlexAlign, Place};
use tuie::geometry::Axis2D;

#[test]
fn align_flip_swaps_ends_and_keeps_middle() {
    assert_eq!(Align::Start.flip(), Align::End);
    assert_eq!(Align::End.flip(), Align::Start);
    assert_eq!(Align::Middle.flip(), Align::Middle);
    for a in [Align::Start, Align::Middle, Align::End] {
        assert_eq!(a.flip().flip(), a);
    }
}

#[test]
fn labels_name_the_variants() {
    assert_eq!(Align::Middle.label(), "Middle");
    assert_eq!(FlexAlign::Stretch.label(), "Stretch");
    assert_eq!(Place::Evenly.label(), "Evenly");
    assert_eq!(Place::Apart.label(), "Apart");
    assert_eq!(
        AlignConversionError.message(),
        "alignment value has no corresponding variant in target type"
    );
}

#[test]
fn place_codes_follow_declaration_order() {
    let all = [Place::Start, Place::Middle, Place::End, Place::Stretch, Place::Evenly, Place::Apart];
    for (i, p) in all.iter().enumerate() {
        assert_eq!(p.code() as usize, i);
    }
}

#[test]
fn conversions_between_alignment_types() {
    assert_eq!(FlexAlign::from(Align::End), FlexAlign::End);
    assert_eq!(Place::from(FlexAlign::Stretch), Place::Stretch);
    assert_eq!(Place::from(Align::Middle), Place::Middle);
    assert_eq!(FlexAlign::try_from(Place::Stretch), Ok(FlexAlign::Stretch));
    assert_eq!(FlexAlign::try_from(Place::Evenly), Err(AlignConversionError));
    assert_eq!(FlexAlign::try_from(Place::Apart), Err(AlignConversionError));
    assert_eq!(Align::try_from(FlexAlign::Stretch), Err(AlignConversionError));
    assert_eq!(Align::try_from(FlexAlign::Start), Ok(Align::Start));
    assert_eq!(Align::try_from(Place::Stretch), Err(AlignConversionError));
    assert_eq!(Align::try_from(Place::End), Ok(Align::End));
}

#[test]
fn conversions_round_trip() {
    for f in [FlexAlign::Start, FlexAlign::Middle, FlexAlign::End, FlexAlign::Stretch] {
        assert_eq!(FlexAlign::try_from(Place::from(f)), Ok(f));
    }
    for a in [Align::Start, Align::Middle, Align::End] {
        assert_eq!(Align::try_from(FlexAlign::from(a)), Ok(a));
        assert_eq!(Align::try_from(Place::from(a)), Ok(a));
    }
}

#[test]
fn align_spec_packs_each_axis_in_three_bits() {
    let s = AlignSpec::new();
    assert_eq!(s.0, 0);
    assert_eq!(s.get_place_x(), Place::Start);
    assert_eq!(s.get_place_y(), Place::Start);
    let s = s.place_x(Place::Apart).place_y(Place::End);
    assert_eq!(s.0, 5 | (2 << 3));
    assert_eq!(s.get_place(Axis2D::X), Place::Apart);
    assert_eq!(s.get_place(Axis2D::Y), Place::End);
    let s = s.place_x(Place::Middle);
    assert_eq!(s.get_place_x(), Place::Middle);
    assert_eq!(s.get_place_y(), Place::End);
}

#[test]
fn align_spec_unknown_bits_read_as_start() {
    assert_eq!(AlignSpec(7).get_place_x(), Place::Start);
    assert_eq!(AlignSpec(6 << 3).get_place_y(), Place::Start);
}

#[test]
fn align_spec_default_stretches_both_axes() {
    let s = AlignSpec::default();
    assert_eq!(s.get_place_x(), Place::Stretch);
    assert_eq!(s.get_place_y(), Place::Stretch);
}

#[test]
fn align_override_reads_back_what_was_set() {
    let o = AlignOverride::new();
    assert_eq!(o.get_mode_x(), None);
    assert_eq!(o.get_mode_y(), None);
    let o = o.mode_x(Some(FlexAlign::Stretch)).mode_y(Some(FlexAlign::Start));
    assert_eq!(o.0, 4 | (1 << 3));
    assert_eq!(o.get_mode(Axis2D::X), Some(FlexAlign::Stretch));
    assert_eq!(o.get_mode(Axis2D::Y), Some(FlexAlign::Start));
    let o = o.mode(Axis2D::X, None);
    assert_eq!(o.get_mode_x(), None);
    assert_eq!(o.get_mode_y(), Some(FlexAlign::Start));
    assert_eq!(AlignOverride::default().0, 0);
    assert_eq!(AlignOverride(5).get_mode_x(), None);
}
