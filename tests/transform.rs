use gridmap::gridmap::bounding_box::BoundingBox;
use gridmap::transform::mirror::Mirror;
use gridmap::transform::rotate::{Axis3D, Rotate2, Rotate3, Rotation};
use gridmap::transform::translate::Translate;
use gridmap::transform::Transform;

#[test]
fn contains_is_half_open() {
    let b = BoundingBox { start: [0, -2], end: [3, 2] };
    assert!(b.contains(&[0, -2]));
    assert!(b.contains(&[2, 1]));
    assert!(!b.contains(&[3, 0]));
    assert!(!b.contains(&[0, 2]));
    assert!(!b.contains(&[-1, 0]));
}

#[test]
fn default_box_is_full_range() {
    let b = BoundingBox::<3>::default();
    assert_eq!(b.start, [isize::MIN; 3]);
    assert_eq!(b.end, [isize::MAX; 3]);
    assert!(b.contains(&[isize::MIN, 0, isize::MAX - 1]));
    assert!(!b.contains(&[0, isize::MAX, 0]));
}

#[test]
fn overlaps_with_is_symmetric() {
    let boxes = [
        BoundingBox { start: [0, 0], end: [4, 4] },
        BoundingBox { start: [4, 4], end: [8, 8] },
        BoundingBox { start: [5, 0], end: [9, 3] },
        BoundingBox { start: [-3, -3], end: [-1, 10] },
        BoundingBox { start: [2, 2], end: [3, 3] },
    ];
    for a in boxes.iter() {
        for b in boxes.iter() {
            assert_eq!(a.overlaps_with(b), b.overlaps_with(a));
        }
    }
    assert!(boxes[0].overlaps_with(&boxes[1]));
    assert!(!boxes[0].overlaps_with(&boxes[2]));
    assert!(boxes[0].overlaps_with(&boxes[4]));
}

#[test]
fn translate_adds_offset() {
    assert_eq!(Translate([5, -2, 0]).transform(&[1, 1, 1]), [6, -1, 1]);
}

#[test]
fn mirror_negates_flagged_axes() {
    assert_eq!(Mirror([true, false]).transform(&[3, 4]), [-3, 4]);
    let m = Mirror([true, true]);
    let p = [7, -9];
    assert_eq!(m.transform(&m.transform(&p)), p);
}

#[test]
fn rotate2_values() {
    assert_eq!(Rotate2(Rotation::Zero).transform(&[2, 5]), [2, 5]);
    assert_eq!(Rotate2(Rotation::Quarter).transform(&[2, 5]), [-5, 2]);
    assert_eq!(Rotate2(Rotation::Half).transform(&[2, 5]), [-2, -5]);
    assert_eq!(Rotate2(Rotation::ThreeQuarters).transform(&[2, 5]), [5, -2]);
}

#[test]
fn rotate2_four_quarters_is_identity() {
    let r = Rotate2(Rotation::Quarter);
    for p in [[2isize, 5], [-7, 0], [0, 0], [isize::MAX, -isize::MAX]].iter() {
        let q = r.transform(&r.transform(&r.transform(&r.transform(p))));
        assert_eq!(q, *p);
    }
}

#[test]
fn rotate3_values() {
    let p = [1, 2, 3];
    let rot = |axis, rotation, left_handed| Rotate3 { rotation, axis, left_handed }.transform(&p);
    assert_eq!(rot(Axis3D::X, Rotation::Quarter, false), [1, -3, 2]);
    assert_eq!(rot(Axis3D::X, Rotation::Quarter, true), [1, 3, -2]);
    assert_eq!(rot(Axis3D::X, Rotation::ThreeQuarters, false), [1, 3, -2]);
    assert_eq!(rot(Axis3D::X, Rotation::ThreeQuarters, true), [1, -3, 2]);
    assert_eq!(rot(Axis3D::Y, Rotation::Quarter, false), [3, 2, -1]);
    assert_eq!(rot(Axis3D::Y, Rotation::Quarter, true), [-3, 2, 1]);
    assert_eq!(rot(Axis3D::Z, Rotation::Quarter, false), [-2, 1, 3]);
    assert_eq!(rot(Axis3D::Z, Rotation::ThreeQuarters, false), [2, -1, 3]);
    assert_eq!(rot(Axis3D::X, Rotation::Half, true), [1, -2, -3]);
    assert_eq!(rot(Axis3D::Y, Rotation::Half, false), [-1, 2, -3]);
    assert_eq!(rot(Axis3D::Z, Rotation::Half, false), [-1, -2, 3]);
    assert_eq!(rot(Axis3D::Z, Rotation::Zero, true), [1, 2, 3]);
}

#[test]
fn transform_sequence_applies_in_order() {
    let r = Rotate2(Rotation::Quarter);
    let t = Translate([10, 0]);
    let rt: [&dyn Transform<[isize; 2]>; 2] = [&r, &t];
    let tr: [&dyn Transform<[isize; 2]>; 2] = [&t, &r];
    assert_eq!((&rt[..]).transform(&[1, 0]), [10, 1]);
    assert_eq!((&tr[..]).transform(&[1, 0]), [0, 11]);
    let none: [&dyn Transform<[isize; 2]>; 0] = [];
    assert_eq!((&none[..]).transform(&[4, 4]), [4, 4]);
}
