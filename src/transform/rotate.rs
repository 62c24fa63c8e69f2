//! Rotate indexes

use super::Transform;
use vstd::prelude::*;

verus! {

/// The four quarter-turn orientations.
#[derive(PartialEq, Eq, Clone, Copy, Debug)]
pub enum Rotation {
    /// No rotation
    Zero,
    /// Rotate by 90°
    Quarter,
    /// Rotate by 180°
    Half,
    /// Rotate by -90°
    ThreeQuarters,
}

/// A rotation axis in 3D
#[derive(PartialEq, Eq, Clone, Copy, Debug)]
pub enum Axis3D {
    X,
    Y,
    Z,
}

/// Rotate a 2D index about the origin.
pub struct Rotate2(pub Rotation);

/// Rotate a 3D index about one of the three axes.
pub struct Rotate3 {
    /// Rotation to apply
    pub rotation: Rotation,
    /// Axis to rotate around
    pub axis: Axis3D,
    /// Is the coordinate system left-handed ?
    pub left_handed: bool,
}

/// The negation of a coordinate component, as an `isize`.
pub open spec fn neg(x: isize) -> isize {
    (-x) as isize
}

/// The image of `(x, y)` under the 2D rotation `r`.
pub open spec fn rotated2(r: Rotation, x: isize, y: isize) -> Seq<isize> {
    match r {
        Rotation::Zero => seq![x, y],
        Rotation::Quarter => seq![neg(y), x],
        Rotation::Half => seq![neg(x), neg(y)],
        Rotation::ThreeQuarters => seq![y, neg(x)],
    }
}

/// True when the components that `rotated2` negates can be negated.
pub open spec fn rotates2(r: Rotation, x: isize, y: isize) -> bool {
    match r {
        Rotation::Zero => true,
        Rotation::Quarter => y != isize::MIN,
        Rotation::Half => x != isize::MIN && y != isize::MIN,
        Rotation::ThreeQuarters => x != isize::MIN,
    }
}

impl Transform<[isize; 2]> for Rotate2 {
    open spec fn image(&self, index: Seq<isize>) -> Seq<isize> {
        rotated2(self.0, index[0], index[1])
    }

    open spec fn applies_to(&self, index: Seq<isize>) -> bool {
        rotates2(self.0, index[0], index[1])
    }

    fn apply(&self, index: &mut [isize; 2]) {
        let x = index[0];
        let y = index[1];
        match self.0 {
            // 180°
            Rotation::Half => {
                index[0] = -x;
                index[1] = -y;
            },
            // Quarter rotation
            Rotation::Quarter => {
                index[0] = -y;
                index[1] = x;
            },
            Rotation::ThreeQuarters => {
                index[0] = y;
                index[1] = -x;
            },
            Rotation::Zero => {},
        }
        assert(index@ =~= rotated2(self.0, x, y));
    }
}

/// Which way a quarter turn about an axis goes: `true` for the turn that
/// sends the first of the two other axes onto the second in a right-handed
/// system.
pub open spec fn positive_turn(r: Rotation, left_handed: bool) -> bool {
    (r == Rotation::Quarter && !left_handed) || (r == Rotation::ThreeQuarters && left_handed)
}

/// The image of `(x, y, z)` under the 3D rotation `r` about `axis`.
pub open spec fn rotated3(
    axis: Axis3D,
    r: Rotation,
    left_handed: bool,
    x: isize,
    y: isize,
    z: isize,
) -> Seq<isize> {
    if r == Rotation::Zero {
        seq![x, y, z]
    } else if r == Rotation::Half {
        match axis {
            Axis3D::X => seq![x, neg(y), neg(z)],
            Axis3D::Y => seq![neg(x), y, neg(z)],
            Axis3D::Z => seq![neg(x), neg(y), z],
        }
    } else if positive_turn(r, left_handed) {
        match axis {
            Axis3D::X => seq![x, neg(z), y],
            Axis3D::Y => seq![z, y, neg(x)],
            Axis3D::Z => seq![neg(y), x, z],
        }
    } else {
        match axis {
            Axis3D::X => seq![x, z, neg(y)],
            Axis3D::Y => seq![neg(z), y, x],
            Axis3D::Z => seq![y, neg(x), z],
        }
    }
}

/// True when the components that `rotated3` negates can be negated.
pub open spec fn rotates3(
    axis: Axis3D,
    r: Rotation,
    left_handed: bool,
    x: isize,
    y: isize,
    z: isize,
) -> bool {
    if r == Rotation::Zero {
        true
    } else if r == Rotation::Half {
        match axis {
            Axis3D::X => y != isize::MIN && z != isize::MIN,
            Axis3D::Y => x != isize::MIN && z != isize::MIN,
            Axis3D::Z => x != isize::MIN && y != isize::MIN,
        }
    } else if positive_turn(r, left_handed) {
        match axis {
            Axis3D::X => z != isize::MIN,
            Axis3D::Y => x != isize::MIN,
            Axis3D::Z => y != isize::MIN,
        }
    } else {
        match axis {
            Axis3D::X => y != isize::MIN,
            Axis3D::Y => z != isize::MIN,
            Axis3D::Z => x != isize::MIN,
        }
    }
}

impl Transform<[isize; 3]> for Rotate3 {
    open spec fn image(&self, index: Seq<isize>) -> Seq<isize> {
        rotated3(self.axis, self.rotation, self.left_handed, index[0], index[1], index[2])
    }

    open spec fn applies_to(&self, index: Seq<isize>) -> bool {
        rotates3(self.axis, self.rotation, self.left_handed, index[0], index[1], index[2])
    }

    fn apply(&self, index: &mut [isize; 3]) {
        let x = index[0];
        let y = index[1];
        let z = index[2];
        match (self.axis, self.rotation, self.left_handed) {
            // 180°
            (Axis3D::X, Rotation::Half, _) => {
                index[1] = -y;
                index[2] = -z;
            },
            (Axis3D::Y, Rotation::Half, _) => {
                index[0] = -x;
                index[2] = -z;
            },
            (Axis3D::Z, Rotation::Half, _) => {
                index[0] = -x;
                index[1] = -y;
            },
            // X-axis
            (Axis3D::X, Rotation::Quarter, false) | (Axis3D::X, Rotation::ThreeQuarters, true) => {
                index[1] = -z;
                index[2] = y;
            },
            (Axis3D::X, Rotation::Quarter, true) | (Axis3D::X, Rotation::ThreeQuarters, false) => {
                index[1] = z;
                index[2] = -y;
            },
            // Y-axis
            (Axis3D::Y, Rotation::Quarter, false) | (Axis3D::Y, Rotation::ThreeQuarters, true) => {
                index[0] = z;
                index[2] = -x;
            },
            (Axis3D::Y, Rotation::Quarter, true) | (Axis3D::Y, Rotation::ThreeQuarters, false) => {
                index[0] = -z;
                index[2] = x;
            },
            // Z-axis
            (Axis3D::Z, Rotation::Quarter, false) | (Axis3D::Z, Rotation::ThreeQuarters, true) => {
                index[0] = -y;
                index[1] = x;
            },
            (Axis3D::Z, Rotation::Quarter, true) | (Axis3D::Z, Rotation::ThreeQuarters, false) => {
                index[0] = y;
                index[1] = -x;
            },
            // No rotation
            _ => {},
        }
        assert(index@ =~= rotated3(self.axis, self.rotation, self.left_handed, x, y, z));
    }
}

/// Four quarter turns of a 2D index bring it back where it started, each
/// turn being computable without overflow.
pub proof fn lemma_four_quarter_turns(index: Seq<isize>)
    requires
        index.len() == 2,
        index[0] != isize::MIN,
        index[1] != isize::MIN,
    ensures
        ({
            let r = Rotate2(Rotation::Quarter);
            let one = r.image(index);
            let two = r.image(one);
            let three = r.image(two);
            &&& r.applies_to(index)
            &&& r.applies_to(one)
            &&& r.applies_to(two)
            &&& r.applies_to(three)
            &&& r.image(three) == index
        }),
{
    let r = Rotate2(Rotation::Quarter);
    assert(r.image(r.image(r.image(r.image(index)))) =~= index);
}

} // verus!
