//! The eight symmetries of the 3x3 board: the dihedral group of the square.
//!
//! A transform is applied to a board by reading, for each destination cell,
//! the source cell given by `source_index`: cell `i` of the transformed board
//! holds cell `source_index(t, i)` of the original. The two quarter-turn
//! rotations are each other's inverse; the remaining six transforms are their
//! own.

use vstd::prelude::*;

verus! {

/// One symmetry of the square, acting on the 9 cells in row-major order.
#[derive(Clone, Copy, Debug, PartialEq, Eq, Structural)]
pub enum Transform {
    Identity,
    RotateLeft,
    RotateRight,
    Rotate180,
    FlipHorizontal,
    FlipVertical,
    FlipMainDiagonal,
    FlipAntiDiagonal,
}

/// Source cell of destination cell `i` under transform `t`: applying `t`
/// writes the original cell `source_index(t, i)` into cell `i`.
pub open spec fn source_index(t: Transform, i: int) -> int {
    match t {
        Transform::Identity => if i == 0 {
            0
        } else if i == 1 {
            1
        } else if i == 2 {
            2
        } else if i == 3 {
            3
        } else if i == 4 {
            4
        } else if i == 5 {
            5
        } else if i == 6 {
            6
        } else if i == 7 {
            7
        } else {
            8
        },
        Transform::RotateLeft => if i == 0 {
            2
        } else if i == 1 {
            5
        } else if i == 2 {
            8
        } else if i == 3 {
            1
        } else if i == 4 {
            4
        } else if i == 5 {
            7
        } else if i == 6 {
            0
        } else if i == 7 {
            3
        } else {
            6
        },
        Transform::RotateRight => if i == 0 {
            6
        } else if i == 1 {
            3
        } else if i == 2 {
            0
        } else if i == 3 {
            7
        } else if i == 4 {
            4
        } else if i == 5 {
            1
        } else if i == 6 {
            8
        } else if i == 7 {
            5
        } else {
            2
        },
        Transform::Rotate180 => if i == 0 {
            8
        } else if i == 1 {
            7
        } else if i == 2 {
            6
        } else if i == 3 {
            5
        } else if i == 4 {
            4
        } else if i == 5 {
            3
        } else if i == 6 {
            2
        } else if i == 7 {
            1
        } else {
            0
        },
        Transform::FlipHorizontal => if i == 0 {
            2
        } else if i == 1 {
            1
        } else if i == 2 {
            0
        } else if i == 3 {
            5
        } else if i == 4 {
            4
        } else if i == 5 {
            3
        } else if i == 6 {
            8
        } else if i == 7 {
            7
        } else {
            6
        },
        Transform::FlipVertical => if i == 0 {
            6
        } else if i == 1 {
            7
        } else if i == 2 {
            8
        } else if i == 3 {
            3
        } else if i == 4 {
            4
        } else if i == 5 {
            5
        } else if i == 6 {
            0
        } else if i == 7 {
            1
        } else {
            2
        },
        Transform::FlipMainDiagonal => if i == 0 {
            0
        } else if i == 1 {
            3
        } else if i == 2 {
            6
        } else if i == 3 {
            1
        } else if i == 4 {
            4
        } else if i == 5 {
            7
        } else if i == 6 {
            2
        } else if i == 7 {
            5
        } else {
            8
        },
        Transform::FlipAntiDiagonal => if i == 0 {
            8
        } else if i == 1 {
            5
        } else if i == 2 {
            2
        } else if i == 3 {
            7
        } else if i == 4 {
            4
        } else if i == 5 {
            1
        } else if i == 6 {
            6
        } else if i == 7 {
            3
        } else {
            0
        },
    }
}

/// The board obtained by applying `t` to the 9-cell board `s`.
pub open spec fn apply_spec(t: Transform, s: Seq<u8>) -> Seq<u8> {
    Seq::new(9, |i: int| s[source_index(t, i)])
}

/// The transform that composes with `b`: applying `b` first and then `a`
/// equals applying `compose(a, b)` once.
pub open spec fn compose(a: Transform, b: Transform) -> Transform {
    match a {
        Transform::Identity => match b {
            Transform::Identity => Transform::Identity,
            Transform::RotateLeft => Transform::RotateLeft,
            Transform::RotateRight => Transform::RotateRight,
            Transform::Rotate180 => Transform::Rotate180,
            Transform::FlipHorizontal => Transform::FlipHorizontal,
            Transform::FlipVertical => Transform::FlipVertical,
            Transform::FlipMainDiagonal => Transform::FlipMainDiagonal,
            Transform::FlipAntiDiagonal => Transform::FlipAntiDiagonal,
        },
        Transform::RotateLeft => match b {
            Transform::Identity => Transform::RotateLeft,
            Transform::RotateLeft => Transform::Rotate180,
            Transform::RotateRight => Transform::Identity,
            Transform::Rotate180 => Transform::RotateRight,
            Transform::FlipHorizontal => Transform::FlipMainDiagonal,
            Transform::FlipVertical => Transform::FlipAntiDiagonal,
            Transform::FlipMainDiagonal => Transform::FlipVertical,
            Transform::FlipAntiDiagonal => Transform::FlipHorizontal,
        },
        Transform::RotateRight => match b {
            Transform::Identity => Transform::RotateRight,
            Transform::RotateLeft => Transform::Identity,
            Transform::RotateRight => Transform::Rotate180,
            Transform::Rotate180 => Transform::RotateLeft,
            Transform::FlipHorizontal => Transform::FlipAntiDiagonal,
            Transform::FlipVertical => Transform::FlipMainDiagonal,
            Transform::FlipMainDiagonal => Transform::FlipHorizontal,
            Transform::FlipAntiDiagonal => Transform::FlipVertical,
        },
        Transform::Rotate180 => match b {
            Transform::Identity => Transform::Rotate180,
            Transform::RotateLeft => Transform::RotateRight,
            Transform::RotateRight => Transform::RotateLeft,
            Transform::Rotate180 => Transform::Identity,
            Transform::FlipHorizontal => Transform::FlipVertical,
            Transform::FlipVertical => Transform::FlipHorizontal,
            Transform::FlipMainDiagonal => Transform::FlipAntiDiagonal,
            Transform::FlipAntiDiagonal => Transform::FlipMainDiagonal,
        },
        Transform::FlipHorizontal => match b {
            Transform::Identity => Transform::FlipHorizontal,
            Transform::RotateLeft => Transform::FlipAntiDiagonal,
            Transform::RotateRight => Transform::FlipMainDiagonal,
            Transform::Rotate180 => Transform::FlipVertical,
            Transform::FlipHorizontal => Transform::Identity,
            Transform::FlipVertical => Transform::Rotate180,
            Transform::FlipMainDiagonal => Transform::RotateRight,
            Transform::FlipAntiDiagonal => Transform::RotateLeft,
        },
        Transform::FlipVertical => match b {
            Transform::Identity => Transform::FlipVertical,
            Transform::RotateLeft => Transform::FlipMainDiagonal,
            Transform::RotateRight => Transform::FlipAntiDiagonal,
            Transform::Rotate180 => Transform::FlipHorizontal,
            Transform::FlipHorizontal => Transform::Rotate180,
            Transform::FlipVertical => Transform::Identity,
            Transform::FlipMainDiagonal => Transform::RotateLeft,
            Transform::FlipAntiDiagonal => Transform::RotateRight,
        },
        Transform::FlipMainDiagonal => match b {
            Transform::Identity => Transform::FlipMainDiagonal,
            Transform::RotateLeft => Transform::FlipHorizontal,
            Transform::RotateRight => Transform::FlipVertical,
            Transform::Rotate180 => Transform::FlipAntiDiagonal,
            Transform::FlipHorizontal => Transform::RotateLeft,
            Transform::FlipVertical => Transform::RotateRight,
            Transform::FlipMainDiagonal => Transform::Identity,
            Transform::FlipAntiDiagonal => Transform::Rotate180,
        },
        Transform::FlipAntiDiagonal => match b {
            Transform::Identity => Transform::FlipAntiDiagonal,
            Transform::RotateLeft => Transform::FlipVertical,
            Transform::RotateRight => Transform::FlipHorizontal,
            Transform::Rotate180 => Transform::FlipMainDiagonal,
            Transform::FlipHorizontal => Transform::RotateRight,
            Transform::FlipVertical => Transform::RotateLeft,
            Transform::FlipMainDiagonal => Transform::Rotate180,
            Transform::FlipAntiDiagonal => Transform::Identity,
        },
    }
}

/// Inverse of each transform: the quarter turns swap, all others are
/// self-inverse.
pub open spec fn inverse_spec(t: Transform) -> Transform {
    match t {
        Transform::Identity => Transform::Identity,
        Transform::RotateLeft => Transform::RotateRight,
        Transform::RotateRight => Transform::RotateLeft,
        Transform::Rotate180 => Transform::Rotate180,
        Transform::FlipHorizontal => Transform::FlipHorizontal,
        Transform::FlipVertical => Transform::FlipVertical,
        Transform::FlipMainDiagonal => Transform::FlipMainDiagonal,
        Transform::FlipAntiDiagonal => Transform::FlipAntiDiagonal,
    }
}

impl Transform {
    /// Inverse of this transform.
    pub fn inverse(self) -> (r: Transform)
        ensures
            r == inverse_spec(self),
    {
        match self {
            Transform::Identity => Transform::Identity,
            Transform::RotateLeft => Transform::RotateRight,
            Transform::RotateRight => Transform::RotateLeft,
            Transform::Rotate180 => Transform::Rotate180,
            Transform::FlipHorizontal => Transform::FlipHorizontal,
            Transform::FlipVertical => Transform::FlipVertical,
            Transform::FlipMainDiagonal => Transform::FlipMainDiagonal,
            Transform::FlipAntiDiagonal => Transform::FlipAntiDiagonal,
        }
    }

    /// Source cell of destination cell `i` under this transform.
    pub fn source_cell(self, i: usize) -> (r: usize)
        requires
            i < 9,
        ensures
            r == source_index(self, i as int),
            r < 9,
    {
        match self {
        Transform::Identity => match i {
                    0 => 0,
                    1 => 1,
                    2 => 2,
                    3 => 3,
                    4 => 4,
                    5 => 5,
                    6 => 6,
                    7 => 7,
                    _ => 8,
                },
                Transform::RotateLeft => match i {
                    0 => 2,
                    1 => 5,
                    2 => 8,
                    3 => 1,
                    4 => 4,
                    5 => 7,
                    6 => 0,
                    7 => 3,
                    _ => 6,
                },
                Transform::RotateRight => match i {
                    0 => 6,
                    1 => 3,
                    2 => 0,
                    3 => 7,
                    4 => 4,
                    5 => 1,
                    6 => 8,
                    7 => 5,
                    _ => 2,
                },
                Transform::Rotate180 => match i {
                    0 => 8,
                    1 => 7,
                    2 => 6,
                    3 => 5,
                    4 => 4,
                    5 => 3,
                    6 => 2,
                    7 => 1,
                    _ => 0,
                },
                Transform::FlipHorizontal => match i {
                    0 => 2,
                    1 => 1,
                    2 => 0,
                    3 => 5,
                    4 => 4,
                    5 => 3,
                    6 => 8,
                    7 => 7,
                    _ => 6,
                },
                Transform::FlipVertical => match i {
                    0 => 6,
                    1 => 7,
                    2 => 8,
                    3 => 3,
                    4 => 4,
                    5 => 5,
                    6 => 0,
                    7 => 1,
                    _ => 2,
                },
                Transform::FlipMainDiagonal => match i {
                    0 => 0,
                    1 => 3,
                    2 => 6,
                    3 => 1,
                    4 => 4,
                    5 => 7,
                    6 => 2,
                    7 => 5,
                    _ => 8,
                },
                Transform::FlipAntiDiagonal => match i {
                    0 => 8,
                    1 => 5,
                    2 => 2,
                    3 => 7,
                    4 => 4,
                    5 => 1,
                    6 => 6,
                    7 => 3,
                    _ => 0,
                },
        }
    }
}


impl Transform {
    /// Board obtained by applying this transform to `cells`.
    pub fn apply(self, cells: &[u8; 9]) -> (out: [u8; 9])
        ensures
            out@ =~= apply_spec(self, cells@),
    {
        let mut out: [u8; 9] = [0u8; 9];
        let mut i: usize = 0;
        while i < 9
            invariant
                i <= 9,
                forall|j: int| 0 <= j < i ==> out@[j] == apply_spec(self, cells@)[j],
            decreases 9 - i,
        {
            out[i] = cells[self.source_cell(i)];
            i = i + 1;
        }
        out
    }

    /// Position that cell `i` moves to when this transform is applied: cell
    /// `i` of a board is cell `apply_to_index(i)` of the transformed board.
    pub fn apply_to_index(self, i: usize) -> (r: usize)
        requires
            i < 9,
        ensures
            r == source_index(inverse_spec(self), i as int),
            r < 9,
            source_index(self, r as int) == i as int,
    {
        proof {
            lemma_source_inverse(self);
        }
        self.inverse().source_cell(i)
    }
}

/// Every source index lies on the board.
pub proof fn lemma_source_range(t: Transform)
    ensures
        forall|i: int| 0 <= i < 9 ==> 0 <= #[trigger] source_index(t, i) < 9,
{
}

/// The source tables of a transform and of its inverse cancel each other.
pub proof fn lemma_source_inverse(t: Transform)
    ensures
        forall|i: int| 0 <= i < 9 ==> source_index(t, #[trigger] source_index(inverse_spec(t), i)) == i,
        forall|i: int| 0 <= i < 9 ==> source_index(inverse_spec(t), #[trigger] source_index(t, i)) == i,
{
}

/// Applying `b` and then `a` is applying `compose(a, b)`.
pub proof fn lemma_compose_apply(a: Transform, b: Transform, s: Seq<u8>)
    requires
        s.len() == 9,
    ensures
        apply_spec(a, apply_spec(b, s)) =~= apply_spec(compose(a, b), s),
{
    lemma_source_range(a);
    lemma_source_range(b);
    lemma_source_range(compose(a, b));
    assert forall|i: int| 0 <= i < 9 implies apply_spec(a, apply_spec(b, s))[i] == apply_spec(
        compose(a, b),
        s,
    )[i] by {
        assert(source_index(compose(a, b), i) == source_index(b, source_index(a, i)));
    }
}

/// Group facts used to relate the orbits of a board and of a transformed
/// board: composing with a transform and then with its inverse is the
/// identity operation.
pub proof fn lemma_compose_cancel(a: Transform, b: Transform)
    ensures
        compose(compose(a, inverse_spec(b)), b) == a,
        compose(compose(a, b), inverse_spec(b)) == a,
        compose(a, Transform::Identity) == a,
        compose(inverse_spec(a), a) == Transform::Identity,
{
}

/// The identity transform leaves a 9-cell board unchanged.
pub proof fn lemma_apply_identity(s: Seq<u8>)
    requires
        s.len() == 9,
    ensures
        apply_spec(Transform::Identity, s) =~= s,
{
}

/// Applying a transform and then its inverse restores the board.
pub proof fn lemma_apply_inverse(t: Transform, s: Seq<u8>)
    requires
        s.len() == 9,
    ensures
        apply_spec(inverse_spec(t), apply_spec(t, s)) =~= s,
{
    lemma_compose_apply(inverse_spec(t), t, s);
    lemma_compose_cancel(Transform::Identity, t);
    lemma_apply_identity(s);
    assert(compose(inverse_spec(t), t) == Transform::Identity);
}

/// A transform permutes the cells, so a digit stands somewhere on a board
/// exactly when it stands somewhere on the transformed board.
pub proof fn lemma_apply_contains(t: Transform, s: Seq<u8>, d: u8)
    requires
        s.len() == 9,
    ensures
        (exists|i: int| 0 <= i < 9 && apply_spec(t, s)[i] == d) <==> (exists|i: int|
            0 <= i < 9 && s[i] == d),
{
    lemma_source_range(t);
    lemma_source_inverse(t);
    if exists|i: int| 0 <= i < 9 && s[i] == d {
        let p = choose|i: int| 0 <= i < 9 && s[i] == d;
        let j = source_index(inverse_spec(t), p);
        assert(apply_spec(t, s)[j] == d);
    }
}

} // verus!
