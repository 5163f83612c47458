use vstd::prelude::*;

verus! {

/// Largest magnitude of a coordinate. It keeps every squared quantity that the
/// distance tests form within 128 bits.
pub const COORD_LIMIT: i32 = 524288;

/// A position in fixed-point units.
#[derive(Clone, Copy, Debug, PartialEq, Eq, Structural)]
pub struct Position {
    pub x: i32,
    pub y: i32,
    pub z: i32,
}

/// Whether every coordinate of `p` lies within `COORD_LIMIT`.
pub open spec fn in_bounds(p: Position) -> bool {
    &&& -COORD_LIMIT <= p.x <= COORD_LIMIT
    &&& -COORD_LIMIT <= p.y <= COORD_LIMIT
    &&& -COORD_LIMIT <= p.z <= COORD_LIMIT
}

/// Whether every position of `s` lies within `COORD_LIMIT`.
pub open spec fn all_in_bounds(s: Seq<Position>) -> bool {
    forall|i: int| 0 <= i < s.len() ==> #[trigger] in_bounds(s[i])
}

impl Position {
    pub fn new(x: i32, y: i32, z: i32) -> (r: Position)
        ensures
            r == (Position { x, y, z }),
    {
        Position { x, y, z }
    }

    /// Whether every coordinate lies within `COORD_LIMIT`.
    pub fn is_in_bounds(&self) -> (r: bool)
        ensures
            r == in_bounds(*self),
    {
        -COORD_LIMIT <= self.x && self.x <= COORD_LIMIT && -COORD_LIMIT <= self.y && self.y
            <= COORD_LIMIT && -COORD_LIMIT <= self.z && self.z <= COORD_LIMIT
    }
}

/// Why a point cloud could not be built or read.
#[derive(Clone, Copy, Debug, PartialEq, Eq, Structural)]
pub enum PointError {
    /// The position at this index has a coordinate beyond `COORD_LIMIT`.
    CoordinateOutOfRange(usize),
    /// The index is not below the number of points.
    OutOfRange(usize),
}

/// A read-only sequence of positions, addressed by index.
pub struct PointCloud {
    positions: Vec<Position>,
}

impl View for PointCloud {
    type V = Seq<Position>;

    closed spec fn view(&self) -> Seq<Position> {
        self.positions@
    }
}

impl PointCloud {
    /// Every position lies within `COORD_LIMIT`: `new` refuses any other.
    #[verifier::type_invariant]
    pub closed spec fn wf(&self) -> bool {
        all_in_bounds(self.positions@)
    }

    /// What the invariant says of the positions.
    pub proof fn lemma_wf(&self)
        requires
            self.wf(),
        ensures
            all_in_bounds(self@),
    {
    }

    /// Builds a cloud from positions, refusing the first position that has a
    /// coordinate beyond `COORD_LIMIT`.
    pub fn new(positions: Vec<Position>) -> (r: Result<PointCloud, PointError>)
        ensures
            match r {
                Ok(c) => c@ == positions@ && c.wf(),
                Err(e) => exists|i: int|
                    0 <= i < positions@.len() && !in_bounds(#[trigger] positions@[i])
                        && e == PointError::CoordinateOutOfRange(i as usize) && all_in_bounds(
                        positions@.take(i),
                    ),
            },
            r is Ok <==> all_in_bounds(positions@),
    {
        let mut i: usize = 0;
        while i < positions.len()
            invariant
                i <= positions@.len(),
                all_in_bounds(positions@.take(i as int)),
            decreases positions@.len() - i,
        {
            if !positions[i].is_in_bounds() {
                return Err(PointError::CoordinateOutOfRange(i));
            }
            assert(positions@.take(i + 1) == positions@.take(i as int).push(positions@[i as int]));
            i += 1;
        }
        assert(positions@.take(i as int) == positions@);
        Ok(PointCloud { positions })
    }

    /// The number of points.
    pub fn len(&self) -> (r: usize)
        ensures
            r == self@.len(),
            self.wf(),
    {
        proof {
            use_type_invariant(self);
        }
        self.positions.len()
    }

    /// The position at `index`, or `OutOfRange` past the end.
    pub fn position_at(&self, index: usize) -> (r: Result<Position, PointError>)
        ensures
            index < self@.len() ==> r == Ok::<Position, PointError>(self@[index as int]),
            index >= self@.len() ==> r == Err::<Position, PointError>(PointError::OutOfRange(index)),
    {
        if index < self.positions.len() {
            Ok(self.positions[index])
        } else {
            Err(PointError::OutOfRange(index))
        }
    }

    /// All positions, in index order.
    pub fn positions(&self) -> (r: &Vec<Position>)
        ensures
            r@ == self@,
            all_in_bounds(r@),
            self.wf(),
    {
        proof {
            use_type_invariant(self);
        }
        &self.positions
    }
}

} // verus!
