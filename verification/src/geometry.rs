//! Exact integer geometry: positive lengths, coordinates, boxes and rotations.
use vstd::prelude::*;

use crate::order::{lemma_sorted_unique, strictly_sorted_by};

verus! {

/// Number of internal geometry units in one compatibility-input unit.
pub const SCALE: u64 = 10;

/// Largest integer exactly representable by the compatibility DTO's `f64`
/// (two to the power of the `f64` mantissa width, minus one).
///
/// Keeping scaled lengths at or below this value makes the one-time conversion
/// to integer geometry lossless.
pub const MAX_EXACT_SCALED_LENGTH: u64 = 9_007_199_254_740_991;

/// A positive length expressed entirely in scaled integer units.
#[derive(Clone, Copy, Debug, Eq, Hash, Ord, PartialEq, PartialOrd, Structural)]
pub struct Length(u64);

impl View for Length {
    type V = u64;

    closed spec fn view(&self) -> u64 {
        self.0
    }
}

impl Length {
    #[verifier::type_invariant]
    spec fn positive(self) -> bool {
        self.0 > 0
    }

    /// Build a length from scaled units; zero is not a length.
    pub fn from_scaled_units(value: u64) -> (r: Option<Length>)
        ensures
            r.is_some() <==> value > 0,
            r matches Some(length) ==> length@ == value,
    {
        if value > 0 {
            Some(Length(value))
        } else {
            None
        }
    }

    /// Return this length in internal scaled units.
    pub fn get(self) -> (r: u64)
        ensures
            r == self@,
            r > 0,
    {
        proof {
            use_type_invariant(&self);
        }
        self.0
    }
}

/// Reason a compatibility-input length cannot become exact integer geometry.
#[derive(Clone, Copy, Debug, Eq, PartialEq, Structural)]
pub enum LengthConversionError {
    NonFinite,
    NonPositive,
    OverPrecision,
    OutOfRange,
}

impl LengthConversionError {
    /// The diagnostic phrase shown after a field path.
    pub fn message(self) -> (r: &'static str)
        ensures
            r@ == length_error_message(self),
    {
        match self {
            LengthConversionError::NonFinite => "must be finite",
            LengthConversionError::NonPositive => "must be greater than zero",
            LengthConversionError::OverPrecision => "must use no more than one decimal place",
            LengthConversionError::OutOfRange => "is too large to convert exactly",
        }
    }
}

/// The diagnostic phrase of each conversion error.
pub open spec fn length_error_message(error: LengthConversionError) -> Seq<char> {
    match error {
        LengthConversionError::NonFinite => "must be finite"@,
        LengthConversionError::NonPositive => "must be greater than zero"@,
        LengthConversionError::OverPrecision => "must use no more than one decimal place"@,
        LengthConversionError::OutOfRange => "is too large to convert exactly"@,
    }
}

/// Side lengths of a box, in scaled units, as (width, length, height).
pub type Sides = (u64, u64, u64);

/// Axis-aligned dimensions expressed in exact scaled integer units.
#[derive(Clone, Copy, Debug, Eq, Hash, PartialEq, Structural)]
pub struct Dimensions {
    width: Length,
    length: Length,
    height: Length,
}

impl View for Dimensions {
    type V = Sides;

    closed spec fn view(&self) -> Sides {
        (self.width@, self.length@, self.height@)
    }
}

/// Exact product of the three sides.
pub open spec fn sides_volume(s: Sides) -> int {
    s.0 * s.1 * s.2
}

/// The six axis permutations of a side triple, in the order
/// (w,l,h), (w,h,l), (l,w,h), (l,h,w), (h,w,l), (h,l,w).
pub open spec fn side_permutations(s: Sides) -> Seq<Sides> {
    seq![
        (s.0, s.1, s.2),
        (s.0, s.2, s.1),
        (s.1, s.0, s.2),
        (s.1, s.2, s.0),
        (s.2, s.0, s.1),
        (s.2, s.1, s.0),
    ]
}

/// `b` is `a` with its axes exchanged.
pub open spec fn is_permutation(a: Sides, b: Sides) -> bool {
    side_permutations(a).contains(b)
}

/// Strict lexicographic order on side triples.
pub open spec fn sides_lt(a: Sides, b: Sides) -> bool {
    a.0 < b.0 || (a.0 == b.0 && (a.1 < b.1 || (a.1 == b.1 && a.2 < b.2)))
}

impl Dimensions {
    pub fn new(width: Length, length: Length, height: Length) -> (r: Dimensions)
        ensures
            r@ == (width@, length@, height@),
    {
        Dimensions { width, length, height }
    }

    pub fn width(self) -> (r: Length)
        ensures
            r@ == self@.0,
    {
        self.width
    }

    pub fn length(self) -> (r: Length)
        ensures
            r@ == self@.1,
    {
        self.length
    }

    pub fn height(self) -> (r: Length)
        ensures
            r@ == self@.2,
    {
        self.height
    }

    /// The three sides are positive.
    pub fn positive_sides(self) -> (r: Sides)
        ensures
            r == self@,
            r.0 > 0 && r.1 > 0 && r.2 > 0,
    {
        (self.width.get(), self.length.get(), self.height.get())
    }

    /// Compute scaled volume without permitting integer wraparound.
    pub fn checked_volume(self) -> (r: Option<u128>)
        ensures
            r.is_some() <==> sides_volume(self@) <= u128::MAX,
            r matches Some(v) ==> v == sides_volume(self@),
    {
        let w = self.width.get() as u128;
        let l = self.length.get() as u128;
        let h = self.height.get() as u128;
        assert(w * l <= u64::MAX * u64::MAX) by (nonlinear_arith)
            requires
                w <= u64::MAX,
                l <= u64::MAX,
        ;
        let area = w * l;
        let r = area.checked_mul(h);
        assert(sides_volume(self@) == area * h) by (nonlinear_arith)
            requires
                area == w * l,
                w == self@.0,
                l == self@.1,
                h == self@.2,
        ;
        r
    }

    /// Whether the two dimensions have the same sides on the same axes.
    pub fn same_as(self, other: Dimensions) -> (r: bool)
        ensures
            r == (self@ == other@),
    {
        self.width.get() == other.width.get() && self.length.get() == other.length.get()
            && self.height.get() == other.height.get()
    }

    /// Whether `other` is these dimensions with axes exchanged.
    pub fn is_permutation_of(self, other: Dimensions) -> (r: bool)
        ensures
            r == is_permutation(self@, other@),
    {
        let a = (self.width.get(), self.length.get(), self.height.get());
        let b = (other.width.get(), other.length.get(), other.height.get());
        let ghost perms = side_permutations(a);
        let r = (b.0 == a.0 && b.1 == a.1 && b.2 == a.2) || (b.0 == a.0 && b.1 == a.2 && b.2
            == a.1) || (b.0 == a.1 && b.1 == a.0 && b.2 == a.2) || (b.0 == a.1 && b.1 == a.2
            && b.2 == a.0) || (b.0 == a.2 && b.1 == a.0 && b.2 == a.1) || (b.0 == a.2 && b.1
            == a.1 && b.2 == a.0);
        proof {
            if r {
                assert(perms.contains(b)) by {
                    if b == perms[0] {
                    } else if b == perms[1] {
                    } else if b == perms[2] {
                    } else if b == perms[3] {
                    } else if b == perms[4] {
                    } else {
                        assert(b == perms[5]);
                    }
                }
            } else {
                if perms.contains(b) {
                    let i = choose|i: int| 0 <= i < perms.len() && perms[i] == b;
                    assert(false);
                }
            }
        }
        r
    }

    /// Every distinct axis-aligned orientation, in strictly increasing
    /// lexicographic (width, length, height) order.
    pub fn unique_rotations(self) -> (r: Vec<Dimensions>)
        ensures
            forall|i: int| 0 <= i < r.len() ==> is_permutation(self@, #[trigger] r[i]@),
            forall|p: Sides|
                is_permutation(self@, p) ==> exists|i: int| 0 <= i < r.len() && #[trigger] r[i]@ == p,
            forall|i: int, j: int| 0 <= i < j < r.len() ==> sides_lt(#[trigger] r[i]@, #[trigger] r[j]@),
            r@.map_values(|x: Dimensions| x@) == rotations_of(self@),
            lists_rotations(self@, rotations_of(self@)),
    {
        let (a, b, c) = sort_three(self.width, self.length, self.height);
        let (x, y, z) = (a.get(), b.get(), c.get());
        let r = if x < y && y < z {
            vec![
                Dimensions::new(a, b, c),
                Dimensions::new(a, c, b),
                Dimensions::new(b, a, c),
                Dimensions::new(b, c, a),
                Dimensions::new(c, a, b),
                Dimensions::new(c, b, a),
            ]
        } else if x == y && y < z {
            vec![Dimensions::new(a, a, c), Dimensions::new(a, c, a), Dimensions::new(c, a, a)]
        } else if x < y && y == z {
            vec![Dimensions::new(a, b, b), Dimensions::new(b, a, b), Dimensions::new(b, b, a)]
        } else {
            vec![Dimensions::new(a, a, a)]
        };
        proof {
            let t = (x, y, z);
            let ps = side_permutations(t);
            lemma_sorted_permutations_cover(self@, x, y, z);
            assert(forall|k: int| 0 <= k < r.len() ==> ps.contains(#[trigger] r[k]@)) by {
                assert forall|k: int| 0 <= k < r.len() implies ps.contains(#[trigger] r[k]@) by {
                    if x < y && y < z {
                        assert(r[k]@ == ps[k]);
                    } else if x == y && y < z {
                        if k == 2 {
                            assert(r[k]@ == ps[4]);
                        } else {
                            assert(r[k]@ == ps[k]);
                        }
                    } else if x < y && y == z {
                        if k == 0 {
                            assert(r[k]@ == ps[0]);
                        } else {
                            assert(r[k]@ == ps[k + 1]);
                        }
                    } else {
                        assert(r[k]@ == ps[0]);
                    }
                }
            }
            assert forall|p: Sides| is_permutation(self@, p) implies exists|k: int|
                0 <= k < r.len() && #[trigger] r[k]@ == p by {
                assert(ps.contains(p));
                let m = choose|m: int| 0 <= m < 6 && ps[m] == p;
                if x < y && y < z {
                    assert(r[m]@ == p);
                } else if x == y && y < z {
                    if m == 0 || m == 2 {
                        assert(r[0]@ == p);
                    } else if m == 1 || m == 3 {
                        assert(r[1]@ == p);
                    } else {
                        assert(r[2]@ == p);
                    }
                } else if x < y && y == z {
                    if m == 0 || m == 1 {
                        assert(r[0]@ == p);
                    } else if m == 2 || m == 4 {
                        assert(r[1]@ == p);
                    } else {
                        assert(r[2]@ == p);
                    }
                } else {
                    assert(r[0]@ == p);
                }
            }
            assert forall|i: int, j: int| 0 <= i < j < r.len() implies sides_lt(
                #[trigger] r[i]@,
                #[trigger] r[j]@,
            ) by {
                if x < y && y < z {
                    assert(r[i]@ == ps[i] && r[j]@ == ps[j]);
                }
            }
            let rv = r@.map_values(|x: Dimensions| x@);
            assert forall|p: Sides| is_permutation(self@, p) implies exists|i: int| 0 <= i < rv.len() && #[trigger] rv[i] == p by {
                let i = choose|i: int| 0 <= i < r.len() && #[trigger] r[i]@ == p;
                assert(rv[i] == p);
            }
            assert forall|i: int| 0 <= i < rv.len() implies is_permutation(self@, #[trigger] rv[i]) by {
                assert(rv[i] == r[i]@);
            }
            assert forall|i: int, j: int| 0 <= i < j < rv.len() implies sides_lt(#[trigger] rv[i], #[trigger] rv[j]) by {
                assert(rv[i] == r[i]@ && rv[j] == r[j]@);
            }
            lemma_rotations_unique(self@, rv);
        }
        r
    }
}

/// `r` lists exactly the orientations of `d`, in increasing lexicographic order.
pub open spec fn lists_rotations(d: Sides, r: Seq<Sides>) -> bool {
    &&& strictly_sorted_by(r, |a: Sides, b: Sides| sides_lt(a, b))
    &&& forall|p: Sides| #[trigger] r.contains(p) <==> is_permutation(d, p)
}

/// The distinct orientations of sides `d`, in increasing lexicographic order.
pub open spec fn rotations_of(d: Sides) -> Seq<Sides> {
    choose|r: Seq<Sides>| #[trigger] lists_rotations(d, r)
}

/// An increasing list of exactly the orientations of `d` is [`rotations_of`].
proof fn lemma_rotations_unique(d: Sides, r: Seq<Sides>)
    requires
        forall|i: int| 0 <= i < r.len() ==> is_permutation(d, #[trigger] r[i]),
        forall|p: Sides| is_permutation(d, p) ==> exists|i: int| 0 <= i < r.len() && #[trigger] r[i] == p,
        forall|i: int, j: int| 0 <= i < j < r.len() ==> sides_lt(#[trigger] r[i], #[trigger] r[j]),
    ensures
        r == rotations_of(d),
        lists_rotations(d, r),
{
    let lt = |a: Sides, b: Sides| sides_lt(a, b);
    assert(strictly_sorted_by(r, lt)) by {
        assert forall|i: int, j: int| 0 <= i < j < r.len() implies lt(#[trigger] r[i], #[trigger] r[j]) by {
            assert(sides_lt(r[i], r[j]));
        }
    }
    assert forall|p: Sides| #[trigger] r.contains(p) <==> is_permutation(d, p) by {
        if is_permutation(d, p) {
            let i = choose|i: int| 0 <= i < r.len() && #[trigger] r[i] == p;
        }
    }
    assert(lists_rotations(d, r));
    let c = rotations_of(d);
    assert(lists_rotations(d, c));
    assert(strictly_sorted_by(c, lt) && forall|p: Sides| #[trigger] c.contains(p) <==> is_permutation(d, p));
    assert forall|x: Sides| !(#[trigger] lt(x, x)) by {}
    assert forall|x: Sides, y: Sides, z: Sides| #[trigger] lt(x, y) && #[trigger] lt(y, z) implies lt(x, z) by {
        assert(sides_lt(x, y) && sides_lt(y, z));
    }
    assert forall|x: Sides| r.contains(x) <==> c.contains(x) by {}
    lemma_sorted_unique(r, c, lt);
}

/// Sort three lengths into non-decreasing order.
fn sort_three(x: Length, y: Length, z: Length) -> (r: (Length, Length, Length))
    ensures
        r.0@ <= r.1@ <= r.2@,
        is_permutation((x@, y@, z@), (r.0@, r.1@, r.2@)),
{
    let (x, y) = if x.get() <= y.get() {
        (x, y)
    } else {
        (y, x)
    };
    let (y, z) = if y.get() <= z.get() {
        (y, z)
    } else {
        (z, y)
    };
    let (x, y) = if x.get() <= y.get() {
        (x, y)
    } else {
        (y, x)
    };
    let r = (x, y, z);
    proof {
        let s = (r.0@, r.1@, r.2@);
        let ps = side_permutations((x@, y@, z@));
        assert(ps[0] == (x@, y@, z@));
    }
    r
}

/// Permutation is symmetric and transitive on side triples.
pub proof fn lemma_permutation_transitive(a: Sides, b: Sides, c: Sides)
    requires
        is_permutation(a, b),
        is_permutation(b, c),
    ensures
        is_permutation(a, c),
        is_permutation(b, a),
{
    let pa = side_permutations(a);
    let pb = side_permutations(b);
    let i = choose|i: int| 0 <= i < pa.len() && pa[i] == b;
    let j = choose|j: int| 0 <= j < pb.len() && pb[j] == c;
    assert(pa.contains(c)) by {
        if c == pa[0] {
        } else if c == pa[1] {
        } else if c == pa[2] {
        } else if c == pa[3] {
        } else if c == pa[4] {
        } else {
            assert(c == pa[5]);
        }
    }
    assert(pb.contains(a)) by {
        if a == pb[0] {
        } else if a == pb[1] {
        } else if a == pb[2] {
        } else if a == pb[3] {
        } else if a == pb[4] {
        } else {
            assert(a == pb[5]);
        }
    }
}

/// A permutation of `d` and the permutations of its sorted sides coincide.
proof fn lemma_sorted_permutations_cover(d: Sides, a: u64, b: u64, c: u64)
    requires
        is_permutation(d, (a, b, c)),
    ensures
        forall|p: Sides| is_permutation(d, p) <==> side_permutations((a, b, c)).contains(p),
{
    assert forall|p: Sides| is_permutation(d, p) <==> side_permutations((a, b, c)).contains(p) by {
        if is_permutation(d, p) {
            lemma_permutation_transitive(d, (a, b, c), d);
            lemma_permutation_transitive((a, b, c), d, p);
        }
        if side_permutations((a, b, c)).contains(p) {
            lemma_permutation_transitive(d, (a, b, c), p);
        }
    }
}

/// A signed-free position on one axis, in scaled units.
#[derive(Clone, Copy, Debug, Eq, Hash, Ord, PartialEq, PartialOrd, Structural)]
pub struct Coordinate(u64);

impl View for Coordinate {
    type V = u64;

    closed spec fn view(&self) -> u64 {
        self.0
    }
}

impl Coordinate {
    pub fn from_scaled_units(value: u64) -> (r: Coordinate)
        ensures
            r@ == value,
    {
        Coordinate(value)
    }

    pub fn get(self) -> (r: u64)
        ensures
            r == self@,
    {
        self.0
    }

    /// The far end of an extent starting here, unless it overflows `u64`.
    pub fn checked_add(self, length: Length) -> (r: Option<u64>)
        ensures
            r.is_some() <==> self@ + length@ <= u64::MAX,
            r matches Some(end) ==> end == self@ + length@,
    {
        self.0.checked_add(length.get())
    }
}

/// Reason a compatibility-output coordinate cannot become exact integer geometry.
#[derive(Clone, Copy, Debug, Eq, PartialEq, Structural)]
pub enum CoordinateConversionError {
    NonFinite,
    Negative,
    OverPrecision,
    OutOfRange,
}

impl CoordinateConversionError {
    /// The diagnostic phrase shown after a field path.
    pub fn message(self) -> (r: &'static str)
        ensures
            r@ == coordinate_error_message(self),
    {
        match self {
            CoordinateConversionError::NonFinite => "must be finite",
            CoordinateConversionError::Negative => "must not be negative",
            CoordinateConversionError::OverPrecision => "must use no more than one decimal place",
            CoordinateConversionError::OutOfRange => "is too large to convert exactly",
        }
    }
}

/// The diagnostic phrase of each coordinate conversion error.
pub open spec fn coordinate_error_message(error: CoordinateConversionError) -> Seq<char> {
    match error {
        CoordinateConversionError::NonFinite => "must be finite"@,
        CoordinateConversionError::Negative => "must not be negative"@,
        CoordinateConversionError::OverPrecision => "must use no more than one decimal place"@,
        CoordinateConversionError::OutOfRange => "is too large to convert exactly"@,
    }
}

/// A corner of an axis-aligned box.
#[derive(Clone, Copy, Debug, Eq, Hash, PartialEq, Structural)]
pub struct Point {
    x: Coordinate,
    y: Coordinate,
    z: Coordinate,
}

impl View for Point {
    type V = (u64, u64, u64);

    closed spec fn view(&self) -> (u64, u64, u64) {
        (self.x@, self.y@, self.z@)
    }
}

impl Point {
    pub fn new(x: Coordinate, y: Coordinate, z: Coordinate) -> (r: Point)
        ensures
            r@ == (x@, y@, z@),
    {
        Point { x, y, z }
    }

    pub fn x(self) -> (r: Coordinate)
        ensures
            r@ == self@.0,
    {
        self.x
    }

    pub fn y(self) -> (r: Coordinate)
        ensures
            r@ == self@.1,
    {
        self.y
    }

    pub fn z(self) -> (r: Coordinate)
        ensures
            r@ == self@.2,
    {
        self.z
    }
}

/// An axis-aligned box given by its minimum corner and its oriented dimensions.
#[derive(Clone, Copy, Debug, Eq, Hash, PartialEq, Structural)]
pub struct Aabb {
    origin: Point,
    dimensions: Dimensions,
}

impl View for Aabb {
    type V = ((u64, u64, u64), Sides);

    closed spec fn view(&self) -> ((u64, u64, u64), Sides) {
        (self.origin@, self.dimensions@)
    }
}

impl Aabb {
    pub fn new(origin: Point, dimensions: Dimensions) -> (r: Aabb)
        ensures
            r@ == (origin@, dimensions@),
    {
        Aabb { origin, dimensions }
    }

    pub fn origin(self) -> (r: Point)
        ensures
            r@ == self@.0,
    {
        self.origin
    }

    pub fn dimensions(self) -> (r: Dimensions)
        ensures
            r@ == self@.1,
    {
        self.dimensions
    }
}

} // verus!
