//! Fractal bullet splitting patterns.
use vstd::prelude::*;
use crate::random::random_index;

verus! {

/// Number of distinct fractal patterns.
pub const PATTERN_COUNT: usize = 11;

/// Different fractal splitting patterns.
#[derive(Debug, Clone, Copy, PartialEq, Eq, Structural)]
pub enum FractalPattern {
    /// 2-way splits at fixed angles.
    BinaryTree,
    /// 3-way splits forming triangles.
    SierpinskiTriangle,
    /// 4-way splits with geometric progression.
    KochSnowflake,
    /// Alternating left/right splits.
    DragonCurve,
    /// Golden-ratio angle splits.
    FibonacciSpiral,
    /// 4-way tetrahedral splits in 3D space.
    Tetrahedron3D,
    /// 6-way octahedral splits.
    Octahedron3D,
    /// 8-way splits to all cube corners.
    Cube3D,
    /// 12-way icosahedral splits.
    Icosahedron3D,
    /// Spiral around the Y axis with 3D branching.
    HelixSpiral3D,
    /// Radial explosion in all directions.
    SphereExplosion3D,
}

/// The pattern that a draw of `index` selects; every index from 10 on
/// selects the radial explosion.
pub open spec fn pattern_of_index(index: int) -> FractalPattern {
    if index == 0 {
        FractalPattern::BinaryTree
    } else if index == 1 {
        FractalPattern::SierpinskiTriangle
    } else if index == 2 {
        FractalPattern::KochSnowflake
    } else if index == 3 {
        FractalPattern::DragonCurve
    } else if index == 4 {
        FractalPattern::FibonacciSpiral
    } else if index == 5 {
        FractalPattern::Tetrahedron3D
    } else if index == 6 {
        FractalPattern::Octahedron3D
    } else if index == 7 {
        FractalPattern::Cube3D
    } else if index == 8 {
        FractalPattern::Icosahedron3D
    } else if index == 9 {
        FractalPattern::HelixSpiral3D
    } else {
        FractalPattern::SphereExplosion3D
    }
}

/// Number of children a pattern creates per split.
pub open spec fn spec_child_count(p: FractalPattern) -> nat {
    match p {
        FractalPattern::BinaryTree => 2,
        FractalPattern::SierpinskiTriangle => 3,
        FractalPattern::KochSnowflake => 4,
        FractalPattern::DragonCurve => 2,
        FractalPattern::FibonacciSpiral => 2,
        FractalPattern::Tetrahedron3D => 4,
        FractalPattern::Octahedron3D => 6,
        FractalPattern::Cube3D => 8,
        FractalPattern::Icosahedron3D => 12,
        FractalPattern::HelixSpiral3D => 3,
        FractalPattern::SphereExplosion3D => 10,
    }
}

/// The generation limits `(fewest, most)` a random fractal configuration
/// gives a pattern: the more children per split, the fewer generations.
pub open spec fn spec_depth_range(p: FractalPattern) -> (int, int) {
    match p {
        FractalPattern::BinaryTree | FractalPattern::DragonCurve | FractalPattern::FibonacciSpiral => (5, 8),
        FractalPattern::SierpinskiTriangle | FractalPattern::HelixSpiral3D => (5, 8),
        FractalPattern::KochSnowflake | FractalPattern::Tetrahedron3D => (4, 6),
        FractalPattern::Octahedron3D => (3, 5),
        FractalPattern::Cube3D | FractalPattern::SphereExplosion3D => (3, 3),
        FractalPattern::Icosahedron3D => (3, 3),
    }
}

impl FractalPattern {
    /// The generation limits `(fewest, most)` of a random configuration of
    /// this pattern (see `spec_depth_range`).
    pub fn depth_range(&self) -> (r: (usize, usize))
        ensures
            r.0 == spec_depth_range(*self).0,
            r.1 == spec_depth_range(*self).1,
    {
        match self {
            FractalPattern::BinaryTree | FractalPattern::DragonCurve | FractalPattern::FibonacciSpiral => (5, 8),
            FractalPattern::SierpinskiTriangle | FractalPattern::HelixSpiral3D => (5, 8),
            FractalPattern::KochSnowflake | FractalPattern::Tetrahedron3D => (4, 6),
            FractalPattern::Octahedron3D => (3, 5),
            FractalPattern::Cube3D | FractalPattern::SphereExplosion3D => (3, 3),
            FractalPattern::Icosahedron3D => (3, 3),
        }
    }

    /// The generation limit that a draw of `draw` gives: `draw` more than
    /// the fewest generations of the pattern's range.
    pub fn max_depth_for(&self, draw: usize) -> (d: usize)
        requires
            draw <= spec_depth_range(*self).1 - spec_depth_range(*self).0,
        ensures
            d == spec_depth_range(*self).0 + draw,
    {
        let (lo, _hi) = self.depth_range();
        lo + draw
    }

    /// A random generation limit for a configuration of this pattern: the
    /// draw is uniform over `0..=most - fewest`, and the limit is
    /// `max_depth_for` it.
    pub fn random_max_depth(&self) -> (d: usize)
        ensures
            spec_depth_range(*self).0 <= d <= spec_depth_range(*self).1,
    {
        let (lo, hi) = self.depth_range();
        let draw = random_index(hi - lo + 1);
        self.max_depth_for(draw)
    }

    /// The pattern selected by a draw of `index` (see `pattern_of_index`).
    pub fn from_index(index: usize) -> (p: FractalPattern)
        ensures
            p == pattern_of_index(index as int),
    {
        match index {
            0 => FractalPattern::BinaryTree,
            1 => FractalPattern::SierpinskiTriangle,
            2 => FractalPattern::KochSnowflake,
            3 => FractalPattern::DragonCurve,
            4 => FractalPattern::FibonacciSpiral,
            5 => FractalPattern::Tetrahedron3D,
            6 => FractalPattern::Octahedron3D,
            7 => FractalPattern::Cube3D,
            8 => FractalPattern::Icosahedron3D,
            9 => FractalPattern::HelixSpiral3D,
            _ => FractalPattern::SphereExplosion3D,
        }
    }

    /// Randomly select a fractal pattern, each of the eleven equally likely.
    pub fn random() -> (p: FractalPattern)
        ensures
            exists|i: int| 0 <= i < PATTERN_COUNT && p == pattern_of_index(i),
    {
        let i = random_index(PATTERN_COUNT);
        FractalPattern::from_index(i)
    }

    /// The number of children this pattern creates per split.
    pub fn child_count(&self) -> (n: usize)
        ensures
            n == spec_child_count(*self),
            2 <= n <= 12,
    {
        match self {
            FractalPattern::BinaryTree => 2,
            FractalPattern::SierpinskiTriangle => 3,
            FractalPattern::KochSnowflake => 4,
            FractalPattern::DragonCurve => 2,
            FractalPattern::FibonacciSpiral => 2,
            FractalPattern::Tetrahedron3D => 4,
            FractalPattern::Octahedron3D => 6,
            FractalPattern::Cube3D => 8,
            FractalPattern::Icosahedron3D => 12,
            FractalPattern::HelixSpiral3D => 3,
            FractalPattern::SphereExplosion3D => 10,
        }
    }
}

/// The split arity each pattern is named for: two-way trees, curves and
/// spirals, three-way triangles and helices, four-way snowflakes and
/// tetrahedra, one child per vertex of the octahedron (6), corner of the
/// cube (8) and vertex of the icosahedron (12), and ten for the radial
/// explosion.
pub proof fn lemma_child_count_arity(p: FractalPattern)
    ensures
        p == FractalPattern::BinaryTree || p == FractalPattern::DragonCurve || p == FractalPattern::FibonacciSpiral
            ==> spec_child_count(p) == 2,
        p == FractalPattern::SierpinskiTriangle || p == FractalPattern::HelixSpiral3D ==> spec_child_count(p) == 3,
        p == FractalPattern::KochSnowflake || p == FractalPattern::Tetrahedron3D ==> spec_child_count(p) == 4,
        p == FractalPattern::Octahedron3D ==> spec_child_count(p) == 6,
        p == FractalPattern::Cube3D ==> spec_child_count(p) == 8,
        p == FractalPattern::Icosahedron3D ==> spec_child_count(p) == 12,
        p == FractalPattern::SphereExplosion3D ==> spec_child_count(p) == 10,
{
}

/// The more children a pattern creates per split, the fewer generations a
/// random configuration allows it: a pattern with no more children than
/// another allows at least as many generations, and patterns with as many
/// children per split get the same generation limits.
pub proof fn lemma_children_bound_depth(p: FractalPattern, q: FractalPattern)
    ensures
        spec_child_count(p) <= spec_child_count(q) ==> spec_depth_range(p).1 >= spec_depth_range(q).1,
        spec_child_count(p) <= spec_child_count(q) ==> spec_depth_range(p).0 >= spec_depth_range(q).0,
        spec_child_count(p) == spec_child_count(q) ==> spec_depth_range(p) == spec_depth_range(q),
{
}

/// The generation limits follow the split arity alone: two- and
/// three-way patterns go five to eight generations deep, four-way ones
/// four to six, six-way ones three to five, and those of eight or more
/// children exactly three.
pub proof fn lemma_depth_by_arity(p: FractalPattern)
    ensures
        spec_child_count(p) <= 3 ==> spec_depth_range(p) == (5int, 8int),
        spec_child_count(p) == 4 ==> spec_depth_range(p) == (4int, 6int),
        spec_child_count(p) == 6 ==> spec_depth_range(p) == (3int, 5int),
        spec_child_count(p) >= 8 ==> spec_depth_range(p) == (3int, 3int),
        spec_child_count(p) == 2 || spec_child_count(p) == 3 || spec_child_count(p) == 4 || spec_child_count(p) == 6
            || spec_child_count(p) >= 8,
{
}

} // verus!
