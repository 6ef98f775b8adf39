//! Column-by-column traversal of the coordinates of a grid.

use vstd::arithmetic::div_mod::{
    lemma_fundamental_div_mod, lemma_fundamental_div_mod_converse, lemma_mod_bound,
};
use vstd::prelude::*;

verus! {

/// The coordinate visited at step `rank` of a traversal that walks down each
/// column in turn: the column is `rank / height`, the row `rank % height`.
pub open spec fn coordinate_at(height: int, rank: int) -> (int, int) {
    (rank / height, rank % height)
}

/// The step at which a column-by-column traversal visits `(x, y)`.
pub open spec fn rank_of(height: int, x: int, y: int) -> int {
    x * height + y
}

/// Every step below `width * height` visits a coordinate of the grid, and
/// that coordinate has the step as its rank.
pub proof fn lemma_coordinate_in_grid(width: int, height: int, rank: int)
    requires
        0 <= width,
        0 <= height,
        0 <= rank < width * height,
    ensures
        0 <= coordinate_at(height, rank).0 < width,
        0 <= coordinate_at(height, rank).1 < height,
        rank_of(height, coordinate_at(height, rank).0, coordinate_at(height, rank).1) == rank,
{
    assert(height > 0) by (nonlinear_arith)
        requires
            0 <= rank < width * height,
            0 <= width,
            0 <= height,
    ;
    lemma_fundamental_div_mod(rank, height);
    lemma_mod_bound(rank, height);
    let column = rank / height;
    assert(height * column == column * height) by (nonlinear_arith);
    if column >= width {
        assert(column * height >= width * height) by (nonlinear_arith)
            requires
                column >= width,
                height > 0,
        ;
    }
    if column < 0 {
        assert(column * height <= -height) by (nonlinear_arith)
            requires
                column <= -1,
                height > 0,
        ;
    }
}

/// Every coordinate of the grid is visited at the step given by its rank,
/// and at no other.
pub proof fn lemma_rank_in_traversal(width: int, height: int, x: int, y: int)
    requires
        0 <= x < width,
        0 <= y < height,
    ensures
        0 <= rank_of(height, x, y) < width * height,
        coordinate_at(height, rank_of(height, x, y)) == (x, y),
{
    assert(0 <= x * height && x * height + y < width * height) by (nonlinear_arith)
        requires
            0 <= x < width,
            0 <= y < height,
    ;
    lemma_fundamental_div_mod_converse(x * height + y, height, x, y);
}

/// A cursor over the coordinates of a `width` by `height` grid.
///
/// Coordinates come column by column: all rows of column zero from the top
/// down, then all rows of column one, and so on.
pub struct ImageIterator {
    width: u32,
    height: u32,
    index: u64,
}

impl ImageIterator {
    #[verifier::type_invariant]
    spec fn within_grid(&self) -> bool {
        self.index <= self.width * self.height
    }

    /// Number of columns of the grid being traversed.
    pub closed spec fn width(&self) -> nat {
        self.width as nat
    }

    /// Number of rows of the grid being traversed.
    pub closed spec fn height(&self) -> nat {
        self.height as nat
    }

    /// Number of coordinates handed out so far.
    pub closed spec fn position(&self) -> nat {
        self.index as nat
    }

    /// Number of coordinates of the grid.
    pub open spec fn total(&self) -> nat {
        self.width() * self.height()
    }

    /// Starts a traversal at the first coordinate.
    pub fn new(width: u32, height: u32) -> (cursor: Self)
        ensures
            cursor.width() == width,
            cursor.height() == height,
            cursor.position() == 0,
    {
        assert(0 <= width * height) by (nonlinear_arith);
        Self { width, height, index: 0_u64 }
    }

    /// Hands out the next coordinate as `(x, y)`, or `None` once all
    /// `width * height` coordinates have been handed out. An exhausted cursor
    /// stays where it is.
    pub fn next(&mut self) -> (item: Option<(u32, u32)>)
        ensures
            final(self).width() == old(self).width(),
            final(self).height() == old(self).height(),
            match item {
                Some((x, y)) => {
                    &&& old(self).position() < old(self).total()
                    &&& (x as int, y as int) == coordinate_at(
                        old(self).height() as int,
                        old(self).position() as int,
                    )
                    &&& x < old(self).width()
                    &&& y < old(self).height()
                    &&& final(self).position() == old(self).position() + 1
                },
                None => {
                    &&& old(self).position() >= old(self).total()
                    &&& final(self).position() == old(self).position()
                },
            },
    {
        proof {
            use_type_invariant(&*self);
        }
        let n: u64 = self.index;
        assert(self.width * self.height <= 0xffff_ffff * 0xffff_ffff) by (nonlinear_arith)
            requires
                self.width <= 0xffff_ffff,
                self.height <= 0xffff_ffff,
        ;
        let total: u64 = self.width as u64 * self.height as u64;
        if n < total {
            proof {
                lemma_coordinate_in_grid(self.width as int, self.height as int, n as int);
            }
            let height: u64 = self.height as u64;
            let x: u64 = n / height;
            let y: u64 = n % height;
            self.index = n + 1;
            Some((x as u32, y as u32))
        } else {
            None
        }
    }
}

} // verus!
