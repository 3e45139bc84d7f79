//! The grid-ingestion interface: an 81-slot row-major sequence of optional
//! given digits, and the parser abstraction that external puzzle sources
//! implement to produce one.

use vstd::prelude::*;

use crate::solver::valid_value;

verus! {

/// An 81-slot row-major grid of given digits; `None` marks an unknown cell.
#[derive(Clone, Debug)]
pub struct ParsedGrid {
    pub cells: Vec<Option<u8>>,
}

/// The digit that the listed squares leave at position `p`: the last square
/// writing `p` wins, as when the squares are applied in order.
pub open spec fn given_at(squares: Seq<(usize, usize, u8)>, p: int) -> Option<u8>
    decreases squares.len(),
{
    if squares.len() == 0 {
        None
    } else if squares.last().1 * 9 + squares.last().0 == p {
        Some(squares.last().2)
    } else {
        given_at(squares.drop_last(), p)
    }
}

impl ParsedGrid {
    pub open spec fn wf(&self) -> bool {
        &&& self.cells@.len() == 81
        &&& forall|i: int|
            0 <= i < 81 ==> match #[trigger] self.cells@[i] {
                Some(v) => valid_value(v as int),
                None => true,
            }
    }

    /// Builds the grid from a list of `(column, row, digit)` squares, any
    /// cell not named being unknown; a later square overrides an earlier
    /// one naming the same cell.
    pub fn from_squares(squares: &Vec<(usize, usize, u8)>) -> (r: ParsedGrid)
        requires
            forall|j: int|
                0 <= j < squares@.len() ==> {
                    &&& (#[trigger] squares@[j]).0 < 9
                    &&& squares@[j].1 < 9
                    &&& valid_value(squares@[j].2 as int)
                },
        ensures
            r.wf(),
            forall|p: int| 0 <= p < 81 ==> #[trigger] r.cells@[p] == given_at(squares@, p),
    {
        let mut cells: Vec<Option<u8>> = Vec::new();
        let mut i: usize = 0;
        while i < 81
            invariant
                i <= 81,
                cells@.len() == i,
                forall|p: int| 0 <= p < i ==> #[trigger] cells@[p] == None::<u8>,
            decreases 81 - i,
        {
            cells.push(None);
            i = i + 1;
        }
        let mut j: usize = 0;
        while j < squares.len()
            invariant
                j <= squares@.len(),
                cells@.len() == 81,
                forall|j2: int|
                    0 <= j2 < squares@.len() ==> {
                        &&& (#[trigger] squares@[j2]).0 < 9
                        &&& squares@[j2].1 < 9
                        &&& valid_value(squares@[j2].2 as int)
                    },
                forall|p: int|
                    0 <= p < 81 ==> #[trigger] cells@[p] == given_at(squares@.take(j as int), p),
            decreases squares@.len() - j,
        {
            proof {
                assert(squares@.take(j + 1).drop_last() =~= squares@.take(j as int));
                assert(squares@.take(j + 1).last() == squares@[j as int]);
            }
            let (x, y, value) = squares[j];
            let idx = y * 9 + x;
            cells[idx] = Some(value);
            j = j + 1;
        }
        proof {
            assert(squares@.take(squares@.len() as int) =~= squares@);
            assert forall|p: int| 0 <= p < 81 implies match #[trigger] cells@[p] {
                Some(v) => valid_value(v as int),
                None => true,
            } by {
                lemma_given_at_valid(squares@, p);
            }
        }
        ParsedGrid { cells }
    }
}

/// A digit left by valid squares is a valid digit.
proof fn lemma_given_at_valid(squares: Seq<(usize, usize, u8)>, p: int)
    requires
        forall|j: int| 0 <= j < squares.len() ==> valid_value((#[trigger] squares[j]).2 as int),
    ensures
        match given_at(squares, p) {
            Some(v) => valid_value(v as int),
            None => true,
        },
    decreases squares.len(),
{
    if squares.len() > 0 {
        assert(squares[squares.len() - 1] == squares.last());
        if squares.last().1 * 9 + squares.last().0 != p {
            assert forall|j: int|
                0 <= j < squares.drop_last().len() implies valid_value(
                (#[trigger] squares.drop_last()[j]).2 as int,
            ) by {
                assert(squares.drop_last()[j] == squares[j]);
            }
            lemma_given_at_valid(squares.drop_last(), p);
        }
    }
}

/// Translates an external puzzle representation into a grid.  Concrete
/// parsers live with the I/O layer that obtains the representation.
pub trait Parser {
    fn parse(&mut self, s: &str) -> Result<ParsedGrid, String>;
}

} // verus!
