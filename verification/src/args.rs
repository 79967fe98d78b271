//! Run configuration: which reports to produce and the board dimensions.

use vstd::prelude::*;

verus! {

/// What a run of the program should do, and on which board.
pub struct Args {
    /// List and print all individual pieces, including symmetry.
    pub pieces: bool,
    /// Solve the board and print all solutions.
    pub solve: bool,
    /// Solve the board and count (but do not print) the solutions.
    pub count: bool,
    /// Board width.
    pub width: usize,
    /// Board height.
    pub height: usize,
}

impl Default for Args {
    /// By default nothing is printed and the classic 10 x 6 board is used.
    fn default() -> (r: Args)
        ensures
            !r.pieces && !r.solve && !r.count,
            r.width == 10 && r.height == 6,
    {
        Args { pieces: false, solve: false, count: false, width: 10, height: 6 }
    }
}

} // verus!
