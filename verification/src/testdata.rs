//! Sample puzzles of increasing difficulty.
use vstd::prelude::*;
use crate::grid::Grid;
use crate::model::from_string_model;

verus! {

/// Sample puzzles.
pub struct TestData {}

impl TestData {
    /// An easy puzzle.
    pub fn simple() -> (g: Grid)
        ensures
            g@ == from_string_model("\
            300 002 960\
            140 000 208\
            002 971 000\
            001 400 026\
            204 085 090\
            708 010 003\
            453 000 010\
            010 754 000\
            007 109 604"@),
            g.wf(),
    {
        Grid::from_string("\
            300 002 960\
            140 000 208\
            002 971 000\
            001 400 026\
            204 085 090\
            708 010 003\
            453 000 010\
            010 754 000\
            007 109 604")
    }

    /// A puzzle of medium difficulty.
    pub fn medium() -> (g: Grid)
        ensures
            g@ == from_string_model("\
            002 503 000\
            008 060 000\
            000 020 059\
            000 689 305\
            000 000 080\
            020 005 006\
            007 000 204\
            000 804 000\
            009 700 010"@),
            g.wf(),
    {
        Grid::from_string("\
            002 503 000\
            008 060 000\
            000 020 059\
            000 689 305\
            000 000 080\
            020 005 006\
            007 000 204\
            000 804 000\
            009 700 010")
    }

    /// A hard puzzle.
    pub fn hard() -> (g: Grid)
        ensures
            g@ == from_string_model("\
            100 007 090\
            030 020 008\
            009 600 500\
            005 300 900\
            010 080 020\
            600 004 003\
            007 008 000\
            000 030 080\
            020 400 001"@),
            g.wf(),
    {
        Grid::from_string("\
            100 007 090\
            030 020 008\
            009 600 500\
            005 300 900\
            010 080 020\
            600 004 003\
            007 008 000\
            000 030 080\
            020 400 001")
    }

    /// A very hard puzzle, which needs the elimination techniques.
    pub fn expert() -> (g: Grid)
        ensures
            g@ == from_string_model("\
            000 050 030\
            000 704 000\
            100 300 049\
            000 490 281\
            032 580 900\
            000 000 000\
            965 000 000\
            000 000 000\
            007 200 000"@),
            g.wf(),
    {
        Grid::from_string("\
            000 050 030\
            000 704 000\
            100 300 049\
            000 490 281\
            032 580 900\
            000 000 000\
            965 000 000\
            000 000 000\
            007 200 000")
    }
}

} // verus!
