//! One cell of the grid: its value and the values still possible for it.
use vstd::prelude::*;
use crate::model::{CellModel, cleared_cell, full_poss};

verus! {

/// One cell of the grid.
pub struct Cell {
    value: i32,
    possible_values: Vec<i32>,
}

impl View for Cell {
    type V = CellModel;

    closed spec fn view(&self) -> CellModel {
        CellModel { value: self.value, poss: self.possible_values@ }
    }
}

impl Cell {
    /// An open cell with every value from 1 to 9 possible.
    pub fn new() -> (c: Cell)
        ensures
            c@ == cleared_cell(),
            c@.is_board_cell(),
    {
        proof {
            crate::model::lemma_cleared_cell_wf();
        }
        let mut possible_values: Vec<i32> = Vec::new();
        let mut v: i32 = 1;
        while v <= 9
            invariant
                1 <= v <= 10,
                possible_values@ == full_poss().take(v - 1),
            decreases 10 - v,
        {
            possible_values.push(v);
            v = v + 1;
            assert(possible_values@ =~= full_poss().take(v - 1));
        }
        assert(possible_values@ =~= full_poss());
        Cell { value: 0, possible_values }
    }

    /// Set the value of the cell, which becomes its only candidate.
    /// Values outside 0..=9 are refused and leave the cell unchanged;
    /// 0 stands for an empty cell.
    pub fn set_value(&mut self, value: i32) -> (r: Result<(), String>)
        ensures
            r is Ok <==> 0 <= value <= 9,
            r is Err ==> r->Err_0@ == "Cell values cannot be outside of the range 0..9. Use 0 to represent a cell that is empty."@,
            final(self)@ == old(self)@.with_value(value),
            (0 <= value <= 9 || old(self)@.wf()) ==> final(self)@.wf(),
            1 <= value <= 9 ==> final(self)@.is_board_cell(),
    {
        if value > 9 || value < 0 {
            return Err("Cell values cannot be outside of the range 0..9. Use 0 to represent a cell that is empty.".to_string());
        }
        self.value = value;
        let mut pv: Vec<i32> = Vec::new();
        pv.push(value);
        self.possible_values = pv;
        assert(self.possible_values@ =~= seq![value]);
        assert(seq![value].no_duplicates());
        assert(seq![value].contains(0) ==> value == 0);
        Ok(())
    }

    /// The value of the cell; 0 when it is empty.
    pub fn get_value(&self) -> (v: i32)
        ensures
            v == self@.value,
    {
        self.value
    }

    /// Make the cell empty again, with every value from 1 to 9 possible.
    pub fn clear(&mut self)
        ensures
            final(self)@ == cleared_cell(),
            final(self)@.is_board_cell(),
    {
        *self = Cell::new();
    }

    /// Drop `value` from the candidates of an empty cell; a cell with a
    /// value keeps its candidates. Returns whether a candidate was dropped.
    pub fn remove_possibility(&mut self, value: i32) -> (removed: bool)
        ensures
            final(self)@ == old(self)@.minus(set![value]),
            removed == (old(self)@.value <= 0 && old(self)@.poss.contains(value)),
            old(self)@.wf() ==> final(self)@.wf(),
            old(self)@.is_board_cell() ==> final(self)@.is_board_cell(),
    {
        proof {
            crate::model::lemma_minus_facts(self@, set![value]);
        }
        if self.value > 0 {
            return false;
        }
        let ghost p = |v: i32| v != value;
        let mut kept: Vec<i32> = Vec::new();
        let mut removed = false;
        let mut i: usize = 0;
        while i < self.possible_values.len()
            invariant
                self.value <= 0,
                p == (|v: i32| v != value),
                i <= self.possible_values@.len(),
                kept@ == self.possible_values@.take(i as int).filter(p),
                removed == self.possible_values@.take(i as int).contains(value),
            decreases self.possible_values@.len() - i,
        {
            let x = self.possible_values[i];
            proof {
                let s = self.possible_values@;
                assert(s.take(i + 1) =~= s.take(i as int).push(x));
                s.take(i as int).lemma_filter_push(x, p);
                vstd::seq_lib::lemma_seq_contains_after_push(s.take(i as int), x, value);
            }
            if x != value {
                kept.push(x);
            } else {
                removed = true;
            }
            i = i + 1;
        }
        proof {
            let s = self.possible_values@;
            assert(s.take(i as int) =~= s);
            assert forall|j: int| 0 <= j < s.len() implies p(s[j]) == !set![value].contains(s[j]) by {
                assert(set![value].contains(s[j]) <==> s[j] == value);
            }
            crate::seqs::lemma_filter_ext(s, p, |v: i32| !set![value].contains(v));
        }
        self.possible_values = kept;
        removed
    }

    /// The values still possible for the cell.
    pub fn possibilities(&self) -> (p: &Vec<i32>)
        ensures
            p@ == self@.poss,
    {
        &self.possible_values
    }
}

} // verus!
