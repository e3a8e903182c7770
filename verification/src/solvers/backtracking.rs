//! The grid and the depth-first search that fills it.

use vstd::prelude::*;
use vstd::std_specs::iter::IteratorSpec;
use crate::solvers::measure::{
    lemma_advance_works, lemma_retreat_works, lemma_trail_fits_grid, lemma_work_left_positive,
    work_left,
};
use crate::solvers::order::{
    first_completion, grid_le, in_order, lemma_empty_log, lemma_found_first,
    lemma_in_order_assign, lemma_in_order_undo,
};
use crate::solvers::resume::{
    continues, found_from, lemma_continue_advance, lemma_continue_retreat, lemma_continue_step_in,
    lemma_continues_itself,
};
use crate::solvers::search::{
    ahead, completes, cursor, kept_behind, lemma_advance, lemma_agreeing_not_passed_over,
    lemma_assign_keeps_givens, lemma_behind_advance, lemma_behind_push, lemma_behind_retreat,
    lemma_complete_grid_completes, lemma_empty_cell_not_given, lemma_exhausted, lemma_retreat,
    lemma_step_in, lemma_undo_keeps_givens, none_skipped, passed_over,
};
use crate::solvers::grid::{
    absent_from_block, absent_from_col, absent_from_row, block_cell, lemma_block_cell,
    lemma_assign_wf, lemma_place_in_block, lemma_undo_wf, place_in_block, same_block, sees,
    State,
};

verus! {

/// Number of cells along one side of a block.
pub const SQUARE_SIDE: usize = 3;

/// Number of cells along one side of the grid.
pub const SIDE: usize = 9;

/// Number of cells in the grid.
pub const SIZE: usize = 81;

/// Value of a cell that holds no digit.
pub const EMPTY: u8 = 0;

/// One assignment made during the search: the cell and the digit written.
pub struct LogEntry {
    pub pos: usize,
    pub val: u8,
}

/// The reason why an assignment was refused.
#[derive(Debug, Clone)]
pub struct ValueNotAllowed {
    pub msg: String,
}

/// The outcome of a search that found no way to fill the grid.
#[derive(Debug, Clone)]
pub struct Unsolvable {}

/// The grid together with the log of the assignments that can be undone.
pub struct Sudoku {
    field: [u8; SIZE],
    backtrack_log: Vec<LogEntry>,
}

impl View for Sudoku {
    type V = State;

    closed spec fn view(&self) -> State {
        State { cells: self.field@, trail: self.backtrack_log@ }
    }
}

impl Sudoku {
    #[verifier::type_invariant]
    spec fn inv(&self) -> bool {
        self@.wf()
    }

    /// Builds a new sudoku from the provided field.
    ///
    /// The field must yield exactly 81 cells, row by row, 0 for an empty
    /// one; any other number of cells gives `None`. The cells' values are
    /// taken as they come, also where they are no digits. No more than 82
    /// cells are read from the field.
    pub fn new(field: impl Iterator<Item = u8>) -> (r: Option<Sudoku>)
        ensures
            r matches Some(s) ==> s@.wf() && s@.trail.len() == 0,
            field.obeys_prophetic_iter_laws() ==> match r {
                Some(s) => field.remaining().len() == SIZE && s@.cells == field.remaining(),
                None => field.remaining().len() != SIZE,
            },
    {
        let mut rest = field;
        let mut field_array: [u8; SIZE] = [EMPTY; SIZE];
        let mut n: usize = 0;
        while n < SIZE
            invariant
                n <= SIZE,
                rest.obeys_prophetic_iter_laws() == field.obeys_prophetic_iter_laws(),
                field.obeys_prophetic_iter_laws() ==> {
                    &&& n <= field.remaining().len()
                    &&& rest.remaining() == field.remaining().skip(n as int)
                },
                field.obeys_prophetic_iter_laws() ==> forall|j: int|
                    0 <= j < n ==> #[trigger] field_array@[j] == field.remaining()[j],
            decreases SIZE - n,
        {
            match rest.next() {
                Some(cell) => {
                    field_array[n] = cell;
                },
                None => {
                    return None;
                },
            }
            n += 1;
        }
        match rest.next() {
            Some(_) => None,
            None => Some(Sudoku { field: field_array, backtrack_log: Vec::new() }),
        }
    }

    /// Appends an entry to the log. The log is taken out of the solver while
    /// it grows and put back whole.
    fn push_log(&mut self, entry: LogEntry)
        requires
            (State { cells: old(self)@.cells, trail: old(self)@.trail.push(entry) }).wf(),
        ensures
            final(self)@.cells == old(self)@.cells,
            final(self)@.trail == old(self)@.trail.push(entry),
    {
        proof {
            use_type_invariant(&*self);
        }
        let mut log: Vec<LogEntry> = Vec::new();
        core::mem::swap(&mut self.backtrack_log, &mut log);
        log.push(entry);
        core::mem::swap(&mut self.backtrack_log, &mut log);
    }

    /// Removes the newest entry from the log, if there is one. The log is
    /// taken out of the solver while it shrinks and put back whole.
    fn pop_log(&mut self) -> (r: Option<LogEntry>)
        ensures
            final(self)@.cells == old(self)@.cells,
            match r {
                Some(entry) => {
                    &&& old(self)@.trail.len() > 0
                    &&& entry == old(self)@.trail.last()
                    &&& final(self)@.trail == old(self)@.trail.drop_last()
                },
                None => old(self)@.trail.len() == 0 && final(self)@.trail == old(self)@.trail,
            },
    {
        proof {
            use_type_invariant(&*self);
            if self@.trail.len() > 0 {
                lemma_undo_wf(self@);
            }
        }
        let mut log: Vec<LogEntry> = Vec::new();
        core::mem::swap(&mut self.backtrack_log, &mut log);
        let r = log.pop();
        core::mem::swap(&mut self.backtrack_log, &mut log);
        r
    }

    /// The 81 cells, row by row, 0 for an empty one.
    pub fn cells(&self) -> (r: &[u8; SIZE])
        ensures
            r@ == self@.cells,
            r@.len() == SIZE,
    {
        proof {
            use_type_invariant(self);
        }
        &self.field
    }

    /// Returns true if the given number is allowed in row on the given position.
    fn is_allowed_in_row(&self, number: u8, pos: usize) -> (r: bool)
        requires
            pos < SIZE,
        ensures
            r == absent_from_row(self@.cells, number, pos as int),
    {
        proof {
            use_type_invariant(self);
        }
        let y = pos / SIDE;
        let mut i: usize = 0;
        while i < SIDE
            invariant
                i <= SIDE,
                pos < SIZE,
                y == pos / SIDE,
                self@.cells.len() == 81,
                forall|q: int| y * 9 <= q < y * 9 + i ==> #[trigger] self@.cells[q] != number,
            decreases SIDE - i,
        {
            if self.field[y * SIDE + i] == number {
                return false;
            }
            i += 1;
        }
        true
    }

    /// Returns true if the given number is allowed in column on the given position.
    fn is_allowed_in_col(&self, number: u8, pos: usize) -> (r: bool)
        requires
            pos < SIZE,
        ensures
            r == absent_from_col(self@.cells, number, pos as int),
    {
        proof {
            use_type_invariant(self);
        }
        let x = pos % SIDE;
        let mut i: usize = 0;
        while i < SIDE
            invariant
                i <= SIDE,
                x == pos % SIDE,
                self@.cells.len() == 81,
                forall|q: int|
                    0 <= q < 81 && q % 9 == x && q / 9 < i ==> #[trigger] self@.cells[q] != number,
            decreases SIDE - i,
        {
            if self.field[i * SIDE + x] == number {
                return false;
            }
            i += 1;
        }
        true
    }

    /// Returns true if the given number is allowed in square on the given position.
    fn is_allowed_in_square(&self, number: u8, pos: usize) -> (r: bool)
        requires
            pos < SIZE,
        ensures
            r == absent_from_block(self@.cells, number, pos as int),
    {
        proof {
            use_type_invariant(self);
        }
        let y = pos / SIDE;
        let x = pos % SIDE;
        let square_start_x = (x / SQUARE_SIDE) * SQUARE_SIDE;
        let square_start_y = (y / SQUARE_SIDE) * SQUARE_SIDE;
        let mut i: usize = 0;
        while i < SIDE
            invariant
                i <= SIDE,
                pos < SIZE,
                square_start_x == ((pos % 9) / 3) * 3,
                square_start_y == ((pos / 9) / 3) * 3,
                self@.cells.len() == 81,
                forall|q: int|
                    0 <= q < 81 && same_block(pos as int, q) && place_in_block(q) < i
                        ==> #[trigger] self@.cells[q] != number,
            decreases SIDE - i,
        {
            let square_x = i % SQUARE_SIDE + square_start_x;
            let square_y = i / SQUARE_SIDE + square_start_y;
            proof {
                lemma_block_cell(pos as int, i as int);
            }
            assert(SIDE * square_y + square_x == block_cell(pos as int, i as int));
            if self.field[SIDE * square_y + square_x] == number {
                return false;
            }
            assert forall|q: int|
                0 <= q < 81 && same_block(pos as int, q) && place_in_block(q) < i + 1
                    implies #[trigger] self@.cells[q] != number by {
                lemma_place_in_block(pos as int, q);
            }
            i += 1;
        }
        assert forall|q: int| 0 <= q < 81 && same_block(pos as int, q)
            implies #[trigger] self@.cells[q] != number by {
            lemma_place_in_block(pos as int, q);
        }
        true
    }

    /// Returns true if the given element is allowed on a given position.
    ///
    /// A filled cell allows nothing. An empty cell allows exactly the digits
    /// from 1 to 9 that its row, its column and its block do not hold yet.
    pub fn is_allowed(&self, number: u8, pos: usize) -> (r: bool)
        requires
            pos < SIZE,
        ensures
            r == self@.allows(number, pos as int),
            self@.cells[pos as int] != EMPTY ==> !r,
            self@.cells[pos as int] == EMPTY && 1 <= number <= 9 ==> (r <==> forall|q: int|
                0 <= q < 81 && sees(pos as int, q) ==> #[trigger] self@.cells[q] != number),
    {
        proof {
            use_type_invariant(self);
        }
        // Make sure value is not already set and is valid.
        if self.field[pos] != EMPTY || number > SIDE as u8 {
            return false;
        }
        let in_col = self.is_allowed_in_col(number, pos);
        let in_row = self.is_allowed_in_row(number, pos);
        let in_square = self.is_allowed_in_square(number, pos);
        in_col && in_row && in_square
    }

    /// Set the value of the given position.
    ///
    /// The function tries to set the value of the given position and returns
    /// a result if value is allowed there. Otherwise the function will return
    /// an error and change nothing. Each successful call to the function is
    /// tracked in the log, and the last call can be rolled back with the
    /// `self.rollback()` call.
    pub fn set_value(&mut self, number: u8, pos: usize) -> (r: Result<(), ValueNotAllowed>)
        requires
            pos < SIZE,
        ensures
            final(self)@.wf(),
            r is Ok <==> old(self)@.allows(number, pos as int),
            r is Ok ==> final(self)@ == old(self)@.assign(number, pos as int),
            r is Err ==> final(self)@ == old(self)@,
            r matches Err(e) ==> e.msg@ == "Value is not allowed in the position"@,
    {
        proof {
            use_type_invariant(&*self);
        }
        if !self.is_allowed(number, pos) {
            return Err(ValueNotAllowed { msg: "Value is not allowed in the position".to_owned() });
        }
        proof {
            lemma_assign_wf(self@, number, pos as int);
        }
        self.field[pos] = number;
        self.push_log(LogEntry { pos: pos, val: number });
        Ok(())
    }

    /// Try to fill the position with values from `start` to 9.
    ///
    /// Return `Some(())` if position filled with some value, which is then
    /// the smallest allowed one, otherwise `None` with nothing changed.
    pub fn fill_position(&mut self, pos: usize, start: u8) -> (r: Option<()>)
        requires
            pos < SIZE,
        ensures
            final(self)@.wf(),
            match r {
                Some(_) => {
                    let v = final(self)@.cells[pos as int];
                    &&& old(self)@.first_allowed(pos as int, start, v)
                    &&& final(self)@ == old(self)@.assign(v, pos as int)
                },
                None => {
                    &&& old(self)@.none_allowed(pos as int, start)
                    &&& final(self)@ == old(self)@
                },
            },
    {
        proof {
            use_type_invariant(&*self);
        }
        let mut val = start;
        while val < SIDE as u8 + 1
            invariant
                pos < SIZE,
                start <= val,
                self@ == old(self)@,
                self@.cells.len() == 81,
                forall|w: u8| start <= w < val ==> !#[trigger] self@.allows(w, pos as int),
            decreases SIDE + 1 - val,
        {
            match self.set_value(val, pos) {
                Ok(_) => {
                    return Some(());
                },
                Err(_) => {},
            }
            val += 1;
        }
        None
    }

    /// Rollback the most recent set action.
    ///
    /// Returns the entry that was taken back, with its cell empty again, or
    /// an error when the rollback log is empty.
    pub fn rollback(&mut self) -> (r: Result<LogEntry, ()>)
        ensures
            final(self)@.wf(),
            r is Err <==> old(self)@.trail.len() == 0,
            r is Err ==> final(self)@ == old(self)@,
            r matches Ok(entry) ==> {
                &&& entry == old(self)@.trail.last()
                &&& final(self)@ == old(self)@.undo()
                &&& final(self)@.cells[entry.pos as int] == EMPTY
            },
    {
        proof {
            use_type_invariant(&*self);
            if self@.trail.len() > 0 {
                lemma_undo_wf(self@);
            }
        }
        match self.pop_log() {
            None => Err(()),
            Some(action) => {
                self.field[action.pos] = EMPTY;
                Ok(action)
            },
        }
    }

    /// Returns a position of a next empty cell or None if all all cells are filled.
    pub fn next_empty(&self) -> (r: Option<usize>)
        ensures
            match r {
                Some(i) => self@.first_empty(i as int),
                None => self@.complete(),
            },
    {
        proof {
            use_type_invariant(self);
        }
        let mut i: usize = 0;
        while i < SIZE
            invariant
                i <= SIZE,
                self@.cells.len() == 81,
                forall|j: int| 0 <= j < i ==> #[trigger] self@.cells[j] != EMPTY,
            decreases SIZE - i,
        {
            if self.field[i] == EMPTY {
                return Some(i);
            }
            i += 1;
        }
        None
    }

    /// Returns `true` if sudoku is solved, otherwise `false`.
    ///
    /// A grid counts as solved as soon as no cell is empty, whatever digits
    /// the cells hold.
    pub fn solved(&self) -> (r: bool)
        ensures
            r == self@.complete(),
    {
        proof {
            use_type_invariant(self);
        }
        let mut i: usize = 0;
        while i < SIZE
            invariant
                i <= SIZE,
                self@.cells.len() == 81,
                forall|j: int| 0 <= j < i ==> #[trigger] self@.cells[j] != EMPTY,
            decreases SIZE - i,
        {
            if self.field[i] == EMPTY {
                return false;
            }
            i += 1;
        }
        true
    }

    /// Fills the empty cells by depth-first search with backtracking.
    ///
    /// The search always stands at the first empty cell and tries its digits
    /// in ascending order; where none is allowed it takes the newest logged
    /// assignment back and goes on with the next digit of that cell. It ends
    /// with the first grid without an empty cell that it meets, or, when the
    /// log has run empty, with `Unsolvable` and the grid as it was given.
    ///
    /// The digits that were given are never touched. The search returns `Ok`
    /// exactly if some grid is still ahead of the solver, and then holds the
    /// one such grid that it meets first, with the log that led there: the
    /// first of them in reading order, if the log was written in reading
    /// order. Called on a new solver, it returns `Ok` exactly if some grid
    /// completes the puzzle, and then holds the first such grid.
    pub fn solve(&mut self) -> (r: Result<(), Unsolvable>)
        ensures
            final(self)@.wf(),
            final(self)@.givens() == old(self)@.givens(),
            r is Ok <==> exists|g: Seq<u8>| ahead(g, old(self)@),
            match r {
                Ok(_) => {
                    &&& final(self)@.complete()
                    &&& found_from(old(self)@, final(self)@)
                    &&& in_order(old(self)@) ==> {
                        &&& in_order(final(self)@)
                        &&& forall|g: Seq<u8>| #[trigger]
                            ahead(g, old(self)@) ==> grid_le(final(self)@.cells, g)
                    }
                },
                Err(_) => {
                    &&& !final(self)@.complete()
                    &&& final(self)@.trail.len() == 0
                    &&& final(self)@.cells == old(self)@.givens()
                    &&& forall|g: Seq<u8>| !#[trigger] ahead(g, old(self)@)
                },
            },
            old(self)@.trail.len() == 0 ==> match r {
                Ok(_) => first_completion(final(self)@.cells, old(self)@.cells),
                Err(_) => forall|g: Seq<u8>| !#[trigger] completes(g, old(self)@.cells),
            },
    {
        // Return solved if there are no empty cells.
        let mut pos = self.next_empty();
        let mut start_val: u8 = 1;
        proof {
            use_type_invariant(&*self);
            if self@.trail.len() == 0 {
                lemma_empty_log(self@);
            }
            lemma_continues_itself(self@.givens(), self@.trail);
            if let Some(p) = pos {
                lemma_empty_cell_not_given(self@, p as int);
                lemma_step_in(self@.givens(), self@.trail, self@.trail, p as int);
                lemma_behind_push(self@.trail, self@.trail, cursor(p as int, 1));
                lemma_continue_step_in(self@, self@.trail, p as int);
            }
        }

        loop
            invariant_except_break
                1 <= start_val <= 10,
                match pos {
                    Some(p) => {
                        &&& p < SIZE
                        &&& self@.cells[p as int] == EMPTY
                        &&& none_skipped(
                            self@.givens(),
                            old(self)@.trail,
                            self@.trail.push(cursor(p as int, start_val)),
                        )
                        &&& kept_behind(
                            old(self)@.trail,
                            self@.trail.push(cursor(p as int, start_val)),
                        )
                        &&& continues(
                            self@.givens(),
                            old(self)@.trail,
                            self@.trail.push(cursor(p as int, start_val)),
                        )
                        &&& in_order(old(self)@) ==> self@.first_empty(p as int)
                    },
                    None => {
                        &&& self@.complete()
                        &&& none_skipped(self@.givens(), old(self)@.trail, self@.trail)
                        &&& kept_behind(old(self)@.trail, self@.trail)
                        &&& continues(self@.givens(), old(self)@.trail, self@.trail)
                    },
                },
            invariant
                self@.givens() == old(self)@.givens(),
                in_order(old(self)@) ==> in_order(self@),
            ensures
                self@.complete() ==> {
                    &&& none_skipped(self@.givens(), old(self)@.trail, self@.trail)
                    &&& kept_behind(old(self)@.trail, self@.trail)
                    &&& continues(self@.givens(), old(self)@.trail, self@.trail)
                },
                !self@.complete() ==> {
                    &&& self@.trail.len() == 0
                    &&& forall|g: Seq<u8>| #[trigger]
                        completes(g, self@.givens()) ==> passed_over(g, old(self)@.trail)
                },
            decreases work_left(self@.trail, start_val),
        {
            let pos_idx = match pos {
                Some(v) => v,
                _ => {
                    break ;
                },
            };
            let ghost before = self@;
            proof {
                use_type_invariant(&*self);
                lemma_trail_fits_grid(before);
            }
            match self.fill_position(pos_idx, start_val) {
                None => {
                    match self.rollback() {
                        Ok(log_entry) => {
                            proof {
                                lemma_retreat(before, old(self)@.trail, pos_idx as int, start_val);
                                lemma_behind_retreat(
                                    old(self)@.trail,
                                    before.trail,
                                    cursor(pos_idx as int, start_val),
                                );
                                lemma_continue_retreat(
                                    before.givens(),
                                    old(self)@.trail,
                                    before.trail,
                                    cursor(pos_idx as int, start_val),
                                );
                                lemma_undo_keeps_givens(before);
                                lemma_retreat_works(before.trail, start_val);
                                if in_order(old(self)@) {
                                    lemma_in_order_undo(before);
                                }
                            }
                            pos = Some(log_entry.pos);
                            start_val = log_entry.val + 1;
                            proof {
                                use_type_invariant(&*self);
                                lemma_trail_fits_grid(self@);
                                lemma_work_left_positive(self@.trail, start_val);
                            }
                            // continue
                        },
                        Err(_) => {
                            // Nothing to rollback. Sudoku is unsolvable.
                            proof {
                                lemma_exhausted(
                                    before,
                                    old(self)@.trail,
                                    pos_idx as int,
                                    start_val,
                                );
                            }
                            break ;
                        },
                    }
                },
                Some(_) => {
                    proof {
                        let v = self@.cells[pos_idx as int];
                        lemma_advance(before, old(self)@.trail, pos_idx as int, start_val, v);
                        lemma_behind_advance(
                            old(self)@.trail,
                            before.trail,
                            pos_idx as int,
                            start_val,
                            v,
                        );
                        lemma_continue_advance(
                            before.givens(),
                            old(self)@.trail,
                            before.trail,
                            pos_idx as int,
                            start_val,
                            v,
                        );
                        lemma_assign_keeps_givens(before, v, pos_idx as int);
                        lemma_advance_works(before.trail, start_val, cursor(pos_idx as int, v));
                        if in_order(old(self)@) {
                            lemma_in_order_assign(before, v, pos_idx as int);
                        }
                    }
                    start_val = 1;
                    pos = self.next_empty();
                    proof {
                        use_type_invariant(&*self);
                        lemma_trail_fits_grid(self@);
                        lemma_work_left_positive(self@.trail, start_val);
                        if let Some(p) = pos {
                            lemma_empty_cell_not_given(self@, p as int);
                            lemma_step_in(self@.givens(), old(self)@.trail, self@.trail, p as int);
                            lemma_behind_push(old(self)@.trail, self@.trail, cursor(p as int, 1));
                            lemma_continue_step_in(self@, old(self)@.trail, p as int);
                        }
                    }
                },
            }
        }
        proof {
            use_type_invariant(&*self);
            if self@.complete() {
                lemma_complete_grid_completes(self@);
                lemma_agreeing_not_passed_over(self@.cells, self@.trail);
                assert(ahead(self@.cells, old(self)@));
                if in_order(old(self)@) {
                    assert forall|g: Seq<u8>| #[trigger] ahead(g, old(self)@) implies grid_le(
                        self@.cells,
                        g,
                    ) by {
                        lemma_found_first(self@, g);
                    }
                }
            } else {
                assert(self@.givens() =~= self@.cells);
            }
            if old(self)@.trail.len() == 0 {
                assert forall|g: Seq<u8>| #[trigger] completes(g, old(self)@.cells) implies ahead(
                    g,
                    old(self)@,
                ) by {}
            }
        }
        match self.solved() {
            true => Ok(()),
            false => Err(Unsolvable {}),
        }
    }
}

} // verus!
