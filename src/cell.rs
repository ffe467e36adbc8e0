//! One square of the grid: an assigned digit, or a blank with its candidates.
use vstd::prelude::*;
use crate::options::{digit_text, digits, is_digit, set_text, single_digit, CellOptions};

verus! {

/// A cell of the grid. `c` is a digit once the cell is assigned and a blank before;
/// `opt` holds the digits that are still possible.
#[derive(Clone, Copy)]
pub struct Cell {
    c: char,
    opt: CellOptions,
}

impl Cell {
    /// The character the cell shows: its digit, or a blank.
    pub closed spec fn value(&self) -> char {
        self.c
    }

    /// The digits still possible for the cell.
    pub closed spec fn candidates(&self) -> Set<char> {
        self.opt@
    }

    /// The cell holds a digit.
    pub open spec fn assigned(&self) -> bool {
        is_digit(self.value())
    }

    /// An unassigned cell shows a blank; an assigned one has its digit as its only candidate.
    pub closed spec fn wf(&self) -> bool {
        &&& self.opt.wf()
        &&& (self.c == ' ' || is_digit(self.c))
        &&& (is_digit(self.c) ==> self.opt@ == set![self.c])
    }

    /// An assigned cell has its own digit as its only candidate; any other shows a blank.
    pub proof fn lemma_wf_parts(self)
        requires
            self.wf(),
        ensures
            self.assigned() ==> self.candidates() == set![self.value()],
            !self.assigned() ==> self.value() == ' ',
    {
    }

    /// An unassigned cell with every digit possible.
    pub fn new() -> (r: Cell)
        ensures
            r.wf(),
            r.value() == ' ',
            !r.assigned(),
            r.candidates() == digits(),
    {
        Cell { c: ' ', opt: CellOptions::new() }
    }

    /// Makes the cell unassigned, with every digit possible.
    pub fn clear(&mut self)
        ensures
            final(self).wf(),
            final(self).value() == ' ',
            !final(self).assigned(),
            final(self).candidates() == digits(),
    {
        self.c = ' ';
        self.opt.clear();
    }

    /// The cell's digit, or a blank.
    pub fn character(&self) -> (r: char)
        ensures
            r == self.value(),
            self.wf() ==> (r == ' ' <==> !self.assigned()),
    {
        self.c
    }

    /// The cell's candidate set.
    pub fn options(&self) -> (r: &CellOptions)
        requires
            self.wf(),
        ensures
            r.wf(),
            r@ == self.candidates(),
    {
        &self.opt
    }

    /// Assigns digit `c`, which becomes the only candidate.
    pub fn set(&mut self, c: char)
        requires
            is_digit(c),
        ensures
            final(self).wf(),
            final(self).value() == c,
            final(self).candidates() == set![c],
    {
        self.c = c;
        self.opt.set_one(c);
    }

    /// Whether the cell holds a digit.
    pub fn is_set(&self) -> (r: bool)
        ensures
            r == self.assigned(),
    {
        '1' <= self.c && self.c <= '9'
    }

    /// Assigns the one digit left among the candidates.
    pub fn apply_option(&mut self)
        requires
            old(self).wf(),
            single_digit(old(self).candidates()),
        ensures
            final(self).wf(),
            final(self).assigned(),
            final(self).candidates() == old(self).candidates(),
            final(self).candidates() == set![final(self).value()],
    {
        self.c = self.opt.get_last_option();
    }

    /// Rules out digit `c` for an unassigned cell; an assigned cell keeps its digit.
    pub fn remove_option(&mut self, c: char)
        requires
            old(self).wf(),
            is_digit(c),
        ensures
            final(self).wf(),
            old(self).assigned() ==> *final(self) == *old(self),
            !old(self).assigned() ==> final(self).value() == old(self).value()
                && final(self).candidates() == old(self).candidates().remove(c),
            !old(self).candidates().contains(c) ==> *final(self) == *old(self),
    {
        if !self.is_set() {
            self.opt.unset(c);
        }
    }

    /// The cell written out: its digit when assigned, its candidate set otherwise.
    pub fn display(&self) -> (r: String)
        requires
            self.wf(),
        ensures
            self.assigned() ==> r@ == seq![self.value()],
            !self.assigned() ==> r@ == set_text(self.candidates()),
    {
        if '1' <= self.c && self.c <= '9' {
            let offset: u16 = (self.c as u32 - '1' as u32) as u16;
            let r = digit_text(offset).to_owned();
            proof {
                assert(offset + 49 == self.c as u32);
            }
            r
        } else {
            self.opt.display()
        }
    }

    /// Whether exactly one candidate is left.
    pub fn has_one_option(&self) -> (r: bool)
        requires
            self.wf(),
        ensures
            r == single_digit(self.candidates()),
    {
        self.opt.has_one_option()
    }
}

} // verus!
