//! The plan of a block: a linear program of constraints over slots.

use vstd::prelude::*;
use crate::value::{Value, ValueView};

verus! {

/// A half-open range `lo..hi` of positions in an index.
pub type LoHi = (usize, usize);

/// A row of the plan and one of its three columns.
pub type RowCol = (usize, usize);

/// A built-in function over slots.
#[derive(Debug, Clone, Copy, PartialEq, Eq, Structural)]
pub enum Function {
    /// The sum of the integers in two slots.
    Add(usize, usize),
}

/// One step of a plan.
#[derive(Debug)]
pub enum Constraint {
    /// Keep, in one row, the positions whose column holds the slot's value.
    Narrow(RowCol, usize),
    /// Let the slot take each value that all the listed columns hold.
    Join(Vec<RowCol>, usize),
    /// Compute the slot from a function, or check it if it is already fixed.
    Apply(usize, bool, Function),
    /// Emit the values of three slots as a new triple.
    Assert([usize; 3]),
    /// Emit the values of the named slots as a result row.
    Debug(Vec<(String, usize)>),
}

/// The mathematical model of a [`Constraint`].
pub enum ConstraintView {
    Narrow(RowCol, usize),
    Join(Seq<RowCol>, usize),
    Apply(usize, bool, Function),
    Assert(usize, usize, usize),
    Debug(Seq<(Seq<char>, usize)>),
}

impl View for Constraint {
    type V = ConstraintView;

    open spec fn view(&self) -> ConstraintView {
        match *self {
            Constraint::Narrow(rc, slot) => ConstraintView::Narrow(rc, slot),
            Constraint::Join(rowcols, slot) => ConstraintView::Join(rowcols@, slot),
            Constraint::Apply(slot, fixed, function) => ConstraintView::Apply(slot, fixed, function),
            Constraint::Assert(slots) => ConstraintView::Assert(slots[0], slots[1], slots[2]),
            Constraint::Debug(named) => ConstraintView::Debug(named_view(named@)),
        }
    }
}

/// The models of a list of named slots.
pub open spec fn named_view(named: Seq<(String, usize)>) -> Seq<(Seq<char>, usize)> {
    named.map_values(|n: (String, usize)| (n.0@, n.1))
}

impl Clone for Constraint {
    fn clone(&self) -> (r: Self)
        ensures
            r@ == self@,
    {
        match self {
            Constraint::Narrow(rc, slot) => Constraint::Narrow(*rc, *slot),
            Constraint::Join(rowcols, slot) => {
                let mut copy: Vec<RowCol> = Vec::new();
                let mut i: usize = 0;
                while i < rowcols.len()
                    invariant
                        i <= rowcols.len(),
                        copy@ == rowcols@.take(i as int),
                    decreases rowcols.len() - i,
                {
                    copy.push(rowcols[i]);
                    assert(rowcols@.take(i + 1) =~= rowcols@.take(i as int).push(rowcols@[i as int]));
                    i += 1;
                }
                assert(rowcols@.take(i as int) =~= rowcols@);
                Constraint::Join(copy, *slot)
            },
            Constraint::Apply(slot, fixed, function) => Constraint::Apply(*slot, *fixed, *function),
            Constraint::Assert(slots) => Constraint::Assert([slots[0], slots[1], slots[2]]),
            Constraint::Debug(named) => {
                let mut copy: Vec<(String, usize)> = Vec::new();
                let mut i: usize = 0;
                while i < named.len()
                    invariant
                        i <= named.len(),
                        copy.len() == i,
                        forall|j: int|
                            0 <= j < i ==> (#[trigger] copy@[j]).0@ == named@[j].0@ && copy@[j].1
                                == named@[j].1,
                    decreases named.len() - i,
                {
                    copy.push((named[i].0.clone(), named[i].1));
                    i += 1;
                }
                assert(named_view(copy@) =~= named_view(named@));
                Constraint::Debug(copy)
            },
        }
    }
}

/// The models of a list of constraints.
pub open spec fn constraints_view(cs: Seq<Constraint>) -> Seq<ConstraintView> {
    cs.map_values(|c: Constraint| c@)
}

/// The models of a list of values.
pub open spec fn values_view(vs: Seq<Value>) -> Seq<ValueView> {
    vs.map_values(|v: Value| v@)
}

/// A compiled block.
#[derive(Debug)]
pub struct Block {
    /// For each row, the order of its three columns in the row's index.
    pub row_orderings: Vec<[usize; 3]>,
    /// The initial value of each slot.
    pub variables: Vec<Value>,
    /// The program.
    pub constraints: Vec<Constraint>,
}

impl Clone for Block {
    fn clone(&self) -> (r: Self)
        ensures
            r@ == self@,
    {
        let mut row_orderings: Vec<[usize; 3]> = Vec::new();
        let mut i: usize = 0;
        while i < self.row_orderings.len()
            invariant
                i <= self.row_orderings@.len(),
                row_orderings@.len() == i,
                forall|k: int| 0 <= k < i ==> (#[trigger] row_orderings@[k])@ == self.row_orderings@[k]@,
            decreases self.row_orderings@.len() - i,
        {
            let o = &self.row_orderings[i];
            let copy = [o[0], o[1], o[2]];
            assert(copy@ =~= o@);
            row_orderings.push(copy);
            i += 1;
        }
        let mut variables: Vec<Value> = Vec::new();
        let mut i: usize = 0;
        while i < self.variables.len()
            invariant
                i <= self.variables@.len(),
                variables@.len() == i,
                forall|k: int| 0 <= k < i ==> (#[trigger] variables@[k])@ == self.variables@[k]@,
            decreases self.variables@.len() - i,
        {
            variables.push(self.variables[i].clone());
            i += 1;
        }
        let mut constraints: Vec<Constraint> = Vec::new();
        let mut i: usize = 0;
        while i < self.constraints.len()
            invariant
                i <= self.constraints@.len(),
                constraints@.len() == i,
                forall|k: int| 0 <= k < i ==> (#[trigger] constraints@[k])@ == self.constraints@[k]@,
            decreases self.constraints@.len() - i,
        {
            constraints.push(self.constraints[i].clone());
            i += 1;
        }
        let copy = Block { row_orderings, variables, constraints };
        assert(copy@.row_orderings =~= self@.row_orderings);
        assert(copy@.variables =~= self@.variables);
        assert(copy@.constraints =~= self@.constraints);
        copy
    }
}

/// The mathematical model of a [`Block`].
pub struct BlockView {
    pub row_orderings: Seq<Seq<usize>>,
    pub variables: Seq<ValueView>,
    pub constraints: Seq<ConstraintView>,
}

impl View for Block {
    type V = BlockView;

    open spec fn view(&self) -> BlockView {
        BlockView {
            row_orderings: self.row_orderings@.map_values(|o: [usize; 3]| o@),
            variables: values_view(self.variables@),
            constraints: constraints_view(self.constraints@),
        }
    }
}

} // verus!
