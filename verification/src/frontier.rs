//! The cells the robot has found and not yet looked around.

use std::collections::VecDeque;
use vstd::prelude::*;

verus! {

/// The order in which the cells that wait are taken up.
#[derive(Clone, Copy, Debug, PartialEq, Eq, Structural)]
pub enum Order {
    /// The cell that has waited longest comes first: a search in breadth,
    /// which takes up the cells in the order of their distance from the
    /// start.
    Fifo,
    /// The cell that was found last comes first: a search in depth.
    Lifo,
}

/// The queue of the cells that the robot has found and not yet looked
/// around, in the order in which they were put in.
pub struct FrontierQueue {
    pub order: Order,
    pub cells: VecDeque<usize>,
}

impl View for FrontierQueue {
    type V = Seq<usize>;

    open spec fn view(&self) -> Seq<usize> {
        self.cells@
    }
}

impl FrontierQueue {
    /// The cell that comes next, where one waits.
    pub open spec fn next(&self) -> Option<usize> {
        if self@.len() == 0 {
            None
        } else {
            match self.order {
                Order::Fifo => Some(self@.first()),
                Order::Lifo => Some(self@.last()),
            }
        }
    }

    /// The cells that wait once the next one is taken.
    pub open spec fn rest(&self) -> Seq<usize> {
        if self@.len() == 0 {
            self@
        } else {
            match self.order {
                Order::Fifo => self@.drop_first(),
                Order::Lifo => self@.drop_last(),
            }
        }
    }

    /// An empty queue that hands cells out in the given order.
    pub fn new(order: Order) -> (queue: Self)
        ensures
            queue.order == order,
            queue@.len() == 0,
    {
        FrontierQueue { order, cells: VecDeque::new() }
    }

    /// Puts a cell at the end of the queue.
    pub fn enqueue(&mut self, cell: usize)
        ensures
            final(self)@ == old(self)@.push(cell),
            final(self).order == old(self).order,
    {
        self.cells.push_back(cell);
    }

    /// Takes the next cell out of the queue: the first that was put in for
    /// `Fifo`, the last for `Lifo`; `None` where the queue is empty.
    pub fn dequeue(&mut self) -> (cell: Option<usize>)
        ensures
            cell == old(self).next(),
            final(self)@ == old(self).rest(),
            final(self).order == old(self).order,
    {
        match self.order {
            Order::Fifo => self.cells.pop_front(),
            Order::Lifo => self.cells.pop_back(),
        }
    }

    /// Returns the number of cells that wait.
    pub fn len(&self) -> (len: usize)
        ensures
            len == self@.len(),
    {
        self.cells.len()
    }
}

} // verus!
