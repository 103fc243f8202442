//! Input lines and the bounded FIFO of pending context lines.
use crate::model::LineModel;
use std::collections::VecDeque;
use vstd::prelude::*;

verus! {

/// One input line: its 0-based position in the stream and its text.
pub struct Line {
    pub index: usize,
    pub text: String,
}

impl View for Line {
    type V = LineModel;

    open spec fn view(&self) -> LineModel {
        LineModel { index: self.index as int, text: self.text@ }
    }
}

impl Line {
    pub fn new(index: usize, text: String) -> (r: Line)
        ensures
            r@ == (LineModel { index: index as int, text: text@ }),
    {
        Line { index, text }
    }
}

/// Fixed-capacity FIFO of not-yet-classified lines: candidate leading
/// context, or the trailing context still being collected after a match.
/// Pushing into a full window evicts the oldest line (ring-buffer
/// semantics); the caller is told that a line was lost.
pub struct ContextWindow {
    pub capacity: usize,
    pub buf: VecDeque<Line>,
}

impl View for ContextWindow {
    type V = Seq<LineModel>;

    open spec fn view(&self) -> Seq<LineModel> {
        self.buf@.map_values(|l: Line| l@)
    }
}

impl ContextWindow {
    /// The fixed capacity the window was created with.
    pub open spec fn cap(&self) -> nat {
        self.capacity as nat
    }

    /// The buffered lines never outnumber the capacity.
    pub open spec fn wf(&self) -> bool {
        self@.len() <= self.cap()
    }

    /// An empty window of the given capacity.
    pub fn new(capacity: usize) -> (r: ContextWindow)
        ensures
            r.wf(),
            r@ == Seq::<LineModel>::empty(),
            r.cap() == capacity,
    {
        let r = ContextWindow { capacity, buf: VecDeque::new() };
        proof {
            assert(r@ =~= Seq::<LineModel>::empty());
        }
        r
    }

    /// How many lines are buffered.
    pub fn len(&self) -> (r: usize)
        ensures
            r == self@.len(),
    {
        self.buf.len()
    }

    /// The capacity, as an executable value.
    pub fn capacity(&self) -> (r: usize)
        ensures
            r == self.cap(),
    {
        self.capacity
    }

    /// Whether the window holds as many lines as its capacity allows.
    pub fn is_full(&self) -> (r: bool)
        ensures
            r == (self@.len() == self.cap()),
    {
        self.buf.len() == self.capacity
    }

    /// Appends at the back; a full window loses its oldest line first, and a
    /// window of capacity 0 drops the line outright. Returns whether a line
    /// was lost: a genuine gap that the caller must remember.
    pub fn push(&mut self, line: Line) -> (evicted: bool)
        requires
            old(self).wf(),
        ensures
            final(self).wf(),
            final(self).cap() == old(self).cap(),
            (if old(self).cap() == 0 {
                final(self)@ == Seq::<LineModel>::empty() && evicted
            } else if old(self)@.len() == old(self).cap() {
                final(self)@ == old(self)@.drop_first().push(line@) && evicted
            } else {
                final(self)@ == old(self)@.push(line@) && !evicted
            }),
    {
        if self.capacity == 0 {
            proof {
                assert(self@ =~= Seq::<LineModel>::empty());
            }
            return true;
        }
        let mut evicted = false;
        if self.buf.len() == self.capacity {
            self.buf.pop_front();
            evicted = true;
        }
        self.buf.push_back(line);
        proof {
            if evicted {
                assert(self@ =~= old(self)@.drop_first().push(line@));
            } else {
                assert(self@ =~= old(self)@.push(line@));
            }
        }
        evicted
    }

    /// Removes and returns the oldest buffered line.
    pub fn pop_front(&mut self) -> (r: Line)
        requires
            old(self).wf(),
            old(self)@.len() > 0,
        ensures
            final(self).wf(),
            final(self).cap() == old(self).cap(),
            r@ == old(self)@[0],
            final(self)@ == old(self)@.drop_first(),
    {
        let r = self.buf.pop_front().unwrap();
        proof {
            assert(self@ =~= old(self)@.drop_first());
        }
        r
    }
}

} // verus!
