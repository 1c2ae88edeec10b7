//! A small grid-game component: a snake as a queue of blocks, moved by
//! growing a new head and, unless it has just eaten, shedding its tail.

use vstd::prelude::*;
use std::collections::VecDeque;

verus! {

/// Which way the snake moves next.
#[allow(non_camel_case_types)]
#[derive(PartialEq, Eq, Structural)]
pub enum Direction {
    UP,
    DOWN,
    RIGHT,
    LEFT,
}

/// The snake: its body blocks from head to tail, its direction, and
/// whether it has just eaten.
pub struct Snake {
    pub body: VecDeque<(i32, i32)>,
    pub direction: Direction,
    pub is_eaten: bool,
}

impl Snake {
    /// Where the head moves next: one block along the current
    /// direction.
    pub open spec fn spec_new_head(&self) -> (int, int)
        recommends
            self.body@.len() > 0,
    {
        let cx = self.body@[0].0 as int;
        let cy = self.body@[0].1 as int;
        match self.direction {
            Direction::UP => (cx, cy - 1),
            Direction::DOWN => (cx, cy + 1),
            Direction::RIGHT => (cx + 1, cy),
            Direction::LEFT => (cx - 1, cy),
        }
    }

    /// Whether the next head position stays within the coordinate
    /// range the blocks use.
    pub open spec fn head_in_range(&self) -> bool {
        match self.direction {
            Direction::UP => self.body@[0].1 > i32::MIN,
            Direction::DOWN => self.body@[0].1 < i32::MAX,
            Direction::RIGHT => self.body@[0].0 < i32::MAX,
            Direction::LEFT => self.body@[0].0 > i32::MIN,
        }
    }

    /// A fresh snake over the given body, headed right, not fed.
    pub fn new(body: VecDeque<(i32, i32)>) -> (s: Snake)
        ensures
            s.body@ == body@,
            s.direction == Direction::RIGHT,
            s.is_eaten == false,
    {
        Snake { body, direction: Direction::RIGHT, is_eaten: false }
    }

    /// The block the head moves onto next.
    pub fn new_head(&self) -> (r: (i32, i32))
        requires
            self.body@.len() > 0,
            self.head_in_range(),
        ensures
            r.0 == self.spec_new_head().0,
            r.1 == self.spec_new_head().1,
    {
        let (cx, cy) = self.body[0];
        match self.direction {
            Direction::UP => (cx, cy - 1),
            Direction::DOWN => (cx, cy + 1),
            Direction::RIGHT => (cx + 1, cy),
            Direction::LEFT => (cx - 1, cy),
        }
    }

    /// Moves one step: the new head is pushed on; the tail is shed
    /// unless the snake has just eaten, in which case it grows by one.
    pub fn move_snake(&mut self)
        requires
            old(self).body@.len() > 0,
            old(self).head_in_range(),
        ensures
            final(self).direction == old(self).direction,
            final(self).is_eaten == false,
            ({
                let tail = if old(self).is_eaten {
                    old(self).body@
                } else {
                    old(self).body@.drop_last()
                };
                final(self).body@ == seq![
                    (
                        (old(self).spec_new_head().0) as i32,
                        (old(self).spec_new_head().1) as i32,
                    ),
                ] + tail
            }),
    {
        let nh = self.new_head();
        if self.is_eaten {
            self.is_eaten = false;
        } else {
            self.body.pop_back();
        }
        self.body.push_front(nh);
        proof {
            let tail = if old(self).is_eaten {
                old(self).body@
            } else {
                old(self).body@.drop_last()
            };
            assert(self.body@ =~= seq![
                ((old(self).spec_new_head().0) as i32, (old(self).spec_new_head().1) as i32),
            ] + tail);
        }
    }

    /// Whether a block is anywhere in the body.
    pub fn is_block_in_body(&self, pos: (i32, i32)) -> (r: bool)
        ensures
            r == self.body@.contains(pos),
    {
        let mut i: usize = 0;
        while i < self.body.len()
            invariant
                i <= self.body@.len(),
                forall|j: int| 0 <= j < i ==> #[trigger] self.body@[j] != pos,
            decreases self.body@.len() - i,
        {
            let (bx, by) = self.body[i];
            if bx == pos.0 && by == pos.1 {
                proof {
                    assert(self.body@[i as int] == pos);
                }
                return true;
            }
            i = i + 1;
        }
        proof {
            if self.body@.contains(pos) {
                let j = choose|j: int| 0 <= j < self.body@.len() && self.body@[j] == pos;
            }
        }
        false
    }
}

} // verus!
