use vstd::prelude::*;

use crate::color::Color;

verus! {

/// A fixed-capacity container of four stacked liquid units, filled bottom-up.
/// `index` is the bottle's position within its board, assigned at board setup.
///
/// Invariant (see [`bottle_wf`]): occupied slots are contiguous from `bottom`.
#[derive(Copy, Clone, Debug, PartialEq, Eq, Structural)]
pub struct Bottle {
    pub index: Option<usize>,
    pub bottom: Option<Color>,
    pub l1: Option<Color>,
    pub l2: Option<Color>,
    pub top: Option<Color>,
}

/// Number of occupied slots, counted from `bottom` up to the first gap.
/// For well-formed bottles this is exactly the number of occupied slots.
pub open spec fn fill(b: Bottle) -> int {
    if b.bottom is None {
        0
    } else if b.l1 is None {
        1
    } else if b.l2 is None {
        2
    } else if b.top is None {
        3
    } else {
        4
    }
}

/// Contiguity invariant: a slot may be occupied only if every slot below it is.
pub open spec fn bottle_wf(b: Bottle) -> bool {
    &&& b.l1 is Some ==> b.bottom is Some
    &&& b.l2 is Some ==> b.l1 is Some
    &&& b.top is Some ==> b.l2 is Some
}

/// The slot at height `i`, counting `bottom` as 0.
pub open spec fn slot_of(b: Bottle, i: int) -> Option<Color> {
    if i == 0 {
        b.bottom
    } else if i == 1 {
        b.l1
    } else if i == 2 {
        b.l2
    } else {
        b.top
    }
}

/// The stack of colors held by a well-formed bottle, bottom first.
pub open spec fn content(b: Bottle) -> Seq<Color> {
    Seq::new(fill(b) as nat, |i: int| slot_of(b, i)->0)
}

/// The bottle with board position `index` whose stack is `cs`
/// (meaningful for `cs.len() <= 4`).
pub open spec fn bottle_of(index: Option<usize>, cs: Seq<Color>) -> Bottle {
    Bottle {
        index,
        bottom: if cs.len() >= 1 { Some(cs[0]) } else { None },
        l1: if cs.len() >= 2 { Some(cs[1]) } else { None },
        l2: if cs.len() >= 3 { Some(cs[2]) } else { None },
        top: if cs.len() >= 4 { Some(cs[3]) } else { None },
    }
}

/// The color of the highest occupied slot, if any.
pub open spec fn top_of(b: Bottle) -> Option<Color> {
    if fill(b) == 0 {
        None
    } else {
        Some(content(b).last())
    }
}

/// All units in the stack share one color (vacuously true when empty).
pub open spec fn one_color(cs: Seq<Color>) -> bool {
    forall|i: int| 0 <= i < cs.len() ==> #[trigger] cs[i] == cs[0]
}

/// Length of the maximal same-colored run at the top of the stack.
pub open spec fn run_of(cs: Seq<Color>) -> int
    decreases cs.len(),
{
    if cs.len() == 0 {
        0
    } else if cs.len() >= 2 && cs[cs.len() - 2] == cs.last() {
        1 + run_of(cs.drop_last())
    } else {
        1
    }
}

/// Number of units of color `c` in the stack.
pub open spec fn count_of(cs: Seq<Color>, c: Color) -> int
    decreases cs.len(),
{
    if cs.len() == 0 {
        0
    } else {
        count_of(cs.drop_last(), c) + if cs.last() == c {
            1int
        } else {
            0int
        }
    }
}

/// A solved bottle: full with four units of one color.
pub open spec fn bottle_solved(b: Bottle) -> bool {
    content(b).len() == 4 && one_color(content(b))
}

/// A single unit of color `c` may be placed on top of `b`: the bottle has a
/// free slot and is either empty or topped by the same color.
pub open spec fn can_accept(b: Bottle, c: Color) -> bool {
    fill(b) < 4 && (fill(b) == 0 || content(b).last() == c)
}

/// Reconstructing a well-formed bottle from its content is the identity.
pub proof fn lemma_bottle_of_content(b: Bottle)
    requires
        bottle_wf(b),
    ensures
        bottle_of(b.index, content(b)) == b,
{
}

/// A bottle built from a stack of at most four colors is well formed and
/// holds exactly that stack.
pub proof fn lemma_content_of_bottle(index: Option<usize>, cs: Seq<Color>)
    requires
        cs.len() <= 4,
    ensures
        bottle_wf(bottle_of(index, cs)),
        content(bottle_of(index, cs)) == cs,
        bottle_of(index, cs).index == index,
        fill(bottle_of(index, cs)) == cs.len(),
{
    assert(content(bottle_of(index, cs)) =~= cs);
}

/// The top run is never longer than the stack, and nonempty stacks have a run.
pub proof fn lemma_run_bounds(cs: Seq<Color>)
    ensures
        run_of(cs) <= cs.len(),
        cs.len() > 0 ==> 1 <= run_of(cs),
    decreases cs.len(),
{
    if cs.len() >= 2 && cs[cs.len() - 2] == cs.last() {
        lemma_run_bounds(cs.drop_last());
    }
}

/// Color counts are nonnegative and bounded by the stack size.
pub proof fn lemma_count_bounds(cs: Seq<Color>, c: Color)
    ensures
        0 <= count_of(cs, c) <= cs.len(),
    decreases cs.len(),
{
    if cs.len() > 0 {
        lemma_count_bounds(cs.drop_last(), c);
    }
}

/// The top run is maximal: the unit just below it, if any, differs in color.
pub proof fn lemma_run_maximal(cs: Seq<Color>)
    requires
        run_of(cs) < cs.len(),
    ensures
        cs[cs.len() - 1 - run_of(cs)] != cs.last(),
    decreases cs.len(),
{
    if cs.len() >= 2 && cs[cs.len() - 2] == cs.last() {
        lemma_run_bounds(cs.drop_last());
        lemma_run_maximal(cs.drop_last());
    }
}

/// Every unit within the top run has the top color.
pub proof fn lemma_run_same(cs: Seq<Color>, j: int)
    requires
        0 <= j < run_of(cs),
    ensures
        cs[cs.len() - 1 - j] == cs.last(),
    decreases cs.len(),
{
    lemma_run_bounds(cs);
    if j > 0 {
        lemma_run_same(cs.drop_last(), j - 1);
    }
}

impl Bottle {
    pub fn new(
        index: Option<usize>,
        bottom: Option<Color>,
        l1: Option<Color>,
        l2: Option<Color>,
        top: Option<Color>,
    ) -> (r: Self)
        ensures
            r == (Bottle { index, bottom, l1, l2, top }),
    {
        Bottle { index, bottom, l1, l2, top }
    }

    pub fn empty(idx: usize) -> (r: Self)
        ensures
            bottle_wf(r),
            r.index == Some(idx),
            content(r) == Seq::<Color>::empty(),
    {
        Bottle::new(Some(idx), None, None, None, None)
    }

    pub fn with_one_color(idx: usize, c: Color) -> (r: Self)
        ensures
            bottle_wf(r),
            r.index == Some(idx),
            content(r) == seq![c],
    {
        let r = Bottle::new(Some(idx), Some(c), None, None, None);
        proof {
            assert(content(r) =~= seq![c]);
        }
        r
    }

    pub fn with_two_colors(idx: usize, b: Color, l1: Color) -> (r: Self)
        ensures
            bottle_wf(r),
            r.index == Some(idx),
            content(r) == seq![b, l1],
    {
        let r = Bottle::new(Some(idx), Some(b), Some(l1), None, None);
        proof {
            assert(content(r) =~= seq![b, l1]);
        }
        r
    }

    pub fn with_three_colors(idx: usize, b: Color, l1: Color, l2: Color) -> (r: Self)
        ensures
            bottle_wf(r),
            r.index == Some(idx),
            content(r) == seq![b, l1, l2],
    {
        let r = Bottle::new(Some(idx), Some(b), Some(l1), Some(l2), None);
        proof {
            assert(content(r) =~= seq![b, l1, l2]);
        }
        r
    }

    pub fn with_four_colors(idx: usize, b: Color, l1: Color, l2: Color, t: Color) -> (r: Self)
        ensures
            bottle_wf(r),
            r.index == Some(idx),
            content(r) == seq![b, l1, l2, t],
    {
        let r = Bottle::new(Some(idx), Some(b), Some(l1), Some(l2), Some(t));
        proof {
            assert(content(r) =~= seq![b, l1, l2, t]);
        }
        r
    }

    pub fn is_empty(&self) -> (r: bool)
        requires
            bottle_wf(*self),
        ensures
            r == (content(*self).len() == 0),
    {
        self.bottom.is_none()
    }

    pub fn is_full(&self) -> (r: bool)
        requires
            bottle_wf(*self),
        ensures
            r == (content(*self).len() == 4),
    {
        self.top.is_some()
    }

    pub fn top_color(&self) -> (r: Option<Color>)
        requires
            bottle_wf(*self),
        ensures
            r == top_of(*self),
    {
        if self.top.is_some() {
            self.top
        } else if self.l2.is_some() {
            self.l2
        } else if self.l1.is_some() {
            self.l1
        } else {
            self.bottom
        }
    }

    /// Remove the topmost unit. Calling this on an empty bottle would be a
    /// programmer error, so emptiness is excluded by precondition.
    pub(crate) fn pop(&mut self)
        requires
            bottle_wf(*old(self)),
            fill(*old(self)) > 0,
        ensures
            bottle_wf(*final(self)),
            final(self).index == old(self).index,
            content(*final(self)) == content(*old(self)).drop_last(),
    {
        if self.top.is_some() {
            self.top = None;
        } else if self.l2.is_some() {
            self.l2 = None;
        } else if self.l1.is_some() {
            self.l1 = None;
        } else {
            self.bottom = None;
        }
        proof {
            assert(content(*self) =~= content(*old(self)).drop_last());
        }
    }

    /// Try to place one unit of color `c` on top: succeeds exactly when the
    /// bottle is empty, or has a free slot above a matching top color.
    pub fn pour(&mut self, c: Color) -> (r: bool)
        requires
            bottle_wf(*old(self)),
        ensures
            bottle_wf(*final(self)),
            final(self).index == old(self).index,
            r == can_accept(*old(self), c),
            r ==> content(*final(self)) == content(*old(self)).push(c),
            !r ==> *final(self) == *old(self),
    {
        let accepted: bool = if self.bottom.is_none() {
            self.bottom = Some(c);
            true
        } else if self.l1.is_none() {
            if self.bottom == Some(c) {
                self.l1 = Some(c);
                true
            } else {
                false
            }
        } else if self.l2.is_none() {
            if self.l1 == Some(c) {
                self.l2 = Some(c);
                true
            } else {
                false
            }
        } else if self.top.is_none() {
            if self.l2 == Some(c) {
                self.top = Some(c);
                true
            } else {
                false
            }
        } else {
            false
        };
        proof {
            if accepted {
                assert(content(*self) =~= content(*old(self)).push(c));
            }
        }
        accepted
    }

    pub fn is_empty_or_one_color(&self) -> (r: bool)
        requires
            bottle_wf(*self),
        ensures
            r == one_color(content(*self)),
    {
        let same: bool = if self.bottom.is_none() {
            true
        } else if self.l1.is_none() {
            true
        } else if self.l2.is_none() {
            self.bottom == self.l1
        } else if self.top.is_none() {
            self.bottom == self.l1 && self.l1 == self.l2
        } else {
            self.bottom == self.l1 && self.l1 == self.l2 && self.l2 == self.top
        };
        proof {
            let cs = content(*self);
            if same {
                assert forall|i: int| 0 <= i < cs.len() implies #[trigger] cs[i] == cs[0] by {}
            } else {
                assert(!one_color(cs)) by {
                    if fill(*self) == 2 {
                        assert(cs[1] != cs[0]);
                    } else if fill(*self) == 3 {
                        assert(cs[1] != cs[0] || cs[2] != cs[0]);
                    } else {
                        assert(cs[1] != cs[0] || cs[2] != cs[0] || cs[3] != cs[0]);
                    }
                }
            }
        }
        same
    }

    /// Full and single-colored.
    pub fn is_solved(&self) -> (r: bool)
        requires
            bottle_wf(*self),
        ensures
            r == bottle_solved(*self),
    {
        self.is_full() && self.is_empty_or_one_color()
    }

    pub fn available_empty_space(&self) -> (r: usize)
        requires
            bottle_wf(*self),
        ensures
            r == 4 - fill(*self),
    {
        if self.bottom.is_none() {
            4
        } else if self.l1.is_none() {
            3
        } else if self.l2.is_none() {
            2
        } else if self.top.is_none() {
            1
        } else {
            0
        }
    }

    /// Number of units in the same-colored run at the top (0 if empty).
    pub fn amount_to_pour(&self) -> (r: usize)
        requires
            bottle_wf(*self),
        ensures
            r == run_of(content(*self)),
    {
        proof {
            reveal_with_fuel(run_of, 5);
        }
        if self.bottom.is_none() {
            0
        } else if self.l1.is_none() {
            1
        } else if self.l2.is_none() {
            if self.bottom == self.l1 {
                2
            } else {
                1
            }
        } else if self.top.is_none() {
            if self.l1 == self.l2 {
                if self.bottom == self.l1 {
                    3
                } else {
                    2
                }
            } else {
                1
            }
        } else {
            if self.l2 == self.top {
                if self.l1 == self.l2 {
                    if self.bottom == self.l1 {
                        4
                    } else {
                        3
                    }
                } else {
                    2
                }
            } else {
                1
            }
        }
    }
}

} // verus!
