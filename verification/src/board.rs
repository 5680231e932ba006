use vstd::prelude::*;

use crate::bottle::bottle_of;
use crate::bottle::bottle_solved;
use crate::bottle::bottle_wf;
use crate::bottle::can_accept;
use crate::bottle::content;
use crate::bottle::count_of;
use crate::bottle::lemma_bottle_of_content;
use crate::bottle::lemma_content_of_bottle;
use crate::bottle::lemma_count_bounds;
use crate::bottle::lemma_run_bounds;
use crate::bottle::lemma_run_maximal;
use crate::bottle::lemma_run_same;
use crate::bottle::one_color;
use crate::bottle::run_of;
use crate::bottle::Bottle;
use crate::color::code_of_slot;
use crate::color::slot_code;
use crate::color::Color;
use crate::moves::find_first_not_in;
use crate::moves::first_not_in;
use crate::moves::Pour;

verus! {

/// Error returned by commands that take bottle indices.
#[derive(Copy, Clone, Debug, PartialEq, Eq, Structural)]
pub enum BoardError {
    InvalidIndex,
}

/// Mathematical state of a board: the bottle list and the optional
/// one-level undo snapshot.
#[verifier::ext_equal]
pub struct BoardView {
    pub bottles: Seq<Bottle>,
    pub old_state: Option<Seq<Bottle>>,
}

/// Every bottle is well formed and records its own board position.
pub open spec fn bottles_wf(s: Seq<Bottle>) -> bool {
    forall|i: int|
        0 <= i < s.len() ==> bottle_wf(#[trigger] s[i]) && s[i].index == Some(i as usize)
}

/// Well-formedness of a whole board, snapshot included.
pub open spec fn board_wf(v: BoardView) -> bool {
    &&& bottles_wf(v.bottles)
    &&& match v.old_state {
        Some(s) => bottles_wf(s),
        None => true,
    }
}

/// A bottle counts toward a win when it is empty or full of a single color.
pub open spec fn bottle_done(b: Bottle) -> bool {
    content(b).len() == 0 || (content(b).len() == 4 && one_color(content(b)))
}

/// The goal state: every bottle is empty or full-single-color.
pub open spec fn spec_win(s: Seq<Bottle>) -> bool {
    forall|i: int| 0 <= i < s.len() ==> bottle_done(#[trigger] s[i])
}

/// Total units of color `c` across the whole board.
pub open spec fn board_count(s: Seq<Bottle>, c: Color) -> int
    decreases s.len(),
{
    if s.len() == 0 {
        0
    } else {
        board_count(s.drop_last(), c) + count_of(content(s.last()), c)
    }
}

/// How many units a single pour command transfers from a source stack `src`
/// onto a destination stack `dst`: the source's whole top run, bounded by the
/// destination's free space, or nothing when the source is empty, the
/// destination full, or the top colors differ.
pub open spec fn transfer_count(src: Seq<Color>, dst: Seq<Color>) -> int {
    if src.len() == 0 {
        0
    } else if dst.len() >= 4 {
        0
    } else if dst.len() > 0 && dst.last() != src.last() {
        0
    } else if run_of(src) <= 4 - dst.len() {
        run_of(src)
    } else {
        4 - dst.len()
    }
}

/// The source bottle after `k` units left it.
pub open spec fn poured_src(b: Bottle, k: int) -> Bottle {
    bottle_of(b.index, content(b).take(content(b).len() - k))
}

/// The destination bottle after `k` units of color `c` arrived.
pub open spec fn poured_dst(b: Bottle, c: Color, k: int) -> Bottle {
    bottle_of(b.index, content(b) + Seq::new(k as nat, |i: int| c))
}

/// Effect of the command `pour(from, to)` on the bottle list. Out-of-range
/// indices, pours of a bottle into itself, and pours that transfer zero
/// units leave the list unchanged.
pub open spec fn pour_bottles(s: Seq<Bottle>, from: int, to: int) -> Seq<Bottle> {
    if !(0 <= from < s.len()) || !(0 <= to < s.len()) || from == to {
        s
    } else {
        let k = transfer_count(content(s[from]), content(s[to]));
        if k == 0 {
            s
        } else {
            let c = content(s[from]).last();
            s.update(from, poured_src(s[from], k)).update(to, poured_dst(s[to], c, k))
        }
    }
}

/// Relation between the board states before and after a successful
/// `pour(from, to)` command: the bottles change as [`pour_bottles`] says and
/// the undo snapshot is overwritten with the pre-pour bottle list.
pub open spec fn pour_post(pre: BoardView, post: BoardView, from: usize, to: usize) -> bool {
    &&& post.bottles == pour_bottles(pre.bottles, from as int, to as int)
    &&& post.old_state == Some(pre.bottles)
}

/// Relation between the board states before and after `undo()`: the snapshot,
/// if any, becomes the bottle list and is cleared; otherwise nothing changes.
pub open spec fn undo_post(pre: BoardView, post: BoardView) -> bool {
    match pre.old_state {
        Some(s) => post.bottles == s && post.old_state is None,
        None => post == pre,
    }
}

/// Counting distributes over concatenation of stacks.
pub proof fn lemma_count_add(a: Seq<Color>, b: Seq<Color>, c: Color)
    ensures
        count_of(a + b, c) == count_of(a, c) + count_of(b, c),
    decreases b.len(),
{
    if b.len() == 0 {
        assert(a + b =~= a);
    } else {
        assert((a + b).drop_last() =~= a + b.drop_last());
        lemma_count_add(a, b.drop_last(), c);
    }
}

/// Counting in a stack whose units all have color `e`.
pub proof fn lemma_count_const(cs: Seq<Color>, e: Color, c: Color)
    requires
        forall|i: int| 0 <= i < cs.len() ==> #[trigger] cs[i] == e,
    ensures
        count_of(cs, c) == if c == e {
            cs.len() as int
        } else {
            0
        },
    decreases cs.len(),
{
    if cs.len() > 0 {
        lemma_count_const(cs.drop_last(), e, c);
    }
}

/// Counts after replacing the bottle at position `i`.
pub proof fn lemma_board_count_update(s: Seq<Bottle>, i: int, b: Bottle, c: Color)
    requires
        0 <= i < s.len(),
    ensures
        board_count(s.update(i, b), c) == board_count(s, c) - count_of(content(s[i]), c)
            + count_of(content(b), c),
    decreases s.len(),
{
    if i == s.len() - 1 {
        assert(s.update(i, b).drop_last() =~= s.drop_last());
    } else {
        assert(s.update(i, b).drop_last() =~= s.drop_last().update(i, b));
        lemma_board_count_update(s.drop_last(), i, b, c);
    }
}

/// The `k` units a pour removes from the source and the `k` units it adds to
/// the destination have the same color counts, so every color's total over
/// the whole board is unchanged.
pub proof fn lemma_pour_conserves_counts(s: Seq<Bottle>, from: int, to: int)
    ensures
        forall|c: Color| #[trigger] board_count(pour_bottles(s, from, to), c) == board_count(s, c),
{
    if 0 <= from < s.len() && 0 <= to < s.len() && from != to {
        let sc = content(s[from]);
        let dc = content(s[to]);
        let k = transfer_count(sc, dc);
        if k != 0 {
            let c0 = sc.last();
            lemma_run_bounds(sc);
            assert forall|c: Color|
                #[trigger] board_count(pour_bottles(s, from, to), c) == board_count(s, c) by {
                let u1 = s.update(from, poured_src(s[from], k));
                let u2 = u1.update(to, poured_dst(s[to], c0, k));
                lemma_board_count_update(s, from, poured_src(s[from], k), c);
                lemma_board_count_update(u1, to, poured_dst(s[to], c0, k), c);
                assert(u1[to] == s[to]);
                // the source splits into the kept prefix and the departing run
                let kept = sc.take(sc.len() - k);
                let run = sc.skip(sc.len() - k);
                assert(kept + run =~= sc);
                lemma_count_add(kept, run, c);
                lemma_content_of_bottle(s[from].index, kept);
                // the departing run and the arriving units are all `c0`
                assert forall|i: int| 0 <= i < run.len() implies #[trigger] run[i] == c0 by {
                    lemma_run_same(sc, k - 1 - i);
                }
                lemma_count_const(run, c0, c);
                let arriving = Seq::new(k as nat, |i: int| c0);
                assert(forall|i: int| 0 <= i < arriving.len() ==> #[trigger] arriving[i] == c0);
                lemma_count_const(arriving, c0, c);
                lemma_count_add(dc, arriving, c);
                lemma_content_of_bottle(s[to].index, dc + arriving);
            }
        }
    }
}

/// A pour preserves well-formedness of the bottle list.
pub proof fn lemma_pour_wf(s: Seq<Bottle>, from: int, to: int)
    requires
        bottles_wf(s),
    ensures
        bottles_wf(pour_bottles(s, from, to)),
{
    if 0 <= from < s.len() && 0 <= to < s.len() && from != to {
        let sc = content(s[from]);
        let dc = content(s[to]);
        let k = transfer_count(sc, dc);
        if k != 0 {
            let c0 = sc.last();
            lemma_run_bounds(sc);
            lemma_content_of_bottle(s[from].index, sc.take(sc.len() - k));
            lemma_content_of_bottle(s[to].index, dc + Seq::new(k as nat, |i: int| c0));
        }
    }
}

/// A pour from an empty bottle, into a full bottle, or between bottles whose
/// top colors differ moves nothing.
pub proof fn lemma_noop_pour(s: Seq<Bottle>, from: int, to: int)
    requires
        0 <= from < s.len(),
        0 <= to < s.len(),
        content(s[from]).len() == 0 || content(s[to]).len() == 4 || (content(s[from]).len() > 0
            && content(s[to]).len() > 0 && content(s[from]).last() != content(s[to]).last()),
    ensures
        pour_bottles(s, from, to) == s,
{
}

/// `pour` immediately followed by `undo` restores the exact pre-pour bottles.
pub proof fn lemma_pour_then_undo(b0: BoardView, b1: BoardView, b2: BoardView, from: usize, to: usize)
    requires
        pour_post(b0, b1, from, to),
        undo_post(b1, b2),
    ensures
        b2.bottles == b0.bottles,
{
}

/// After an `undo`, a second `undo` with no pour in between changes nothing.
pub proof fn lemma_undo_twice(b0: BoardView, b1: BoardView, b2: BoardView)
    requires
        undo_post(b0, b1),
        undo_post(b1, b2),
    ensures
        b2 == b1,
{
}

/// Move candidates that pour a non-empty, non-solved bottle into an empty
/// one, enumerated from destination `e` and source `src` onward: the empty
/// destination ranks first, the source second, both in board order.
pub open spec fn empty_dst_moves(s: Seq<Bottle>, e: int, src: int) -> Seq<Pour>
    decreases s.len() - e, s.len() - src,
{
    if e < 0 || src < 0 || e >= s.len() {
        Seq::empty()
    } else if src >= s.len() {
        empty_dst_moves(s, e + 1, 0)
    } else if content(s[e]).len() == 0 && content(s[src]).len() > 0 && !bottle_solved(s[src]) {
        seq![Pour { from: src as usize, to: e as usize }] + empty_dst_moves(s, e, src + 1)
    } else {
        empty_dst_moves(s, e, src + 1)
    }
}

/// Move candidates between non-empty bottles with matching top colors,
/// where the destination has room for the source's whole top run,
/// enumerated from source `src` and destination `dst` onward: the source
/// ranks first, the destination second, both in board order.
pub open spec fn matched_moves(s: Seq<Bottle>, src: int, dst: int) -> Seq<Pour>
    decreases s.len() - src, s.len() - dst,
{
    if src < 0 || dst < 0 || src >= s.len() {
        Seq::empty()
    } else if dst >= s.len() {
        matched_moves(s, src + 1, 0)
    } else if src != dst && content(s[src]).len() > 0 && content(s[dst]).len() > 0 && content(
        s[src],
    ).last() == content(s[dst]).last() && content(s[dst]).len() < 4 && run_of(content(s[src])) <= 4
        - content(s[dst]).len() {
        seq![Pour { from: src as usize, to: dst as usize }] + matched_moves(s, src, dst + 1)
    } else {
        matched_moves(s, src, dst + 1)
    }
}

/// All currently available moves, in enumeration priority order: pours into
/// empty bottles first, then matched-color pours.
pub open spec fn available_moves(s: Seq<Bottle>) -> Seq<Pour> {
    empty_dst_moves(s, 0, 0) + matched_moves(s, 0, 0)
}

/// Every candidate of the empty-destination enumeration names two bottles
/// of the board.
pub proof fn lemma_empty_dst_moves_in_range(s: Seq<Bottle>, e: int, src: int, p: Pour)
    requires
        empty_dst_moves(s, e, src).contains(p),
    ensures
        (p.from as int) < s.len(),
        (p.to as int) < s.len(),
    decreases s.len() - e, s.len() - src,
{
    if e < 0 || src < 0 || e >= s.len() {
        assert(false);
    } else if src >= s.len() {
        lemma_empty_dst_moves_in_range(s, e + 1, 0, p);
    } else if content(s[e]).len() == 0 && content(s[src]).len() > 0 && !bottle_solved(s[src]) {
        let head = Pour { from: src as usize, to: e as usize };
        let rest = empty_dst_moves(s, e, src + 1);
        let whole = empty_dst_moves(s, e, src);
        let i = choose|i: int| 0 <= i < whole.len() && whole[i] == p;
        if i == 0 {
            assert(p == head);
        } else {
            assert(rest[i - 1] == p);
            assert(rest.contains(p));
            lemma_empty_dst_moves_in_range(s, e, src + 1, p);
        }
    } else {
        lemma_empty_dst_moves_in_range(s, e, src + 1, p);
    }
}

/// Every candidate of the matched-color enumeration names two bottles of
/// the board.
pub proof fn lemma_matched_moves_in_range(s: Seq<Bottle>, src: int, dst: int, p: Pour)
    requires
        matched_moves(s, src, dst).contains(p),
    ensures
        (p.from as int) < s.len(),
        (p.to as int) < s.len(),
    decreases s.len() - src, s.len() - dst,
{
    if src < 0 || dst < 0 || src >= s.len() {
        assert(false);
    } else if dst >= s.len() {
        lemma_matched_moves_in_range(s, src + 1, 0, p);
    } else if src != dst && content(s[src]).len() > 0 && content(s[dst]).len() > 0 && content(
        s[src],
    ).last() == content(s[dst]).last() && content(s[dst]).len() < 4 && run_of(content(s[src])) <= 4
        - content(s[dst]).len() {
        let head = Pour { from: src as usize, to: dst as usize };
        let rest = matched_moves(s, src, dst + 1);
        let whole = matched_moves(s, src, dst);
        let i = choose|i: int| 0 <= i < whole.len() && whole[i] == p;
        if i == 0 {
            assert(p == head);
        } else {
            assert(rest[i - 1] == p);
            assert(rest.contains(p));
            lemma_matched_moves_in_range(s, src, dst + 1, p);
        }
    } else {
        lemma_matched_moves_in_range(s, src, dst + 1, p);
    }
}

/// Every available move names two bottles of the board.
pub proof fn lemma_available_moves_in_range(s: Seq<Bottle>, p: Pour)
    requires
        available_moves(s).contains(p),
    ensures
        (p.from as int) < s.len(),
        (p.to as int) < s.len(),
{
    let first = empty_dst_moves(s, 0, 0);
    let second = matched_moves(s, 0, 0);
    let i = choose|i: int| 0 <= i < available_moves(s).len() && available_moves(s)[i] == p;
    if i < first.len() {
        assert(first[i] == p);
        assert(first.contains(p));
        lemma_empty_dst_moves_in_range(s, 0, 0, p);
    } else {
        assert(second[i - first.len()] == p);
        assert(second.contains(p));
        lemma_matched_moves_in_range(s, 0, 0, p);
    }
}

/// At least one useful pour exists: some bottle is empty, or two distinct
/// bottles share a top color and at least one of them is not full.
pub open spec fn spec_move_available(s: Seq<Bottle>) -> bool {
    (exists|i: int| 0 <= i < s.len() && content(#[trigger] s[i]).len() == 0) || (exists|i: int, j: int|
        0 <= i < s.len() && 0 <= j < s.len() && #[trigger] pair_pourable(s, i, j))
}

/// `n` bounded above by five: enough to tell counts of zero or four apart
/// from any larger count without tracking totals exactly.
pub open spec fn cap5(n: int) -> int {
    if n >= 5 {
        5
    } else {
        n
    }
}

/// Board totals are nonnegative.
pub proof fn lemma_board_count_nonneg(s: Seq<Bottle>, c: Color)
    ensures
        0 <= board_count(s, c),
    decreases s.len(),
{
    if s.len() > 0 {
        lemma_board_count_nonneg(s.drop_last(), c);
        lemma_count_bounds(content(s.last()), c);
    }
}

/// The four serialization bytes of one bottle, bottom slot first.
pub open spec fn bottle_bytes(b: Bottle) -> Seq<u8> {
    seq![slot_code(b.bottom), slot_code(b.l1), slot_code(b.l2), slot_code(b.top)]
}

/// The whole board flattened to bytes, one byte per slot, in board order.
pub open spec fn serialized(s: Seq<Bottle>) -> Seq<u8>
    decreases s.len(),
{
    if s.len() == 0 {
        Seq::empty()
    } else {
        serialized(s.drop_last()) + bottle_bytes(s.last())
    }
}

/// The board: an ordered list of bottles plus at most one undo snapshot,
/// overwritten on every pour command.
#[derive(Debug)]
pub struct WaterSorting {
    bottles: Vec<Bottle>,
    old_state: Option<Vec<Bottle>>,
}

impl View for WaterSorting {
    type V = BoardView;

    closed spec fn view(&self) -> BoardView {
        BoardView {
            bottles: self.bottles@,
            old_state: match self.old_state {
                Some(v) => Some(v@),
                None => None,
            },
        }
    }
}

impl PartialEq for WaterSorting {
    /// Boards are compared by their bottles alone; the undo snapshot is not
    /// part of a board's identity.
    fn eq(&self, other: &Self) -> bool {
        if self.bottles.len() != other.bottles.len() {
            false
        } else {
            let mut i: usize = 0;
            while i < self.bottles.len()
                invariant
                    i <= self.bottles.len(),
                    self.bottles.len() == other.bottles.len(),
                    forall|j: int| 0 <= j < i ==> self.bottles@[j] == other.bottles@[j],
                decreases self.bottles.len() - i,
            {
                if !(self.bottles[i] == other.bottles[i]) {
                    return false;
                }
                i = i + 1;
            }
            proof {
                assert(self.bottles@ =~= other.bottles@);
            }
            true
        }
    }
}

impl vstd::std_specs::cmp::PartialEqSpecImpl for WaterSorting {
    open spec fn obeys_eq_spec() -> bool {
        true
    }

    open spec fn eq_spec(&self, other: &WaterSorting) -> bool {
        self@.bottles == other@.bottles
    }
}

/// Distinct non-empty bottles `i` and `j` share a top color and at least one
/// of the two has room.
pub open spec fn pair_pourable(s: Seq<Bottle>, i: int, j: int) -> bool {
    &&& i != j
    &&& content(s[i]).len() > 0 && content(s[j]).len() > 0
    &&& content(s[i]).last() == content(s[j]).last()
    &&& (content(s[i]).len() < 4 || content(s[j]).len() < 4)
}

/// All color values.
fn all_colors() -> (r: Vec<Color>)
    ensures
        r@.len() == 14,
        forall|c: Color| r@.contains(c),
{
    let mut v: Vec<Color> = Vec::new();
    v.push(Color::Empty);
    v.push(Color::Blue);
    v.push(Color::Red);
    v.push(Color::Gray);
    v.push(Color::Orange);
    v.push(Color::Brown);
    v.push(Color::Yellow);
    v.push(Color::Green);
    v.push(Color::Magenta);
    v.push(Color::Teal);
    v.push(Color::Purple);
    v.push(Color::LightBlue);
    v.push(Color::Peach);
    v.push(Color::Olive);
    proof {
        assert forall|c: Color| v@.contains(c) by {
            match c {
                Color::Empty => assert(v@[0] == c),
                Color::Blue => assert(v@[1] == c),
                Color::Red => assert(v@[2] == c),
                Color::Gray => assert(v@[3] == c),
                Color::Orange => assert(v@[4] == c),
                Color::Brown => assert(v@[5] == c),
                Color::Yellow => assert(v@[6] == c),
                Color::Green => assert(v@[7] == c),
                Color::Magenta => assert(v@[8] == c),
                Color::Teal => assert(v@[9] == c),
                Color::Purple => assert(v@[10] == c),
                Color::LightBlue => assert(v@[11] == c),
                Color::Peach => assert(v@[12] == c),
                Color::Olive => assert(v@[13] == c),
            }
        }
    }
    v
}

/// Units of color `c` held in one bottle.
fn count_in_bottle(b: &Bottle, c: Color) -> (r: usize)
    requires
        bottle_wf(*b),
    ensures
        r == count_of(content(*b), c),
{
    proof {
        reveal_with_fuel(count_of, 5);
    }
    let mut k: usize = 0;
    match b.bottom {
        Some(x) => if x == c {
            k = k + 1;
        },
        None => {},
    }
    match b.l1 {
        Some(x) => if x == c {
            k = k + 1;
        },
        None => {},
    }
    match b.l2 {
        Some(x) => if x == c {
            k = k + 1;
        },
        None => {},
    }
    match b.top {
        Some(x) => if x == c {
            k = k + 1;
        },
        None => {},
    }
    k
}

/// Element-by-element copy of a bottle list.
fn copy_bottles(v: &Vec<Bottle>) -> (r: Vec<Bottle>)
    ensures
        r@ == v@,
{
    let mut r: Vec<Bottle> = Vec::new();
    let mut i: usize = 0;
    while i < v.len()
        invariant
            i <= v.len(),
            r@ == v@.take(i as int),
        decreases v.len() - i,
    {
        r.push(v[i]);
        proof {
            assert(r@ =~= v@.take(i + 1));
        }
        i = i + 1;
    }
    proof {
        assert(v@.take(v@.len() as int) =~= v@);
    }
    r
}

impl WaterSorting {
    pub fn new() -> (r: Self)
        ensures
            board_wf(r@),
            r@.bottles == Seq::<Bottle>::empty(),
            r@.old_state is None,
    {
        let r = WaterSorting { bottles: Vec::with_capacity(4), old_state: None };
        proof {
            assert(r@.bottles =~= Seq::<Bottle>::empty());
        }
        r
    }

    /// Copy of the bottle at position `i`.
    pub fn bottle_at(&self, i: usize) -> (r: Bottle)
        requires
            i < self@.bottles.len(),
        ensures
            r == self@.bottles[i as int],
    {
        self.bottles[i]
    }

    /// An independent copy of this board, snapshot included. Stands in for a
    /// derived `Clone`, whose effect the verifier would know nothing about.
    pub fn duplicate(&self) -> (r: WaterSorting)
        ensures
            r@ == self@,
    {
        let r = WaterSorting {
            bottles: copy_bottles(&self.bottles),
            old_state: match &self.old_state {
                None => None,
                Some(v) => Some(copy_bottles(v)),
            },
        };
        proof {
            assert(r@ =~~= self@);
        }
        r
    }

    pub fn bottles_count(&self) -> (r: usize)
        ensures
            r == self@.bottles.len(),
    {
        self.bottles.len()
    }

    /// Remove every bottle; the undo snapshot is left as it was.
    pub fn reset(&mut self)
        requires
            board_wf(old(self)@),
        ensures
            board_wf(final(self)@),
            final(self)@.bottles == Seq::<Bottle>::empty(),
            final(self)@.old_state == old(self)@.old_state,
    {
        self.bottles.clear();
        proof {
            assert(self@.bottles =~= Seq::<Bottle>::empty());
        }
    }

    pub fn init_empty_bottle(&mut self)
        requires
            board_wf(old(self)@),
        ensures
            board_wf(final(self)@),
            final(self)@.bottles == old(self)@.bottles.push(
                bottle_of(Some(old(self)@.bottles.len() as usize), Seq::<Color>::empty()),
            ),
            final(self)@.old_state == old(self)@.old_state,
    {
        let idx = self.bottles.len();
        let b = Bottle::empty(idx);
        proof {
            lemma_bottle_of_content(b);
        }
        self.bottles.push(b);
    }

    pub fn init_bottle_with_one_color(&mut self, c: Color)
        requires
            board_wf(old(self)@),
        ensures
            board_wf(final(self)@),
            final(self)@.bottles == old(self)@.bottles.push(
                bottle_of(Some(old(self)@.bottles.len() as usize), seq![c]),
            ),
            final(self)@.old_state == old(self)@.old_state,
    {
        let idx = self.bottles.len();
        let b = Bottle::with_one_color(idx, c);
        proof {
            lemma_bottle_of_content(b);
        }
        self.bottles.push(b);
    }

    pub fn init_bottle_with_two_colors(&mut self, b: Color, l1: Color)
        requires
            board_wf(old(self)@),
        ensures
            board_wf(final(self)@),
            final(self)@.bottles == old(self)@.bottles.push(
                bottle_of(Some(old(self)@.bottles.len() as usize), seq![b, l1]),
            ),
            final(self)@.old_state == old(self)@.old_state,
    {
        let idx = self.bottles.len();
        let bt = Bottle::with_two_colors(idx, b, l1);
        proof {
            lemma_bottle_of_content(bt);
        }
        self.bottles.push(bt);
    }

    pub fn init_bottle_with_three_colors(&mut self, b: Color, l1: Color, l2: Color)
        requires
            board_wf(old(self)@),
        ensures
            board_wf(final(self)@),
            final(self)@.bottles == old(self)@.bottles.push(
                bottle_of(Some(old(self)@.bottles.len() as usize), seq![b, l1, l2]),
            ),
            final(self)@.old_state == old(self)@.old_state,
    {
        let idx = self.bottles.len();
        let bt = Bottle::with_three_colors(idx, b, l1, l2);
        proof {
            lemma_bottle_of_content(bt);
        }
        self.bottles.push(bt);
    }

    pub fn init_bottle_with_four_colors(&mut self, b: Color, l1: Color, l2: Color, t: Color)
        requires
            board_wf(old(self)@),
        ensures
            board_wf(final(self)@),
            final(self)@.bottles == old(self)@.bottles.push(
                bottle_of(Some(old(self)@.bottles.len() as usize), seq![b, l1, l2, t]),
            ),
            final(self)@.old_state == old(self)@.old_state,
    {
        let idx = self.bottles.len();
        let bt = Bottle::with_four_colors(idx, b, l1, l2, t);
        proof {
            lemma_bottle_of_content(bt);
        }
        self.bottles.push(bt);
    }

    pub fn undo_available(&self) -> (r: bool)
        ensures
            r == (self@.old_state is Some),
    {
        self.old_state.is_some()
    }

    /// Restore the bottles from the last snapshot, if one exists, and clear
    /// the snapshot; undo is single-shot, not a stack.
    pub fn undo(&mut self)
        requires
            board_wf(old(self)@),
        ensures
            board_wf(final(self)@),
            undo_post(old(self)@, final(self)@),
    {
        let snap = match &self.old_state {
            None => None,
            Some(v) => Some(copy_bottles(v)),
        };
        match snap {
            None => {},
            Some(v) => {
                self.bottles = v;
                self.old_state = None;
            },
        }
    }

    pub fn win(&self) -> (r: bool)
        requires
            board_wf(self@),
        ensures
            r == spec_win(self@.bottles),
    {
        let mut i: usize = 0;
        while i < self.bottles.len()
            invariant
                board_wf(self@),
                i <= self@.bottles.len(),
                forall|j: int| 0 <= j < i ==> bottle_done(#[trigger] self@.bottles[j]),
            decreases self@.bottles.len() - i,
        {
            let b = self.bottles[i];
            let done = b.is_empty_or_one_color() && (b.is_empty() || b.is_full());
            if !done {
                return false;
            }
            i = i + 1;
        }
        true
    }

    /// Pour from bottle `from_index` onto bottle `to_index`: first snapshot
    /// the board for undo, then transfer single units until the source runs
    /// out or the destination refuses one. Out-of-range indices are rejected
    /// with no change at all.
    #[verifier::rlimit(60)]
    pub fn pour(&mut self, from_index: usize, to_index: usize) -> (r: Result<(), BoardError>)
        requires
            board_wf(old(self)@),
        ensures
            board_wf(final(self)@),
            from_index < old(self)@.bottles.len() && to_index < old(self)@.bottles.len() ==> r
                is Ok && pour_post(old(self)@, final(self)@, from_index, to_index),
            !(from_index < old(self)@.bottles.len() && to_index < old(self)@.bottles.len()) ==> r
                == Result::<(), BoardError>::Err(BoardError::InvalidIndex) && *final(self) == *old(
                self,
            ),
            forall|c: Color| #[trigger] board_count(final(self)@.bottles, c) == board_count(
                old(self)@.bottles,
                c,
            ),
    {
        proof {
            lemma_pour_conserves_counts(old(self)@.bottles, from_index as int, to_index as int);
            lemma_pour_wf(old(self)@.bottles, from_index as int, to_index as int);
        }
        if !(from_index < self.bottles.len() && to_index < self.bottles.len()) {
            return Err(BoardError::InvalidIndex);
        }
        let snapshot = copy_bottles(&self.bottles);
        self.old_state = Some(snapshot);
        if from_index == to_index {
            return Ok(());
        }
        let ghost pre = self.bottles@;
        let ghost sc = content(pre[from_index as int]);
        let ghost dc = content(pre[to_index as int]);
        let ghost k = transfer_count(sc, dc);
        let ghost c0 = sc.last();
        let ghost mut jj: int = 0;
        proof {
            lemma_run_bounds(sc);
            lemma_bottle_of_content(pre[from_index as int]);
            lemma_bottle_of_content(pre[to_index as int]);
            assert(sc.take(sc.len() - 0) =~= sc);
            assert(dc + Seq::new(0, |i: int| c0) =~= dc);
            assert(pre.update(from_index as int, pre[from_index as int]).update(
                to_index as int,
                pre[to_index as int],
            ) =~= pre);
        }
        loop
            invariant_except_break
                0 <= jj <= k,
                sc == content(pre[from_index as int]),
                dc == content(pre[to_index as int]),
                c0 == sc.last(),
                k == transfer_count(sc, dc),
                k <= run_of(sc) && run_of(sc) <= sc.len() <= 4,
                k != 0 ==> k <= 4 - dc.len(),
                k != 0 ==> sc.len() > 0 && c0 == sc.last(),
                k != 0 && dc.len() > 0 ==> dc.last() == c0,
                from_index != to_index,
                from_index < pre.len() && to_index < pre.len(),
                self@.bottles.len() == pre.len(),
                self@.bottles =~= pre.update(
                    from_index as int,
                    poured_src(pre[from_index as int], jj),
                ).update(to_index as int, poured_dst(pre[to_index as int], c0, jj)),
                content(self@.bottles[from_index as int]) == sc.take(sc.len() - jj),
                content(self@.bottles[to_index as int]) == dc + Seq::new(
                    jj as nat,
                    |i: int| c0,
                ),
                bottles_wf(self@.bottles),
                self@.old_state == Some(pre),
            ensures
                jj == k,
                self@.bottles == pre.update(
                    from_index as int,
                    poured_src(pre[from_index as int], jj),
                ).update(to_index as int, poured_dst(pre[to_index as int], c0, jj)),
                bottles_wf(self@.bottles),
                self@.old_state == Some(pre),
            decreases k - jj,
        {
            proof {
                if jj < k {
                    lemma_run_same(sc, jj);
                }
            }
            let src = self.bottles[from_index];
            match src.top_color() {
                None => {
                    proof {
                        // the source is exhausted, so the whole transfer is done
                        assert(content(src).len() == 0);
                        assert(jj == sc.len());
                        assert(jj == k);
                    }
                    break ;
                },
                Some(c) => {
                    let mut dst = self.bottles[to_index];
                    let ghost dst0 = dst;
                    let accepted = dst.pour(c);
                    if !accepted {
                        proof {
                            if jj < k {
                                // with units still owed, the destination must
                                // accept the run color: contradiction
                                assert(c == c0);
                                assert(content(dst0).len() == dc.len() + jj < 4);
                                if content(dst0).len() > 0 {
                                    if jj > 0 {
                                        assert(content(dst0).last() == c0);
                                    } else {
                                        assert(content(dst0).last() == dc.last());
                                    }
                                }
                                assert(can_accept(dst0, c));
                                assert(false);
                            }
                            assert(jj == k);
                        }
                        break ;
                    }
                    proof {
                        // the destination accepted, so the transfer is not done yet
                        if jj >= k {
                            if k == 0 {
                                lemma_run_bounds(sc);
                                assert(content(src) =~= sc);
                                assert(sc.len() > 0);
                                assert(content(dst0) =~= dc);
                                assert(c == sc.last());
                                assert(dc.len() < 4);
                                assert(dc.len() > 0 ==> dc.last() == c);
                                assert(transfer_count(sc, dc) >= 1);
                                assert(false);
                            } else {
                                assert(content(dst0).len() == dc.len() + jj);
                                if k == 4 - dc.len() {
                                    assert(content(dst0).len() == 4);
                                    assert(!can_accept(dst0, c));
                                    assert(false);
                                } else {
                                    assert(k == run_of(sc));
                                    assert(run_of(sc) < sc.len());
                                    lemma_run_maximal(sc);
                                    assert(c == sc[sc.len() - 1 - k]);
                                    assert(c != c0);
                                    assert(content(dst0).len() > 0);
                                    assert(content(dst0).last() == c0);
                                    assert(!can_accept(dst0, c));
                                    assert(false);
                                }
                            }
                        }
                        assert(jj < k);
                        assert(c == c0);
                    }
                    self.bottles.set(to_index, dst);
                    let mut src2 = self.bottles[from_index];
                    src2.pop();
                    self.bottles.set(from_index, src2);
                    proof {
                        jj = jj + 1;
                        lemma_content_of_bottle(pre[from_index as int].index, sc.take(sc.len() - jj));
                        lemma_content_of_bottle(
                            pre[to_index as int].index,
                            dc + Seq::new(jj as nat, |i: int| c0),
                        );
                        assert(sc.take(sc.len() - (jj - 1)).drop_last() =~= sc.take(sc.len() - jj));
                        let prev_dst = dc + Seq::new((jj - 1) as nat, |i: int| c0);
                        let next_dst = dc + Seq::new(jj as nat, |i: int| c0);
                        assert(prev_dst.push(c) =~= next_dst);
                        lemma_bottle_of_content(dst);
                        lemma_bottle_of_content(src2);
                        assert(content(src2) == sc.take(sc.len() - jj));
                        assert(dst == poured_dst(pre[to_index as int], c0, jj));
                        assert(src2 == poured_src(pre[from_index as int], jj));
                        assert(self@.bottles =~= pre.update(
                            from_index as int,
                            poured_src(pre[from_index as int], jj),
                        ).update(to_index as int, poured_dst(pre[to_index as int], c0, jj)));
                    }
                },
            }
        }
        proof {
            if k == 0 {
                assert(sc.take(sc.len() - 0) =~= sc);
                assert(dc + Seq::new(0, |i: int| c0) =~= dc);
                assert(self@.bottles =~= pre);
            }
            assert(pour_post(old(self)@, self@, from_index, to_index));
        }
        Ok(())
    }

    pub fn move_available(&self) -> (r: bool)
        requires
            board_wf(self@),
        ensures
            r == spec_move_available(self@.bottles),
    {
        let ghost bs = self@.bottles;
        let n = self.bottles.len();
        let mut i: usize = 0;
        while i < n
            invariant
                board_wf(self@),
                bs == self@.bottles,
                n == bs.len(),
                i <= n,
                forall|t: int| 0 <= t < i ==> content(#[trigger] bs[t]).len() > 0,
            decreases n - i,
        {
            if self.bottles[i].is_empty() {
                return true;
            }
            i = i + 1;
        }
        let mut a: usize = 0;
        while a < n
            invariant
                board_wf(self@),
                bs == self@.bottles,
                n == bs.len(),
                a <= n,
                forall|t: int| 0 <= t < n ==> content(#[trigger] bs[t]).len() > 0,
                forall|x: int, y: int| 0 <= x < a && 0 <= y < n ==> !(#[trigger] pair_pourable(
                    bs,
                    x,
                    y,
                )),
            decreases n - a,
        {
            let mut b: usize = 0;
            while b < n
                invariant
                    board_wf(self@),
                    bs == self@.bottles,
                    n == bs.len(),
                    a < n,
                    b <= n,
                    forall|t: int| 0 <= t < n ==> content(#[trigger] bs[t]).len() > 0,
                    forall|x: int, y: int| 0 <= x < a && 0 <= y < n ==> !(#[trigger] pair_pourable(
                        bs,
                        x,
                        y,
                    )),
                    forall|y: int| 0 <= y < b ==> !(#[trigger] pair_pourable(bs, a as int, y)),
                decreases n - b,
            {
                if a != b {
                    let ba = self.bottles[a];
                    let bb = self.bottles[b];
                    let ta = ba.top_color();
                    let tb = bb.top_color();
                    let tops_equal = match (ta, tb) {
                        (Some(x), Some(y)) => x == y,
                        _ => false,
                    };
                    if tops_equal && (!ba.is_full() || !bb.is_full()) {
                        proof {
                            assert(pair_pourable(bs, a as int, b as int));
                        }
                        return true;
                    }
                }
                b = b + 1;
            }
            a = a + 1;
        }
        false
    }

    /// Enumerate every currently available move, in priority order: first,
    /// for each empty bottle in board order, pours into it from each
    /// non-empty, non-solved bottle in board order; then pours between
    /// distinct non-empty bottles whose top colors match, where the source's
    /// whole top run fits in the destination's free space.
    pub fn next_available_moves(&self) -> (r: Vec<Pour>)
        requires
            board_wf(self@),
        ensures
            r@ == available_moves(self@.bottles),
    {
        let ghost bs = self@.bottles;
        let n = self.bottles.len();
        let mut r: Vec<Pour> = Vec::new();
        let mut e: usize = 0;
        proof {
            assert(r@ + empty_dst_moves(bs, 0, 0) =~= empty_dst_moves(bs, 0, 0));
        }
        while e < n
            invariant
                board_wf(self@),
                bs == self@.bottles,
                n == bs.len(),
                e <= n,
                r@ + empty_dst_moves(bs, e as int, 0) == empty_dst_moves(bs, 0, 0),
            decreases n - e,
        {
            let mut s: usize = 0;
            while s < n
                invariant
                    board_wf(self@),
                    bs == self@.bottles,
                    n == bs.len(),
                    e < n,
                    s <= n,
                    r@ + empty_dst_moves(bs, e as int, s as int) == empty_dst_moves(bs, 0, 0),
                decreases n - s,
            {
                let eb = self.bottles[e];
                let sb = self.bottles[s];
                if eb.is_empty() && !sb.is_empty() && !sb.is_solved() {
                    let p = Pour::new(s, e);
                    proof {
                        let rest = empty_dst_moves(bs, e as int, s as int + 1);
                        assert(empty_dst_moves(bs, e as int, s as int) =~= seq![p] + rest);
                        assert(r@.push(p) + rest =~= r@ + (seq![p] + rest));
                    }
                    r.push(p);
                }
                s = s + 1;
            }
            e = e + 1;
        }
        proof {
            assert(empty_dst_moves(bs, n as int, 0) =~= Seq::<Pour>::empty());
            assert(r@ + Seq::<Pour>::empty() =~= r@);
            assert(r@ == empty_dst_moves(bs, 0, 0));
        }
        let mut a: usize = 0;
        while a < n
            invariant
                board_wf(self@),
                bs == self@.bottles,
                n == bs.len(),
                a <= n,
                r@ + matched_moves(bs, a as int, 0) == empty_dst_moves(bs, 0, 0) + matched_moves(
                    bs,
                    0,
                    0,
                ),
            decreases n - a,
        {
            let mut d: usize = 0;
            while d < n
                invariant
                    board_wf(self@),
                    bs == self@.bottles,
                    n == bs.len(),
                    a < n,
                    d <= n,
                    r@ + matched_moves(bs, a as int, d as int) == empty_dst_moves(bs, 0, 0)
                        + matched_moves(bs, 0, 0),
                decreases n - d,
            {
                if a != d {
                    let sb = self.bottles[a];
                    let db = self.bottles[d];
                    if !sb.is_empty() && !db.is_empty() && !db.is_full() {
                        let ta = sb.top_color();
                        let td = db.top_color();
                        let tops_equal = match (ta, td) {
                            (Some(x), Some(y)) => x == y,
                            _ => false,
                        };
                        if tops_equal && sb.amount_to_pour() <= db.available_empty_space() {
                            let p = Pour::new(a, d);
                            proof {
                                let rest = matched_moves(bs, a as int, d as int + 1);
                                assert(matched_moves(bs, a as int, d as int) =~= seq![p] + rest);
                                assert(r@.push(p) + rest =~= r@ + (seq![p] + rest));
                            }
                            r.push(p);
                        }
                    }
                }
                d = d + 1;
            }
            a = a + 1;
        }
        proof {
            assert(matched_moves(bs, n as int, 0) =~= Seq::<Pour>::empty());
            assert(r@ + Seq::<Pour>::empty() =~= r@);
        }
        r
    }

    /// The first available move, in enumeration order, that is not in the
    /// caller-supplied exclusion list: repeated calls with the moves already
    /// returned walk the whole available set one move at a time.
    pub fn next_available_move_except(&self, moves: &Vec<Pour>) -> (r: Option<Pour>)
        requires
            board_wf(self@),
        ensures
            r == first_not_in(available_moves(self@.bottles), moves@),
    {
        let all = self.next_available_moves();
        find_first_not_in(&all, moves)
    }

    pub fn next_available_move(&self) -> (r: Option<Pour>)
        requires
            board_wf(self@),
        ensures
            r == first_not_in(available_moves(self@.bottles), Seq::<Pour>::empty()),
    {
        let none: Vec<Pour> = Vec::new();
        self.next_available_move_except(&none)
    }

    /// Serialize the board: four bytes per bottle in board order, one stable
    /// color code per slot from the bottom up.
    pub fn bottles(&self) -> (r: Vec<u8>)
        requires
            board_wf(self@),
        ensures
            r@ == serialized(self@.bottles),
    {
        let ghost bs = self@.bottles;
        let n = self.bottles.len();
        let mut r: Vec<u8> = Vec::new();
        let mut i: usize = 0;
        proof {
            assert(bs.take(0) =~= Seq::<Bottle>::empty());
        }
        while i < n
            invariant
                board_wf(self@),
                bs == self@.bottles,
                n == bs.len(),
                i <= n,
                r@ == serialized(bs.take(i as int)),
            decreases n - i,
        {
            let b = self.bottles[i];
            r.push(code_of_slot(b.bottom));
            r.push(code_of_slot(b.l1));
            r.push(code_of_slot(b.l2));
            r.push(code_of_slot(b.top));
            proof {
                assert(bs.take(i + 1).drop_last() =~= bs.take(i as int));
                assert(bs.take(i + 1).last() == bs[i as int]);
                assert(r@ =~= serialized(bs.take(i as int)) + bottle_bytes(bs[i as int]));
            }
            i = i + 1;
        }
        proof {
            assert(bs.take(n as int) =~= bs);
        }
        r
    }

    /// Capped total of color `c` over the whole board: exact up to four,
    /// five standing for "more than four".
    fn count_color_capped(&self, c: Color) -> (r: usize)
        requires
            board_wf(self@),
        ensures
            r == cap5(board_count(self@.bottles, c)),
    {
        let ghost bs = self@.bottles;
        let n = self.bottles.len();
        let mut r: usize = 0;
        let mut i: usize = 0;
        proof {
            assert(bs.take(0) =~= Seq::<Bottle>::empty());
        }
        while i < n
            invariant
                board_wf(self@),
                bs == self@.bottles,
                n == bs.len(),
                i <= n,
                0 <= r <= 5,
                r == cap5(board_count(bs.take(i as int), c)),
            decreases n - i,
        {
            let b = self.bottles[i];
            let k = count_in_bottle(&b, c);
            proof {
                lemma_count_bounds(content(bs[i as int]), c);
                lemma_board_count_nonneg(bs.take(i as int), c);
                assert(bs.take(i + 1).drop_last() =~= bs.take(i as int));
                assert(bs.take(i + 1).last() == bs[i as int]);
            }
            let mut t = r + k;
            if t > 5 {
                t = 5;
            }
            r = t;
            i = i + 1;
        }
        proof {
            assert(bs.take(n as int) =~= bs);
        }
        r
    }

    /// Human-readable text rendering: one line per bottle, units from the
    /// bottom up, each line prefixed with the bottle's 1-based number.
    pub fn render(&self) -> (r: String)
        requires
            board_wf(self@),
        ensures
            r@ == crate::render::rendered(self@.bottles),
    {
        crate::render::render_bottles(&self.bottles)
    }

    /// The structural solvability precondition: every color that appears on
    /// the board appears exactly four times, one bottle's worth.
    pub fn can_be_sorted(&self) -> (r: bool)
        requires
            board_wf(self@),
        ensures
            r == (forall|c: Color|
                #[trigger] board_count(self@.bottles, c) == 0 || board_count(self@.bottles, c)
                    == 4),
    {
        let ghost bs = self@.bottles;
        let colors = all_colors();
        let mut i: usize = 0;
        while i < colors.len()
            invariant
                board_wf(self@),
                bs == self@.bottles,
                i <= colors@.len(),
                forall|c: Color| colors@.contains(c),
                forall|j: int|
                    0 <= j < i ==> (#[trigger] board_count(bs, colors@[j]) == 0 || board_count(
                        bs,
                        colors@[j],
                    ) == 4),
            decreases colors@.len() - i,
        {
            let cnt = self.count_color_capped(colors[i]);
            proof {
                lemma_board_count_nonneg(bs, colors@[i as int]);
            }
            if !(cnt == 0 || cnt == 4) {
                proof {
                    assert(board_count(bs, colors@[i as int]) != 0 && board_count(
                        bs,
                        colors@[i as int],
                    ) != 4);
                }
                return false;
            }
            i = i + 1;
        }
        proof {
            assert forall|c: Color|
                #[trigger] board_count(bs, c) == 0 || board_count(bs, c) == 4 by {
                assert(colors@.contains(c));
                let j = choose|j: int| 0 <= j < colors@.len() && colors@[j] == c;
                assert(board_count(bs, colors@[j]) == 0 || board_count(bs, colors@[j]) == 4);
            }
        }
        true
    }
}

} // verus!
