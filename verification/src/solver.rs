use vstd::prelude::*;

use crate::board::available_moves;
use crate::board::board_count;
use crate::board::board_wf;
use crate::board::bottle_done;
use crate::board::lemma_count_const;
use crate::board::lemma_pour_conserves_counts;
use crate::board::pour_bottles;
use crate::board::spec_win;
use crate::board::WaterSorting;
use crate::bottle::content;
use crate::bottle::Bottle;
use crate::color::Color;
use crate::moves::copy_pours;
use crate::moves::Pour;

verus! {

/// The bottle list reached by replaying the pour commands `ms` in order.
pub open spec fn replay(s: Seq<Bottle>, ms: Seq<Pour>) -> Seq<Bottle>
    decreases ms.len(),
{
    if ms.len() == 0 {
        s
    } else {
        replay(pour_bottles(s, ms[0].from as int, ms[0].to as int), ms.drop_first())
    }
}

/// Replaying pours never changes any color's total over the board.
pub proof fn lemma_replay_preserves_counts(s: Seq<Bottle>, ms: Seq<Pour>, c: Color)
    ensures
        board_count(replay(s, ms), c) == board_count(s, c),
    decreases ms.len(),
{
    if ms.len() > 0 {
        lemma_pour_conserves_counts(s, ms[0].from as int, ms[0].to as int);
        lemma_replay_preserves_counts(
            pour_bottles(s, ms[0].from as int, ms[0].to as int),
            ms.drop_first(),
            c,
        );
    }
}

/// On a winning board every color's total is a multiple of four: each bottle
/// contributes either nothing or one full bottle of a single color.
pub proof fn lemma_win_counts(s: Seq<Bottle>, c: Color)
    requires
        spec_win(s),
    ensures
        board_count(s, c) % 4 == 0,
    decreases s.len(),
{
    if s.len() > 0 {
        assert(bottle_done(s[s.len() - 1]));
        assert(spec_win(s.drop_last()));
        lemma_win_counts(s.drop_last(), c);
        let cs = content(s.last());
        if cs.len() != 0 {
            lemma_count_const(cs, cs[0], c);
        }
    }
}

/// A board on which some color's total is not a multiple of four can never
/// reach the goal state, whatever pours are replayed on it: pours conserve
/// totals, and a winning board has every total a multiple of four.
pub proof fn lemma_unbalanced_never_wins(s: Seq<Bottle>, c: Color, ms: Seq<Pour>)
    requires
        board_count(s, c) % 4 != 0,
    ensures
        !spec_win(replay(s, ms)),
{
    lemma_replay_preserves_counts(s, ms, c);
    if spec_win(replay(s, ms)) {
        lemma_win_counts(replay(s, ms), c);
    }
}

/// The bottle lists of a list of boards, in order: the shape under which the
/// search specification sees the boards visited on the current path.
pub open spec fn board_views(ws: Seq<WaterSorting>) -> Seq<Seq<Bottle>> {
    ws.map_values(|w: WaterSorting| w@.bottles)
}

/// The bounded depth-first search itself, as a mathematical function: from
/// the bottle list `s`, with `visited` the configurations already seen on
/// this path and `depth` pours of budget left, the sequence of further pours
/// the search finds, or `None`. A winning board needs nothing more; with no
/// budget left the search gives up; otherwise the available moves are tried
/// in enumeration order by [`search_from`].
pub open spec fn search(s: Seq<Bottle>, visited: Seq<Seq<Bottle>>, depth: int) -> Option<Seq<Pour>>
    decreases depth, available_moves(s).len() + 1,
{
    if spec_win(s) {
        Some(Seq::empty())
    } else if depth <= 0 {
        None
    } else {
        search_from(s, available_moves(s), 0, visited, depth)
    }
}

/// One level of the search: try the candidate moves `cands[i..]` in order.
/// A candidate whose poured state was already visited on this path is
/// skipped, and its later siblings are still tried; a novel state is
/// searched recursively with one less pour of budget, and the first
/// solution found wins.
pub open spec fn search_from(
    s: Seq<Bottle>,
    cands: Seq<Pour>,
    i: int,
    visited: Seq<Seq<Bottle>>,
    depth: int,
) -> Option<Seq<Pour>>
    decreases depth, cands.len() - i,
{
    if !(0 <= i < cands.len()) || depth <= 0 {
        None
    } else {
        let m = cands[i];
        let poured = pour_bottles(s, m.from as int, m.to as int);
        if visited.contains(poured) {
            search_from(s, cands, i + 1, visited, depth)
        } else {
            match search(poured, visited.push(poured), depth - 1) {
                Some(rest) => Some(seq![m] + rest),
                None => search_from(s, cands, i + 1, visited, depth),
            }
        }
    }
}

/// Every pour in a sequence the search finds names two bottles of the board.
pub proof fn lemma_search_in_range(
    s: Seq<Bottle>,
    visited: Seq<Seq<Bottle>>,
    depth: int,
    p: Pour,
)
    requires
        search(s, visited, depth) matches Some(ms) && ms.contains(p),
    ensures
        (p.from as int) < s.len(),
        (p.to as int) < s.len(),
    decreases depth, available_moves(s).len() + 1,
{
    if spec_win(s) {
        assert(false);
    } else {
        lemma_search_from_in_range(s, available_moves(s), 0, visited, depth, p);
    }
}

/// As [`lemma_search_in_range`], for one level of candidate moves.
pub proof fn lemma_search_from_in_range(
    s: Seq<Bottle>,
    cands: Seq<Pour>,
    i: int,
    visited: Seq<Seq<Bottle>>,
    depth: int,
    p: Pour,
)
    requires
        cands == available_moves(s),
        search_from(s, cands, i, visited, depth) matches Some(ms) && ms.contains(p),
    ensures
        (p.from as int) < s.len(),
        (p.to as int) < s.len(),
    decreases depth, cands.len() - i,
{
    if !(0 <= i < cands.len()) || depth <= 0 {
        assert(false);
    } else {
        let m = cands[i];
        let poured = pour_bottles(s, m.from as int, m.to as int);
        if visited.contains(poured) {
            lemma_search_from_in_range(s, cands, i + 1, visited, depth, p);
        } else {
            match search(poured, visited.push(poured), depth - 1) {
                Some(rest) => {
                    let found = seq![m] + rest;
                    let j = choose|j: int| 0 <= j < found.len() && found[j] == p;
                    if j == 0 {
                        assert(p == m);
                        assert(cands.contains(m));
                        crate::board::lemma_available_moves_in_range(s, p);
                    } else {
                        assert(rest[j - 1] == p);
                        assert(rest.contains(p));
                        lemma_search_in_range(poured, visited.push(poured), depth - 1, p);
                        assert(poured.len() == s.len());
                    }
                },
                None => {
                    lemma_search_from_in_range(s, cands, i + 1, visited, depth, p);
                },
            }
        }
    }
}

/// The board configurations along a replayed pour sequence: the starting
/// bottle list, then the list after each successive pour.
pub open spec fn path_states(s: Seq<Bottle>, ms: Seq<Pour>) -> Seq<Seq<Bottle>>
    decreases ms.len(),
{
    if ms.len() == 0 {
        seq![s]
    } else {
        seq![s] + path_states(
            pour_bottles(s, ms[0].from as int, ms[0].to as int),
            ms.drop_first(),
        )
    }
}

/// Each entry of the path is the replay of the corresponding prefix.
pub proof fn lemma_path_states_replay(s: Seq<Bottle>, ms: Seq<Pour>, j: int)
    requires
        0 <= j < path_states(s, ms).len(),
    ensures
        path_states(s, ms).len() == ms.len() + 1,
        path_states(s, ms)[j] == replay(s, ms.take(j)),
    decreases ms.len(),
{
    if ms.len() == 0 {
        assert(ms.take(0) =~= Seq::<Pour>::empty());
    } else {
        let stepped = pour_bottles(s, ms[0].from as int, ms[0].to as int);
        lemma_path_states_replay(stepped, ms.drop_first(), if j == 0 { 0 } else { j - 1 });
        if j == 0 {
            assert(ms.take(0) =~= Seq::<Pour>::empty());
        } else {
            assert(ms.drop_first().take(j - 1) =~= ms.take(j).drop_first());
            assert(ms.take(j)[0] == ms[0]);
        }
    }
}

/// A path the search accepts stays clear of the already-visited
/// configurations and never repeats one of its own.
pub proof fn lemma_search_path_novel(
    s: Seq<Bottle>,
    visited: Seq<Seq<Bottle>>,
    depth: int,
    ms: Seq<Pour>,
)
    requires
        visited.contains(s),
        search(s, visited, depth) == Some(ms),
    ensures
        forall|j: int|
            1 <= j < path_states(s, ms).len() ==> !visited.contains(
                #[trigger] path_states(s, ms)[j],
            ),
        forall|i: int, j: int|
            0 <= i < j < path_states(s, ms).len() ==> #[trigger] path_states(s, ms)[i]
                != #[trigger] path_states(s, ms)[j],
    decreases depth, available_moves(s).len() + 1,
{
    if spec_win(s) {
        assert(path_states(s, ms) =~= seq![s]);
    } else {
        lemma_search_from_path_novel(s, available_moves(s), 0, visited, depth, ms);
    }
}

/// As [`lemma_search_path_novel`], for one level of candidate moves.
pub proof fn lemma_search_from_path_novel(
    s: Seq<Bottle>,
    cands: Seq<Pour>,
    i: int,
    visited: Seq<Seq<Bottle>>,
    depth: int,
    ms: Seq<Pour>,
)
    requires
        cands == available_moves(s),
        visited.contains(s),
        search_from(s, cands, i, visited, depth) == Some(ms),
    ensures
        forall|j: int|
            1 <= j < path_states(s, ms).len() ==> !visited.contains(
                #[trigger] path_states(s, ms)[j],
            ),
        forall|i2: int, j: int|
            0 <= i2 < j < path_states(s, ms).len() ==> #[trigger] path_states(s, ms)[i2]
                != #[trigger] path_states(s, ms)[j],
    decreases depth, cands.len() - i,
{
    let m = cands[i];
    let poured = pour_bottles(s, m.from as int, m.to as int);
    if visited.contains(poured) {
        lemma_search_from_path_novel(s, cands, i + 1, visited, depth, ms);
    } else {
        match search(poured, visited.push(poured), depth - 1) {
            Some(rest) => {
                assert(ms == seq![m] + rest);
                assert(ms[0] == m);
                assert(ms.drop_first() =~= rest);
                let sub = path_states(poured, rest);
                let path = path_states(s, ms);
                assert(path =~= seq![s] + sub);
                assert(visited.push(poured).contains(poured)) by {
                    assert(visited.push(poured)[visited.len() as int] == poured);
                }
                lemma_search_path_novel(poured, visited.push(poured), depth - 1, rest);
                // anything in the old visited list is still in the extended one
                assert forall|x: Seq<Bottle>| visited.contains(x) implies visited.push(
                    poured,
                ).contains(x) by {
                    let k = choose|k: int| 0 <= k < visited.len() && visited[k] == x;
                    assert(visited.push(poured)[k] == x);
                }
                assert(sub[0] == poured);
                assert forall|j: int|
                    1 <= j < path.len() implies !visited.contains(#[trigger] path[j]) by {
                    if j == 1 {
                        assert(path[j] == poured);
                    } else {
                        assert(path[j] == sub[j - 1]);
                        assert(!visited.push(poured).contains(sub[j - 1]));
                    }
                }
                assert forall|i2: int, j: int|
                    0 <= i2 < j < path.len() implies #[trigger] path[i2] != #[trigger] path[j] by {
                    if i2 == 0 {
                        assert(path[i2] == s);
                        if j == 1 {
                            assert(path[j] == poured);
                            assert(poured != s);
                        } else {
                            assert(path[j] == sub[j - 1]);
                            assert(!visited.push(poured).contains(sub[j - 1]));
                            assert(visited.push(poured).contains(s));
                        }
                    } else {
                        assert(path[i2] == sub[i2 - 1]);
                        assert(path[j] == sub[j - 1]);
                    }
                }
            },
            None => {
                lemma_search_from_path_novel(s, cands, i + 1, visited, depth, ms);
            },
        }
    }
}

/// The sequence `solve` returns never revisits a board configuration:
/// replaying it pour by pour from the starting board passes through pairwise
/// distinct bottle lists, the starting one included.
pub proof fn lemma_solve_path_distinct(s: Seq<Bottle>, n: int)
    ensures
        forall|i: int, j: int|
            0 <= i < j < path_states(s, spec_solve(s, n)).len() ==> #[trigger] path_states(
                s,
                spec_solve(s, n),
            )[i] != #[trigger] path_states(s, spec_solve(s, n))[j],
{
    match search(s, seq![s], n) {
        Some(ms) => {
            assert(seq![s].contains(s)) by {
                assert(seq![s][0] == s);
            }
            lemma_search_path_novel(s, seq![s], n, ms);
        },
        None => {
            assert(path_states(s, spec_solve(s, n)) =~= seq![s]);
        },
    }
}

/// What `solve(n)` returns on a board `s`: the pours found by the bounded
/// depth-first search started with `s` itself as the only visited
/// configuration, or the empty sequence when the search finds nothing.
pub open spec fn spec_solve(s: Seq<Bottle>, n: int) -> Seq<Pour> {
    match search(s, seq![s], n) {
        Some(ms) => ms,
        None => Seq::empty(),
    }
}

/// The flat serialization of a solution: the number of pours first, then the
/// source and destination index of each pour in order.
pub open spec fn flat_moves(ms: Seq<Pour>) -> Seq<usize>
    decreases ms.len(),
{
    if ms.len() == 0 {
        Seq::empty()
    } else {
        flat_moves(ms.drop_last()) + seq![ms.last().from, ms.last().to]
    }
}

/// Element-by-element copy of a board list.
fn copy_boards(v: &Vec<WaterSorting>) -> (r: Vec<WaterSorting>)
    ensures
        r@.len() == v@.len(),
        forall|i: int| 0 <= i < v@.len() ==> #[trigger] r@[i]@ == v@[i]@,
{
    let mut r: Vec<WaterSorting> = Vec::new();
    let mut i: usize = 0;
    while i < v.len()
        invariant
            i <= v.len(),
            r@.len() == i,
            forall|j: int| 0 <= j < i ==> #[trigger] r@[j]@ == v@[j]@,
        decreases v.len() - i,
    {
        let b = v[i].duplicate();
        r.push(b);
        i = i + 1;
    }
    r
}

/// Whether some board in `v` has the same bottles as `w`.
fn contains_board(v: &Vec<WaterSorting>, w: &WaterSorting) -> (r: bool)
    ensures
        r == exists|i: int| 0 <= i < v@.len() && #[trigger] v@[i]@.bottles == w@.bottles,
{
    let mut i: usize = 0;
    while i < v.len()
        invariant
            i <= v.len(),
            forall|j: int| 0 <= j < i ==> #[trigger] v@[j]@.bottles != w@.bottles,
        decreases v.len() - i,
    {
        if v[i] == *w {
            return true;
        }
        i = i + 1;
    }
    false
}

/// Bounded depth-first search for a pour sequence that takes a board to the
/// goal state.
pub struct WaterSolver {
    level: WaterSorting,
}

impl View for WaterSolver {
    type V = Seq<Bottle>;

    closed spec fn view(&self) -> Seq<Bottle> {
        self.level@.bottles
    }
}

impl WaterSolver {
    /// The solver's board, snapshot included, is well formed.
    pub closed spec fn wf(&self) -> bool {
        board_wf(self.level@)
    }

    pub fn new(w: &WaterSorting) -> (r: WaterSolver)
        requires
            board_wf(w@),
        ensures
            r.wf(),
            r@ == w@.bottles,
    {
        WaterSolver { level: w.duplicate() }
    }

    /// Depth-first search from `existing_state`, with `moves` the pours that
    /// led to it, `old_states` the boards already seen on this path, and
    /// `level` the remaining depth budget. The result is exactly what the
    /// [`search`] specification finds from here: `moves` extended with the
    /// first solution in enumeration order, within the budget, whose new
    /// pours win from this state — or `None` when the search tree holds no
    /// winning path.
    fn solve_internal(
        &self,
        existing_state: WaterSorting,
        moves: Vec<Pour>,
        old_states: Vec<WaterSorting>,
        level: usize,
    ) -> (r: Option<Vec<Pour>>)
        requires
            board_wf(existing_state@),
        ensures
            r matches Some(ms) ==> {
                &&& ms@.len() >= moves@.len()
                &&& ms@.take(moves@.len() as int) == moves@
                &&& ms@.len() - moves@.len() <= level
                &&& spec_win(replay(existing_state@.bottles, ms@.skip(moves@.len() as int)))
            },
            match search(existing_state@.bottles, board_views(old_states@), level as int) {
                Some(rest) => (r matches Some(ms) && ms@ == moves@ + rest),
                None => r is None,
            },
        decreases level,
    {
        if existing_state.win() {
            proof {
                assert(moves@.take(moves@.len() as int) =~= moves@);
                assert(moves@.skip(moves@.len() as int) =~= Seq::<Pour>::empty());
                assert(moves@ + Seq::<Pour>::empty() =~= moves@);
            }
            return Some(moves);
        }
        if level == 0 {
            return None;
        }
        let next_moves = existing_state.next_available_moves();
        let ghost sb = existing_state@.bottles;
        let ghost cands = next_moves@;
        let ghost vset = board_views(old_states@);
        let mut idx: usize = 0;
        while idx < next_moves.len()
            invariant
                board_wf(existing_state@),
                sb == existing_state@.bottles,
                !spec_win(sb),
                cands == next_moves@,
                cands == available_moves(sb),
                vset == board_views(old_states@),
                level >= 1,
                idx <= cands.len(),
                search_from(sb, cands, 0, vset, level as int) == search_from(
                    sb,
                    cands,
                    idx as int,
                    vset,
                    level as int,
                ),
            decreases next_moves.len() - idx,
        {
            let next_move = next_moves[idx];
            let ghost poured = pour_bottles(sb, next_move.from as int, next_move.to as int);
            let mut possible_solution = copy_pours(&moves);
            possible_solution.push(next_move);
            let mut new_state = existing_state.duplicate();
            let _ = new_state.pour(next_move.from, next_move.to);
            proof {
                assert(new_state@.bottles == poured);
            }
            let mut existing_states = copy_boards(&old_states);
            proof {
                assert(board_views(existing_states@) =~= vset);
            }
            if contains_board(&existing_states, &new_state) {
                // a configuration already seen on this path cannot lead
                // anywhere new: skip this candidate, try its later siblings
                proof {
                    let j = choose|j: int|
                        0 <= j < existing_states@.len() && existing_states@[j]@.bottles
                            == new_state@.bottles;
                    assert(board_views(existing_states@)[j] == poured);
                    assert(vset.contains(poured));
                }
                idx = idx + 1;
                continue ;
            }
            proof {
                if vset.contains(poured) {
                    let j = choose|j: int| 0 <= j < vset.len() && vset[j] == poured;
                    assert(existing_states@[j]@.bottles == poured);
                    assert(false);
                }
            }
            existing_states.push(new_state.duplicate());
            proof {
                assert(board_views(existing_states@) =~= vset.push(poured));
            }
            let ghost ps = possible_solution@;
            let ghost mid_bottles = new_state@.bottles;
            let result = self.solve_internal(new_state, possible_solution, existing_states, level - 1);
            proof {
                let sub = search(poured, vset.push(poured), level - 1);
                if result is Some {
                    assert(sub is Some);
                    let rest = sub->0;
                    assert((result->0)@ == ps + rest);
                    assert(moves@ + (seq![next_move] + rest) =~= ps + rest);
                    assert(search_from(sb, cands, idx as int, vset, level as int) == Some(
                        seq![next_move] + rest,
                    ));
                } else {
                    assert(sub is None);
                }
            }
            match result {
                None => {},
                Some(ms) => {
                    proof {
                        let l = moves@.len() as int;
                        assert(ms@.take(l + 1) == ps);
                        assert(ms@.take(l + 1).take(l) =~= ms@.take(l));
                        assert(ps.take(l) =~= moves@);
                        assert(ms@.take(l + 1)[l] == ms@[l]);
                        assert(ps[l] == next_move);
                        assert(ms@.skip(l)[0] == ms@[l]);
                        assert(ms@.skip(l).drop_first() =~= ms@.skip(l + 1));
                        assert(replay(sb, ms@.skip(l)) == replay(mid_bottles, ms@.skip(l + 1)));
                    }
                    return Some(ms);
                },
            }
            idx = idx + 1;
        }
        None
    }

    /// Search for a sequence of at most `n` pours that takes the solver's
    /// board to the goal state. A non-empty result, replayed in order on the
    /// starting board, wins; an empty result means no solution was found —
    /// and none exists at any depth when some color's total is not a
    /// multiple of four.
    pub fn solve(&self, n: usize) -> (r: Vec<Pour>)
        requires
            self.wf(),
        ensures
            r@ == spec_solve(self@, n as int),
            r@.len() <= n,
            r@.len() > 0 ==> spec_win(replay(self@, r@)),
            forall|i: int|
                0 <= i < r@.len() ==> ((#[trigger] r@[i]).from as int) < self@.len() && (
                r@[i].to as int) < self@.len(),
            spec_win(self@) ==> r@.len() == 0,
            (exists|c: Color| #[trigger] board_count(self@, c) % 4 != 0) ==> r@.len() == 0,
    {
        let moves: Vec<Pour> = Vec::new();
        let new_w = self.level.duplicate();
        let mut old_states: Vec<WaterSorting> = Vec::new();
        old_states.push(new_w.duplicate());
        proof {
            assert(board_views(old_states@) =~= seq![self@]);
        }
        let result = self.solve_internal(new_w, moves, old_states, n);
        match result {
            None => {
                let empty_solution: Vec<Pour> = Vec::new();
                proof {
                    assert(search(self@, seq![self@], n as int) is None);
                    assert(empty_solution@ =~= spec_solve(self@, n as int));
                }
                empty_solution
            },
            Some(ms) => {
                proof {
                    let srch = search(self@, seq![self@], n as int);
                    assert(srch is Some);
                    assert(ms@ == Seq::<Pour>::empty() + srch->0);
                    assert(Seq::<Pour>::empty() + srch->0 =~= srch->0);
                    assert(ms@ == spec_solve(self@, n as int));
                    assert(ms@.skip(0) =~= ms@);
                    assert(spec_win(replay(self@, ms@)));
                    assert forall|i: int|
                        0 <= i < ms@.len() implies ((#[trigger] ms@[i]).from as int) < self@.len()
                        && (ms@[i].to as int) < self@.len() by {
                        assert(ms@.contains(ms@[i]));
                        lemma_search_in_range(self@, seq![self@], n as int, ms@[i]);
                    }
                    assert forall|c: Color| #[trigger] board_count(self@, c) % 4 == 0 by {
                        lemma_replay_preserves_counts(self@, ms@, c);
                        lemma_win_counts(replay(self@, ms@), c);
                    }
                }
                ms
            },
        }
    }

    /// The sequence that `solve(n)` itself returns, flattened for a caller
    /// that wants plain integers: the number of pours first, then each
    /// pour's two indices in order.
    pub fn solution(&self, n: usize) -> (r: Vec<usize>)
        requires
            self.wf(),
        ensures
            r@.len() == 1 + 2 * spec_solve(self@, n as int).len(),
            r@[0] == spec_solve(self@, n as int).len(),
            r@.skip(1) == flat_moves(spec_solve(self@, n as int)),
    {
        let solution = self.solve(n);
        let mut r: Vec<usize> = Vec::new();
        r.push(solution.len());
        let mut i: usize = 0;
        proof {
            assert(solution@.take(0) =~= Seq::<Pour>::empty());
            assert(r@.skip(1) =~= Seq::<usize>::empty());
        }
        while i < solution.len()
            invariant
                i <= solution@.len(),
                r@.len() == 1 + 2 * i,
                r@[0] == solution@.len(),
                r@.skip(1) == flat_moves(solution@.take(i as int)),
            decreases solution@.len() - i,
        {
            let p = solution[i];
            r.push(p.from);
            r.push(p.to);
            proof {
                assert(solution@.take(i + 1).drop_last() =~= solution@.take(i as int));
                assert(solution@.take(i + 1).last() == solution@[i as int]);
                assert(r@.skip(1) =~= flat_moves(solution@.take(i as int)) + seq![p.from, p.to]);
            }
            i = i + 1;
        }
        proof {
            assert(solution@.take(solution@.len() as int) =~= solution@);
            assert(flat_moves(solution@) == r@.skip(1));
        }
        r
    }
}

} // verus!
