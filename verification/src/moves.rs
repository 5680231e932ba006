use vstd::prelude::*;

verus! {

/// A candidate transfer: pour the top run of bottle `from` into bottle `to`.
/// Indices are zero-based board positions; equality is structural.
#[derive(Copy, Clone, Debug, PartialEq, Eq, Structural)]
pub struct Pour {
    pub from: usize,
    pub to: usize,
}

impl Pour {
    pub fn new(from: usize, to: usize) -> (r: Self)
        ensures
            r == (Pour { from, to }),
    {
        Pour { from, to }
    }
}

/// First element of `candidates` that is not in the exclusion list `ex`.
pub open spec fn first_not_in(candidates: Seq<Pour>, ex: Seq<Pour>) -> Option<Pour>
    decreases candidates.len(),
{
    if candidates.len() == 0 {
        None
    } else if !ex.contains(candidates[0]) {
        Some(candidates[0])
    } else {
        first_not_in(candidates.drop_first(), ex)
    }
}

/// Find the first element of `candidates` not contained in `ex`.
pub fn find_first_not_in(candidates: &Vec<Pour>, ex: &Vec<Pour>) -> (r: Option<Pour>)
    ensures
        r == first_not_in(candidates@, ex@),
{
    let mut i: usize = 0;
    proof {
        assert(candidates@.skip(0) =~= candidates@);
    }
    while i < candidates.len()
        invariant
            i <= candidates.len(),
            first_not_in(candidates@, ex@) == first_not_in(candidates@.skip(i as int), ex@),
        decreases candidates.len() - i,
    {
        let p = candidates[i];
        if !contains_pour(ex, p) {
            assert(candidates@.skip(i as int)[0] == p);
            return Some(p);
        }
        proof {
            assert(candidates@.skip(i as int).drop_first() =~= candidates@.skip(i + 1));
        }
        i = i + 1;
    }
    None
}

/// Element-by-element copy of a move list.
pub fn copy_pours(v: &Vec<Pour>) -> (r: Vec<Pour>)
    ensures
        r@ == v@,
{
    let mut r: Vec<Pour> = Vec::new();
    let mut i: usize = 0;
    while i < v.len()
        invariant
            i <= v.len(),
            r@ == v@.take(i as int),
        decreases v.len() - i,
    {
        r.push(v[i]);
        proof {
            assert(r@ =~= v@.take(i + 1));
        }
        i = i + 1;
    }
    proof {
        assert(v@.take(v@.len() as int) =~= v@);
    }
    r
}

/// Membership test on a move list.
pub fn contains_pour(moves: &Vec<Pour>, p: Pour) -> (r: bool)
    ensures
        r == moves@.contains(p),
{
    let mut i: usize = 0;
    while i < moves.len()
        invariant
            i <= moves.len(),
            forall|j: int| 0 <= j < i ==> moves@[j] != p,
        decreases moves.len() - i,
    {
        if moves[i] == p {
            return true;
        }
        i = i + 1;
    }
    false
}

} // verus!
