//! The job store, where submitted matrix pairs wait under their job id,
//! and the result store, where finished sums are published.

use std::collections::HashMap;
use vstd::prelude::*;

use crate::matrix::{copy_matrix, is_square, view_of, Matrix};

verus! {

broadcast use vstd::std_specs::hash::group_hash_axioms;

/// The largest side of a matrix, and the largest job id: both travel as `u32`.
pub const MAX_WORD: u32 = 4294967295;

/// A submitted pair: two `n`×`n` matrices with `n` no more than the largest word.
pub open spec fn is_pair(a: Seq<Seq<u32>>, b: Seq<Seq<u32>>) -> bool {
    &&& a.len() <= MAX_WORD
    &&& is_square(a, a.len() as int)
    &&& is_square(b, a.len() as int)
}

/// A published result: an `n`×`n` matrix with `n` no more than the largest word.
pub open spec fn is_result(m: Seq<Seq<u32>>) -> bool {
    m.len() <= MAX_WORD && is_square(m, m.len() as int)
}

/// The id that the next submission to `jobs` receives: the number of jobs
/// submitted before it.
pub open spec fn next_id(jobs: Seq<(Seq<Seq<u32>>, Seq<Seq<u32>>)>) -> u32 {
    jobs.len() as u32
}

/// The ids that the submissions of `pairs`, one after another, receive from
/// a store that holds `jobs`.
pub open spec fn ids_of_run(
    jobs: Seq<(Seq<Seq<u32>>, Seq<Seq<u32>>)>,
    pairs: Seq<(Seq<Seq<u32>>, Seq<Seq<u32>>)>,
) -> Seq<u32>
    decreases pairs.len(),
{
    if pairs.len() == 0 {
        Seq::empty()
    } else {
        seq![next_id(jobs)] + ids_of_run(jobs.push(pairs[0]), pairs.drop_first())
    }
}

/// The store after the submissions of `pairs`, one after another, to a
/// store that holds `jobs`.
pub open spec fn store_after_run(
    jobs: Seq<(Seq<Seq<u32>>, Seq<Seq<u32>>)>,
    pairs: Seq<(Seq<Seq<u32>>, Seq<Seq<u32>>)>,
) -> Seq<(Seq<Seq<u32>>, Seq<Seq<u32>>)>
    decreases pairs.len(),
{
    if pairs.len() == 0 {
        jobs
    } else {
        store_after_run(jobs.push(pairs[0]), pairs.drop_first())
    }
}

/// However submissions from any number of clients interleave, the store
/// takes them one at a time; while every id fits in a word, the `k`-th of
/// them receives the id `L + k`, where `L` is the number of jobs before the
/// run. So the ids are strictly increasing, none is given twice, none is
/// skipped, and every pair is stored under the id it was answered with.
pub proof fn lemma_run_ids(
    jobs: Seq<(Seq<Seq<u32>>, Seq<Seq<u32>>)>,
    pairs: Seq<(Seq<Seq<u32>>, Seq<Seq<u32>>)>,
)
    requires
        jobs.len() + pairs.len() <= MAX_WORD as int + 1,
    ensures
        ids_of_run(jobs, pairs).len() == pairs.len(),
        forall|k: int|
            0 <= k < pairs.len() ==> #[trigger] ids_of_run(jobs, pairs)[k] as int == jobs.len()
                + k,
        forall|k1: int, k2: int|
            0 <= k1 < k2 < pairs.len() ==> #[trigger] ids_of_run(jobs, pairs)[k1]
                < #[trigger] ids_of_run(jobs, pairs)[k2],
        store_after_run(jobs, pairs) == jobs + pairs,
        forall|k: int|
            0 <= k < pairs.len() ==> #[trigger] store_after_run(jobs, pairs)[ids_of_run(
                jobs,
                pairs,
            )[k] as int] == pairs[k],
    decreases pairs.len(),
{
    if pairs.len() > 0 {
        let rest = pairs.drop_first();
        let pushed = jobs.push(pairs[0]);
        lemma_run_ids(pushed, rest);
        let ids = ids_of_run(jobs, pairs);
        assert forall|k: int| 0 <= k < pairs.len() implies #[trigger] ids[k] as int == jobs.len()
            + k by {
            if k > 0 {
                assert(ids[k] == ids_of_run(pushed, rest)[k - 1]);
            }
        }
        assert(pushed + rest =~= jobs + pairs);
    } else {
        assert(jobs + pairs =~= jobs);
    }
}

/// Submitted matrix pairs; the pair at index `i` is job `i`.
pub struct MatrixStore {
    pairs: Vec<(Matrix, Matrix)>,
}

impl View for MatrixStore {
    type V = Seq<(Seq<Seq<u32>>, Seq<Seq<u32>>)>;

    closed spec fn view(&self) -> Self::V {
        self.pairs@.map_values(|p: (Matrix, Matrix)| (view_of(&p.0), view_of(&p.1)))
    }
}

impl MatrixStore {
    /// Every job holds a pair, and every job id fits in a word.
    pub open spec fn wf(&self) -> bool {
        &&& self@.len() <= MAX_WORD as int + 1
        &&& forall|i: int| 0 <= i < self@.len() ==> is_pair(#[trigger] self@[i].0, self@[i].1)
    }

    /// An empty store.
    pub fn new() -> (r: MatrixStore)
        ensures
            r.wf(),
            r@ == Seq::<(Seq<Seq<u32>>, Seq<Seq<u32>>)>::empty(),
    {
        let r = MatrixStore { pairs: Vec::new() };
        assert(r@ =~= Seq::<(Seq<Seq<u32>>, Seq<Seq<u32>>)>::empty());
        r
    }

    /// The number of jobs submitted so far.
    pub fn len(&self) -> (r: usize)
        ensures
            r == self@.len(),
    {
        self.pairs.len()
    }

    /// Appends the pair as a new job and returns its id, the number of jobs
    /// before it; `None`, with the store unchanged, once every id is taken.
    pub fn submit(&mut self, a: Matrix, b: Matrix) -> (r: Option<u32>)
        requires
            old(self).wf(),
            is_pair(view_of(&a), view_of(&b)),
        ensures
            final(self).wf(),
            old(self)@.len() <= MAX_WORD ==> r == Some(next_id(old(self)@)) && final(self)@
                == old(self)@.push((view_of(&a), view_of(&b))),
            old(self)@.len() > MAX_WORD ==> r is None && final(self)@ == old(self)@,
    {
        let id = self.pairs.len();
        if id > MAX_WORD as usize {
            None
        } else {
            let ghost va = view_of(&a);
            let ghost vb = view_of(&b);
            self.pairs.push((a, b));
            assert(self@ =~= old(self)@.push((va, vb)));
            Some(id as u32)
        }
    }

    /// A copy of the pair of job `id`; `None` when no such job was submitted.
    pub fn get(&self, id: u32) -> (r: Option<(Matrix, Matrix)>)
        ensures
            r is None <==> id >= self@.len(),
            r matches Some(p) ==> view_of(&p.0) == self@[id as int].0 && view_of(&p.1)
                == self@[id as int].1,
    {
        if id as usize >= self.pairs.len() {
            None
        } else {
            let p = &self.pairs[id as usize];
            Some((copy_matrix(&p.0), copy_matrix(&p.1)))
        }
    }
}

/// Finished sums, keyed by job id.
pub struct ResultStore {
    results: HashMap<u32, Matrix>,
}

impl View for ResultStore {
    type V = Map<u32, Seq<Seq<u32>>>;

    closed spec fn view(&self) -> Self::V {
        self.results@.map_values(|m: Matrix| view_of(&m))
    }
}

impl ResultStore {
    /// Every stored result is a square matrix of at most word side.
    pub open spec fn wf(&self) -> bool {
        forall|id: u32| #[trigger] self@.contains_key(id) ==> is_result(self@[id])
    }

    /// An empty store.
    pub fn new() -> (r: ResultStore)
        ensures
            r.wf(),
            r@ == Map::<u32, Seq<Seq<u32>>>::empty(),
    {
        let r = ResultStore { results: HashMap::new() };
        assert(r@ =~= Map::<u32, Seq<Seq<u32>>>::empty());
        r
    }

    /// Publishes `m` as the result of job `id`, replacing any earlier one.
    pub fn put(&mut self, id: u32, m: Matrix)
        requires
            old(self).wf(),
            is_result(view_of(&m)),
        ensures
            final(self).wf(),
            final(self)@ == old(self)@.insert(id, view_of(&m)),
    {
        let ghost vm = view_of(&m);
        self.results.insert(id, m);
        assert(self@ =~= old(self)@.insert(id, vm));
    }

    /// A copy of the result of job `id`; `None` while it is not published.
    pub fn try_get(&self, id: u32) -> (r: Option<Matrix>)
        ensures
            r is None <==> !self@.contains_key(id),
            r matches Some(m) ==> view_of(&m) == self@[id],
    {
        match self.results.get(&id) {
            None => None,
            Some(m) => Some(copy_matrix(m)),
        }
    }
}

} // verus!
