//! The parallel solver: walks to a complete candidate using what is already
//! known, then has every untested cell of it tested in one batch.
//!
//! The solver does not wait for the batch itself. `try_generate_test_query`
//! hands out the cells to test; whoever runs the tests hands the answers back,
//! in the same order, to `apply_test_result`.
use vstd::prelude::*;

use crate::search::{
    Knowledge, after, agree_upto, is_candidate, all_present, cleared_below, emits, exhausted, extends, lex_lt,
    prefix_lt, prefix_clear, lemma_lex_asymmetric, lemma_lex_irreflexive, lemma_lex_transitive,
    lemma_prefix_lt_grow, lemma_same_prefix, lemma_shrink, lemma_through_last,
    lemma_through_missing,
};
use crate::solution::Solution;

verus! {

/// The positions `r` whose cell `(r, c[r])` is untested in `k`, in
/// increasing order, are exactly `cells`.
pub open spec fn untested_cells(k: Knowledge, c: Seq<usize>, cells: Seq<usize>) -> bool {
    &&& forall|i: int, j: int| 0 <= i < j < cells.len() ==> #[trigger] cells[i] < #[trigger] cells[j]
    &&& forall|i: int| 0 <= i < cells.len() ==> #[trigger] cells[i] < c.len()
    &&& forall|i: int| #![trigger cells[i]] 0 <= i < cells.len() ==> k[cells[i] as int][c[cells[i] as int] as int] is None
    &&& forall|r: int| #![trigger c[r]] 0 <= r < c.len() && k[r][c[r] as int] is None ==> cells.contains(r as usize)
}

/// Walks the assignments of sources to resources in lexicographic order and
/// hands out each one whose every cell is present, testing the untested
/// cells of each complete candidate together.
pub struct ParallelProblemSolver {
    pub solution: Solution,
    /// The resources whose cells are being tested, when a batch is out.
    pub testing_cells: Vec<usize>,
    /// A batch is out and its answers are awaited.
    pub pending: bool,
}

impl ParallelProblemSolver {
    /// The state between two calls.
    pub open spec fn wf(&self) -> bool {
        &&& self.solution.wf()
        &&& self.pending ==> {
            &&& !self.solution.done
            &&& !self.solution.dirty
            &&& self.solution.idx == self.solution.width - 1
            &&& untested_cells(
                self.solution.knowledge(),
                self.solution.candidate@,
                self.testing_cells@,
            )
            &&& forall|r: int|
                #![trigger self.solution.candidate@[r]]
                0 <= r < self.solution.width ==> self.solution.knowledge()[r][self.solution.candidate@[r] as int]
                    != Some(false)
        }
    }

    /// A solver for `width` resources and `depth` sources.
    pub fn new(width: usize, depth: usize) -> (s: ParallelProblemSolver)
        ensures
            s.wf(),
            !s.pending,
            s.solution.width == width,
            s.solution.depth == depth,
            s.solution.last@ is None,
            s.solution.knowledge() == Seq::new(
                width as nat,
                |r: int| Seq::new(depth as nat, |c: int| None::<bool>),
            ),
    {
        ParallelProblemSolver { solution: Solution::new(width, depth), testing_cells: Vec::new(), pending: false }
    }

    /// Moves to the next complete candidate that no known answer rules out,
    /// and returns its untested cells as `(resource, source)` pairs in
    /// resource order; the list is empty when every cell is already known to
    /// be present. Returns `None` once the search is over.
    pub fn try_generate_test_query(&mut self) -> (q: Option<Vec<(usize, usize)>>)
        requires
            old(self).wf(),
            !old(self).pending,
        ensures
            final(self).wf(),
            final(self).solution.width == old(self).solution.width,
            final(self).solution.depth == old(self).solution.depth,
            final(self).solution.knowledge() == old(self).solution.knowledge(),
            final(self).solution.last@ == old(self).solution.last@,
            (old(self).solution.width == 0 || old(self).solution.depth == 0) ==> q is None,
            match q {
                Some(q) => {
                    &&& final(self).pending
                    &&& q@.len() == final(self).testing_cells@.len()
                    &&& forall|i: int|
                        #![trigger q@[i]]
                        0 <= i < q@.len() ==> q@[i] == (
                            final(self).testing_cells@[i],
                            final(self).solution.candidate@[final(self).testing_cells@[i] as int],
                        )
                    &&& after(old(self).solution.last@, final(self).solution.candidate@)
                    &&& cleared_below(
                        final(self).solution.knowledge(),
                        old(self).solution.last@,
                        final(self).solution.candidate@,
                        final(self).solution.width as int,
                        final(self).solution.width as int,
                        final(self).solution.depth as int,
                    )
                },
                None => {
                    &&& !final(self).pending
                    &&& final(self).solution.done
                    &&& (old(self).solution.width == 0 || exhausted(
                        final(self).solution.knowledge(),
                        old(self).solution.last@,
                        old(self).solution.width as int,
                        old(self).solution.depth as int,
                    ))
                },
            },
    {
        let ghost k = self.solution.knowledge();
        let ghost last0 = self.solution.last@;
        let ghost w = self.solution.width as int;
        let ghost d = self.solution.depth as int;
        if self.solution.done {
            return None;
        }
        if self.solution.dirty {
            proof {
                lemma_through_last(k, self.solution.candidate@, w, d);
                lemma_lex_irreflexive(self.solution.candidate@);
            }
            let ghost emitted = self.solution.candidate@;
            if !self.solution.bail() {
                self.solution.done = true;
                return None;
            }
            self.solution.dirty = false;
            proof {
                assert forall|j: int| 0 <= j < self.solution.idx implies k[j][#[trigger] self.solution.candidate@[j] as int] != Some(false) by {
                    assert(emitted[j] == self.solution.candidate@[j]);
                    assert(k[j][emitted[j] as int] == Some(true));
                }
            }
        }
        proof {
            self.solution.lemma_progress_bound();
        }
        loop
            invariant
                self.solution.searching(),
                !self.solution.done,
                !self.solution.dirty,
                !self.pending,
                self.solution.width == w,
                self.solution.depth == d,
                self.solution.last@ == last0,
                self.solution.knowledge() == k,
                k == old(self).solution.knowledge(),
                last0 == old(self).solution.last@,
                w == old(self).solution.width,
                d == old(self).solution.depth,
                after(last0, self.solution.candidate@),
                prefix_clear(k, self.solution.candidate@, self.solution.idx as int),
            decreases self.solution.progress_left(),
        {
            let ghost start = self.solution;
            if !self.solution.try_generate_complete_candidate() {
                self.solution.done = true;
                return None;
            }
            let ghost complete = self.solution;
            proof {
                if complete.candidate@ != start.candidate@ {
                    start.lemma_progress(&complete);
                    if let Some(l) = last0 {
                        lemma_lex_transitive(l, start.candidate@, complete.candidate@);
                    }
                }
            }
            let mut cells: Vec<usize> = Vec::new();
            let mut query: Vec<(usize, usize)> = Vec::new();
            let mut missing: Option<usize> = None;
            let mut r: usize = 0;
            while r < self.solution.width
                invariant_except_break
                    missing is None,
                    forall|x: int| #![trigger complete.candidate@[x]] 0 <= x < r ==> k[x][complete.candidate@[x] as int] != Some(false),
                invariant
                    self.solution == complete,
                    !self.pending,
                    !complete.done,
                    !complete.dirty,
                    complete.idx == complete.width - 1,
                    complete.last@ == last0,
                    w == complete.width,
                    d == complete.depth,
                    after(last0, complete.candidate@),
                    complete.searching(),
                    complete.knowledge() == k,
                    prefix_clear(k, complete.candidate@, complete.width as int),
                    r <= complete.width,
                    cells@.len() == query@.len(),
                    forall|i: int|
                        #![trigger query@[i]]
                        0 <= i < query@.len() ==> query@[i] == (
                            cells@[i],
                            complete.candidate@[cells@[i] as int],
                        ),
                    forall|i: int, j: int| 0 <= i < j < cells@.len() ==> #[trigger] cells@[i] < #[trigger] cells@[j],
                    forall|i: int| 0 <= i < cells@.len() ==> #[trigger] cells@[i] < r,
                    forall|i: int| #![trigger cells@[i]] 0 <= i < cells@.len() ==> k[cells@[i] as int][complete.candidate@[cells@[i] as int] as int] is None,
                    forall|x: int| #![trigger complete.candidate@[x]] 0 <= x < r && k[x][complete.candidate@[x] as int] is None ==> cells@.contains(x as usize),
                ensures
                    missing is None ==> r == complete.width && forall|x: int| #![trigger complete.candidate@[x]] 0 <= x < complete.width ==> k[x][complete.candidate@[x] as int] != Some(false),
                    missing matches Some(m) ==> m < complete.width && k[m as int][complete.candidate@[m as int] as int] == Some(false),
                decreases complete.width - r,
            {
                let s = self.solution.candidate[r];
                match self.solution.get_cell(r, s) {
                    None => {
                        let ghost before = cells@;
                        cells.push(r);
                        query.push((r, s));
                        assert forall|x: int| #![trigger complete.candidate@[x]] 0 <= x < r + 1 && k[x][complete.candidate@[x] as int] is None implies cells@.contains(x as usize) by {
                            if x < r {
                                let i = choose|i: int| 0 <= i < before.len() && before[i] == x as usize;
                                assert(cells@[i] == x as usize);
                            } else {
                                assert(cells@[before.len() as int] == x as usize);
                            }
                        }
                    },
                    Some(false) => {
                        missing = Some(r);
                        break;
                    },
                    Some(true) => {},
                }
                r = r + 1;
            }
            match missing {
                None => {
                    self.testing_cells = cells;
                    self.pending = true;
                    return Some(query);
                },
                Some(r) => {
                    let ghost c0 = self.solution.candidate@;
                    self.solution.idx = r;
                    proof {
                        lemma_shrink(k, last0, c0, r + 1, w, w, d);
                    }
                    if !self.solution.prune() {
                        self.solution.done = true;
                        return None;
                    }
                    let ghost pruned = self.solution;
                    proof {
                        lemma_same_prefix(k, last0, c0, pruned.candidate@, r + 1, w, d);
                        lemma_through_missing(k, last0, pruned.candidate@, r + 1, w, d);
                    }
                    if !self.solution.bail() {
                        self.solution.done = true;
                        return None;
                    }
                    proof {
                        let cn = self.solution.candidate@;
                        let m = choose|m: int|
                            #![trigger pruned.candidate@[m], cn[m]]
                            0 <= m < r + 1 && pruned.candidate@[m] < cn[m] && agree_upto(pruned.candidate@, cn, m);
                        assert(agree_upto(c0, cn, m)) by {
                            assert forall|x: int| 0 <= x < m implies #[trigger] c0[x] == cn[x] by {
                                assert(pruned.candidate@[x] == cn[x]);
                            }
                        }
                        assert(c0[m] == pruned.candidate@[m]);
                        assert(prefix_lt(c0, cn, r + 1));
                        lemma_prefix_lt_grow(c0, cn, r + 1, w);
                        assert(lex_lt(c0, cn));
                        complete.lemma_progress(&self.solution);
                        if complete.candidate@ != start.candidate@ {
                            lemma_lex_transitive(start.candidate@, complete.candidate@, cn);
                        }
                        start.lemma_progress(&self.solution);
                        if let Some(l) = last0 {
                            lemma_lex_transitive(l, c0, cn);
                        }
                    }
                },
            }
        }
    }

    /// Takes the answers to the batch handed out last, in the same order,
    /// and records them. Returns the candidate when every cell of it is
    /// present. Otherwise moves past the first resource found missing and
    /// returns `None`; `try_generate_test_query` then goes on with the search.
    pub fn apply_test_result(&mut self, results: &Vec<bool>) -> (r: Option<Vec<usize>>)
        requires
            old(self).wf(),
            old(self).pending,
            results@.len() == old(self).testing_cells@.len(),
        ensures
            final(self).wf(),
            !final(self).pending,
            final(self).solution.width == old(self).solution.width,
            final(self).solution.depth == old(self).solution.depth,
            extends(old(self).solution.knowledge(), final(self).solution.knowledge()),
            forall|i: int|
                #![trigger old(self).testing_cells@[i]]
                0 <= i < results@.len() ==> final(self).solution.knowledge()[old(self).testing_cells@[i] as int][old(self).solution.candidate@[old(self).testing_cells@[i] as int] as int] == Some(results@[i]),
            forall|r: int, s: int|
                #![trigger final(self).solution.knowledge()[r][s]]
                0 <= r < old(self).solution.width && 0 <= s < old(self).solution.depth
                    && final(self).solution.knowledge()[r][s] != old(self).solution.knowledge()[r][s] ==> s == old(self).solution.candidate@[r]
                    && old(self).testing_cells@.contains(r as usize),
            match r {
                Some(c) => {
                    &&& c@ == old(self).solution.candidate@
                    &&& final(self).solution.last@ == Some(c@)
                    &&& emits(
                        final(self).solution.knowledge(),
                        old(self).solution.last@,
                        c@,
                        old(self).solution.width as int,
                        old(self).solution.depth as int,
                    )
                },
                None => {
                    &&& final(self).solution.last@ == old(self).solution.last@
                    &&& exists|i: int| 0 <= i < results@.len() && !(#[trigger] results@[i])
                    &&& exists|t: int|
                        0 <= t < results@.len() && !(#[trigger] results@[t]) && (forall|t2: int|
                            0 <= t2 < t ==> #[trigger] results@[t2]) && (final(self).solution.done || (
                        final(self).solution.idx <= old(self).testing_cells@[t]
                            && prefix_lt(
                            old(self).solution.candidate@,
                            final(self).solution.candidate@,
                            old(self).testing_cells@[t] + 1,
                        )))
                    &&& (final(self).solution.done ==> exhausted(
                        final(self).solution.knowledge(),
                        old(self).solution.last@,
                        old(self).solution.width as int,
                        old(self).solution.depth as int,
                    ))
                },
            },
    {
        let ghost k0 = self.solution.knowledge();
        let ghost c0 = self.solution.candidate@;
        let ghost cells = self.testing_cells@;
        let ghost last0 = self.solution.last@;
        let ghost w = self.solution.width as int;
        let ghost d = self.solution.depth as int;
        let ghost s0 = self.solution;
        let mut i: usize = 0;
        while i < results.len()
            invariant
                self.solution.same_frame_but_cache(&s0),
                self.solution.candidate == s0.candidate,
                self.solution.idx == s0.idx,
                self.testing_cells@ == cells,
                s0 == old(self).solution,
                k0 == s0.knowledge(),
                c0 == s0.candidate@,
                cells == old(self).testing_cells@,
                results@.len() == cells.len(),
                untested_cells(k0, c0, cells),
                s0.shape(),
                w == s0.width,
                d == s0.depth,
                i <= results@.len(),
                is_candidate(c0, w, d),
                extends(k0, self.solution.knowledge()),
                forall|j: int|
                    #![trigger cells[j]]
                    0 <= j < i ==> self.solution.knowledge()[cells[j] as int][c0[cells[j] as int] as int]
                        == Some(results@[j]),
                forall|r: int, s: int|
                    #![trigger self.solution.knowledge()[r][s]]
                    0 <= r < w && 0 <= s < d && self.solution.knowledge()[r][s] != k0[r][s] ==> s
                        == c0[r] && exists|j: int| 0 <= j < i && cells[j] == r as usize,
            decreases results@.len() - i,
        {
            let r = self.testing_cells[i];
            let s = self.solution.candidate[r];
            let ghost before = self.solution.knowledge();
            assert(before[r as int][s as int] is None) by {
                assert(k0[r as int][c0[r as int] as int] is None);
                if before[r as int][s as int] != k0[r as int][s as int] {
                    let j = choose|j: int| 0 <= j < i && cells[j] == r as usize;
                    assert(cells[j] < cells[i as int]);
                }
            }
            self.solution.record(r, s, results[i]);
            proof {
                crate::search::lemma_extends_trans(k0, before, self.solution.knowledge());
                assert forall|r2: int, s2: int|
                    #![trigger self.solution.knowledge()[r2][s2]]
                    0 <= r2 < w && 0 <= s2 < d && self.solution.knowledge()[r2][s2] != k0[r2][s2]
                    implies s2 == c0[r2] && exists|j: int| 0 <= j < i + 1 && cells[j] == r2 as usize by {
                    if r2 == r && s2 == s {
                        assert(cells[i as int] == r2 as usize);
                    } else {
                        assert(self.solution.knowledge()[r2][s2] == before[r2][s2]);
                        let j = choose|j: int| 0 <= j < i && cells[j] == r2 as usize;
                    }
                }
                assert forall|j: int|
                    #![trigger cells[j]]
                    0 <= j < i + 1 implies self.solution.knowledge()[cells[j] as int][c0[cells[j] as int] as int]
                        == Some(results@[j]) by {
                    if j < i {
                        assert(cells[j] < cells[i as int]);
                    }
                }
            }
            i = i + 1;
        }
        self.pending = false;
        proof {
            Solution::lemma_knowledge_grows(&s0, &self.solution);
        }
        let ghost k1 = self.solution.knowledge();
        let mut j: usize = 0;
        let mut first: Option<usize> = None;
        while j < results.len()
            invariant_except_break
                first is None,
            invariant
                j <= results@.len(),
                results@.len() == cells.len(),
                self.testing_cells@ == cells,
                forall|t: int| 0 <= t < j ==> #[trigger] results@[t],
            ensures
                first is None ==> forall|t: int| 0 <= t < results@.len() ==> #[trigger] results@[t],
                first matches Some(fr) ==> exists|t: int|
                    0 <= t < results@.len() && !(#[trigger] results@[t]) && cells[t] == fr && forall|t2: int|
                        0 <= t2 < t ==> #[trigger] results@[t2],
            decreases results@.len() - j,
        {
            if !results[j] {
                first = Some(self.testing_cells[j]);
                break;
            }
            j = j + 1;
        }
        match first {
            None => {
                let ghost c = c0;
                proof {
                    assert(all_present(k1, c)) by {
                        assert forall|x: int| 0 <= x < c.len() implies k1[x][#[trigger] c[x] as int] == Some(true) by {
                            if k0[x][c[x] as int] is None {
                                assert(cells.contains(x as usize));
                                let t = choose|t: int| 0 <= t < cells.len() && cells[t] == x as usize;
                                assert(results@[t]);
                            } else {
                                assert(k0[x][c0[x] as int] != Some(false));
                            }
                        }
                    }
                    assert forall|c2: Seq<usize>|
                        is_candidate(c2, w, d) && after(last0, c2) && #[trigger] lex_lt(c2, c)
                        implies crate::search::blocked(k1, c2) by {
                        assert(prefix_lt(c2, c, w));
                    }
                    assert(cleared_below(k1, Some(c), c, w, w, d)) by {
                        assert forall|c2: Seq<usize>|
                            is_candidate(c2, w, d) && after(Some(c), c2)
                                && #[trigger] prefix_lt(c2, c, w) implies crate::search::blocked(k1, c2) by {
                            assert(lex_lt(c2, c));
                            lemma_lex_asymmetric(c, c2);
                        }
                    }
                }
                self.solution.dirty = true;
                self.solution.last = Ghost(Some(c));
                let out = self.solution.candidate.clone();
                assert(out@ =~= c);
                Some(out)
            },
            Some(r) => {
                self.solution.idx = r;
                proof {
                    lemma_shrink(k1, last0, c0, r + 1, w, w, d);
                }
                if !self.solution.prune() {
                    self.solution.done = true;
                    return None;
                }
                let ghost pruned = self.solution;
                proof {
                    lemma_same_prefix(k1, last0, c0, pruned.candidate@, r + 1, w, d);
                    let t = choose|t: int| 0 <= t < results@.len() && !(#[trigger] results@[t]) && cells[t] == r;
                    assert(k1[r as int][c0[r as int] as int] == Some(results@[t]));
                    lemma_through_missing(k1, last0, pruned.candidate@, r + 1, w, d);
                }
                if !self.solution.bail() {
                    self.solution.done = true;
                    return None;
                }
                proof {
                    let cn = self.solution.candidate@;
                    let m = choose|m: int|
                        #![trigger pruned.candidate@[m], cn[m]]
                        0 <= m < r + 1 && pruned.candidate@[m] < cn[m] && agree_upto(pruned.candidate@, cn, m);
                    assert(agree_upto(c0, cn, m)) by {
                        assert forall|x: int| 0 <= x < m implies #[trigger] c0[x] == cn[x] by {
                            assert(pruned.candidate@[x] == cn[x]);
                        }
                    }
                    assert(c0[m] == pruned.candidate@[m]);
                    assert(prefix_lt(c0, cn, r + 1));
                    lemma_prefix_lt_grow(c0, cn, r + 1, w);
                    if let Some(l) = last0 {
                        lemma_lex_transitive(l, c0, cn);
                    }
                    let t = choose|t: int|
                        0 <= t < results@.len() && !(#[trigger] results@[t]) && cells[t] == r && forall|t2: int|
                            0 <= t2 < t ==> #[trigger] results@[t2];
                    assert forall|x: int| 0 <= x < self.solution.idx implies k1[x][#[trigger] cn[x] as int] != Some(false) by {
                        assert(cn[x] == pruned.candidate@[x]);
                        assert(pruned.candidate@[x] == c0[x]);
                        if k1[x][c0[x] as int] == Some(false) {
                            assert(k0[x][c0[x] as int] != Some(false));
                            let t2 = choose|t2: int| 0 <= t2 < results@.len() && cells[t2] == x as usize;
                            if t2 >= t {
                                if t2 > t {
                                    assert(cells[t] < cells[t2]);
                                }
                            }
                            assert(results@[t2]);
                            assert(k1[cells[t2] as int][c0[cells[t2] as int] as int] == Some(results@[t2]));
                        }
                    }
                }
                None
            },
        }
    }
}

} // verus!
