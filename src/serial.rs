//! The serial solver: tests one cell at a time, in order.
use vstd::prelude::*;

use crate::search::{
    Knowledge, all_present, cleared_below, emits, exhausted, extends,
    lex_lt, lemma_extends_trans, lemma_lex_asymmetric, lemma_lex_irreflexive, lemma_lex_transitive,
    lemma_through_last, lemma_through_missing,
};
use crate::solution::Solution;

verus! {

/// Answers, one cell at a time, whether a resource is available from a
/// source.
pub trait SyncTester {
    /// Whether resource `res_idx` is available from source `source_idx`.
    fn test_sync(&self, res_idx: usize, source_idx: usize) -> bool;
}

/// Every answer that `k2` holds and `k` did not is one that `tester`'s
/// contract gives for that cell.
pub open spec fn answered_by<F: Fn(usize, usize) -> bool>(k: Knowledge, k2: Knowledge, tester: F) -> bool {
    forall|r: int, s: int|
        #![trigger k2[r][s]]
        0 <= r < k.len() && 0 <= s < k[r].len() && k[r][s] is None && k2[r][s] is Some
            ==> tester.ensures((r as usize, s as usize), k2[r][s].unwrap())
}

/// Every cell chosen before position `idx` is known to be present.
pub open spec fn prefix_present(k: Knowledge, c: Seq<usize>, idx: int) -> bool {
    forall|j: int| #![trigger c[j]] 0 <= j < idx ==> k[j][c[j] as int] == Some(true)
}

/// Walks the assignments of sources to resources in lexicographic order and
/// hands out each one whose every cell is present, testing cells one at a
/// time as it goes.
pub struct SerialProblemSolver {
    pub solution: Solution,
}

impl SerialProblemSolver {
    /// The state between two calls of `next`.
    pub open spec fn wf(&self) -> bool {
        &&& self.solution.wf()
        &&& (!self.solution.done && !self.solution.dirty) ==> prefix_present(
            self.solution.knowledge(),
            self.solution.candidate@,
            self.solution.idx as int,
        )
    }

    /// A solver for `width` resources and `depth` sources.
    pub fn new(width: usize, depth: usize) -> (s: SerialProblemSolver)
        ensures
            s.wf(),
            s.solution.width == width,
            s.solution.depth == depth,
            s.solution.last@ is None,
            s.solution.knowledge() == Seq::new(
                width as nat,
                |r: int| Seq::new(depth as nat, |c: int| None::<bool>),
            ),
    {
        SerialProblemSolver { solution: Solution::new(width, depth) }
    }

    /// What is known of the current cell, asking `tester` when nothing is
    /// known yet and recording its answer.
    fn test_current_cell<F: Fn(usize, usize) -> bool>(&mut self, tester: &F) -> (present: bool)
        requires
            old(self).solution.searching(),
            forall|r: usize, s: usize|
                r < old(self).solution.width && s < old(self).solution.depth ==> tester.requires((r, s)),
        ensures
            answered_by(old(self).solution.knowledge(), final(self).solution.knowledge(), *tester),
            final(self).solution.same_frame_but_cache(&old(self).solution),
            final(self).solution.candidate == old(self).solution.candidate,
            final(self).solution.idx == old(self).solution.idx,
            extends(old(self).solution.knowledge(), final(self).solution.knowledge()),
            forall|r: int, s: int|
                #![trigger final(self).solution.knowledge()[r][s]]
                0 <= r < old(self).solution.width && 0 <= s < old(self).solution.depth
                    && final(self).solution.knowledge()[r][s] != old(self).solution.knowledge()[r][s]
                    ==> r == old(self).solution.idx && s == old(self).solution.candidate@[r],
            final(self).solution.knowledge()[final(self).solution.idx as int][final(self).solution.candidate@[final(self).solution.idx as int] as int] == Some(present),
    {
        let r = self.solution.idx;
        let s = self.solution.candidate[r];
        match self.solution.get_cell(r, s) {
            Some(v) => v,
            None => {
                let v = tester(r, s);
                self.solution.record(r, s, v);
                v
            },
        }
    }

    /// The next assignment, in lexicographic order of source indices, whose
    /// every cell is present; `None` once there is none left. Index 0 is the
    /// source of highest priority. `tester(r, s)` tells whether resource `r`
    /// is available from source `s`; each cell is asked at most once.
    pub fn next<F: Fn(usize, usize) -> bool>(&mut self, tester: &F) -> (r: Option<Vec<usize>>)
        requires
            old(self).wf(),
            forall|r: usize, s: usize|
                r < old(self).solution.width && s < old(self).solution.depth ==> tester.requires((r, s)),
        ensures
            final(self).wf(),
            answered_by(old(self).solution.knowledge(), final(self).solution.knowledge(), *tester),
            (old(self).solution.width == 0 || old(self).solution.depth == 0) ==> r is None,
            final(self).solution.width == old(self).solution.width,
            final(self).solution.depth == old(self).solution.depth,
            extends(old(self).solution.knowledge(), final(self).solution.knowledge()),
            match r {
                Some(c) => {
                    &&& c@ == final(self).solution.candidate@
                    &&& final(self).solution.last@ == Some(c@)
                    &&& emits(
                        final(self).solution.knowledge(),
                        old(self).solution.last@,
                        c@,
                        old(self).solution.width as int,
                        old(self).solution.depth as int,
                    )
                },
                None => {
                    &&& final(self).solution.done
                    &&& final(self).solution.last@ == old(self).solution.last@
                    &&& (old(self).solution.width == 0 || exhausted(
                        final(self).solution.knowledge(),
                        old(self).solution.last@,
                        old(self).solution.width as int,
                        old(self).solution.depth as int,
                    ))
                },
            },
    {
        let ghost k0 = self.solution.knowledge();
        let ghost last0 = self.solution.last@;
        let ghost w = self.solution.width as int;
        let ghost d = self.solution.depth as int;
        if self.solution.done {
            return None;
        }
        if self.solution.dirty {
            proof {
                lemma_through_last(k0, self.solution.candidate@, w, d);
            }
            let ghost emitted = self.solution.candidate@;
            proof {
                lemma_lex_irreflexive(emitted);
            }
            if !self.solution.bail() {
                self.solution.done = true;
                return None;
            }
            self.solution.dirty = false;
            assert(prefix_present(self.solution.knowledge(), self.solution.candidate@, self.solution.idx as int)) by {
                assert forall|j: int| 0 <= j < self.solution.idx implies self.solution.knowledge()[j][#[trigger] self.solution.candidate@[j] as int] == Some(true) by {
                    assert(emitted[j] == self.solution.candidate@[j]);
                }
            }
        }
        proof {
            self.solution.lemma_progress_bound();
        }
        loop
            invariant
                self.solution.searching(),
                !self.solution.done,
                !self.solution.dirty,
                self.solution.width == w,
                self.solution.depth == d,
                self.solution.last@ == last0,
                k0 == old(self).solution.knowledge(),
                last0 == old(self).solution.last@,
                w == old(self).solution.width,
                d == old(self).solution.depth,
                extends(k0, self.solution.knowledge()),
                answered_by(k0, self.solution.knowledge(), *tester),
                forall|r: usize, s: usize| r < w && s < d ==> tester.requires((r, s)),
                prefix_present(self.solution.knowledge(), self.solution.candidate@, self.solution.idx as int),
                crate::search::after(last0, self.solution.candidate@),
            decreases self.solution.progress_left(), self.solution.width - self.solution.idx,
        {
            let ghost before = self.solution;
            let present = self.test_current_cell(tester);
            proof {
                Solution::lemma_knowledge_grows(&before, &self.solution);
                lemma_extends_trans(k0, before.knowledge(), self.solution.knowledge());
                lemma_answered_trans(k0, before.knowledge(), self.solution.knowledge(), *tester);
                assert forall|j: int| 0 <= j < self.solution.idx implies self.solution.knowledge()[j][#[trigger] self.solution.candidate@[j] as int] == Some(true) by {
                    assert(before.knowledge()[j][before.candidate@[j] as int] == Some(true));
                }
            }
            let ghost tested = self.solution;
            if !present {
                proof {
                    lemma_through_missing(
                        self.solution.knowledge(),
                        self.solution.last@,
                        self.solution.candidate@,
                        self.solution.idx + 1,
                        w,
                        d,
                    );
                }
                if !self.solution.bail() {
                    self.solution.done = true;
                    return None;
                }
                proof {
                    tested.lemma_progress(&self.solution);
                    if let Some(l) = last0 {
                        lemma_lex_transitive(l, tested.candidate@, self.solution.candidate@);
                    }
                    assert forall|j: int| 0 <= j < self.solution.idx implies self.solution.knowledge()[j][#[trigger] self.solution.candidate@[j] as int] == Some(true) by {
                        assert(tested.candidate@[j] == self.solution.candidate@[j]);
                    }
                }
                continue;
            }
            if self.solution.is_complete() {
                self.solution.dirty = true;
                let ghost c = self.solution.candidate@;
                proof {
                    assert(all_present(self.solution.knowledge(), c)) by {
                        assert forall|j: int| 0 <= j < c.len() implies self.solution.knowledge()[j][#[trigger] c[j] as int] == Some(true) by {
                            if j < self.solution.idx {
                            }
                        }
                    }
                    assert forall|c2: Seq<usize>|
                        crate::search::is_candidate(c2, w, d) && crate::search::after(last0, c2) && #[trigger] lex_lt(c2, c)
                        implies crate::search::blocked(self.solution.knowledge(), c2) by {
                        assert(crate::search::prefix_lt(c2, c, w));
                    }
                    assert(cleared_below(self.solution.knowledge(), Some(c), c, w, w, d)) by {
                        assert forall|c2: Seq<usize>|
                            crate::search::is_candidate(c2, w, d) && crate::search::after(Some(c), c2)
                                && #[trigger] crate::search::prefix_lt(c2, c, w) implies crate::search::blocked(
                            self.solution.knowledge(),
                            c2,
                        ) by {
                            assert(lex_lt(c2, c));
                            lemma_lex_asymmetric(c, c2);
                        }
                    }
                }
                self.solution.last = Ghost(Some(c));
                let out = self.solution.candidate.clone();
                assert(out@ =~= c);
                return Some(out);
            }
            let ghost stepped = self.solution;
            if !self.solution.try_advance_resource() {
                self.solution.done = true;
                return None;
            }
            proof {
                if self.solution.candidate@ != stepped.candidate@ {
                    stepped.lemma_progress(&self.solution);
                    if let Some(l) = last0 {
                        lemma_lex_transitive(l, stepped.candidate@, self.solution.candidate@);
                    }
                }
                assert forall|j: int| 0 <= j < self.solution.idx implies self.solution.knowledge()[j][#[trigger] self.solution.candidate@[j] as int] == Some(true) by {
                    assert(stepped.candidate@[j] == self.solution.candidate@[j]);
                }
            }
        }
    }


    /// As `next`, asking `tester`.
    pub fn next_with<T: SyncTester>(&mut self, tester: &T) -> (r: Option<Vec<usize>>)
        requires
            old(self).wf(),
        ensures
            final(self).wf(),
            (old(self).solution.width == 0 || old(self).solution.depth == 0) ==> r is None,
            extends(old(self).solution.knowledge(), final(self).solution.knowledge()),
            match r {
                Some(c) => {
                    &&& final(self).solution.last@ == Some(c@)
                    &&& emits(
                        final(self).solution.knowledge(),
                        old(self).solution.last@,
                        c@,
                        old(self).solution.width as int,
                        old(self).solution.depth as int,
                    )
                },
                None => {
                    &&& final(self).solution.done
                    &&& (old(self).solution.width == 0 || exhausted(
                        final(self).solution.knowledge(),
                        old(self).solution.last@,
                        old(self).solution.width as int,
                        old(self).solution.depth as int,
                    ))
                },
            },
    {
        self.next(&|r: usize, s: usize| tester.test_sync(r, s))
    }
}

/// Answers recorded over two steps come from the tester.
proof fn lemma_answered_trans<F: Fn(usize, usize) -> bool>(
    k0: Knowledge,
    k1: Knowledge,
    k2: Knowledge,
    tester: F,
)
    requires
        extends(k0, k1),
        extends(k1, k2),
        answered_by(k0, k1, tester),
        answered_by(k1, k2, tester),
    ensures
        answered_by(k0, k2, tester),
{
    assert forall|r: int, s: int|
        0 <= r < k0.len() && 0 <= s < k0[r].len() && k0[r][s] is None && #[trigger] k2[r][s] is Some
        implies tester.ensures((r as usize, s as usize), k2[r][s].unwrap()) by {
        if k1[r][s] is Some {
            assert(k2[r][s] == k1[r][s]);
        }
    }
}

} // verus!
