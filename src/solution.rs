//! The solver's state: a partial assignment of sources to resources, a cursor
//! into it, and the memo of tested cells, with the backtracking steps that
//! walk the assignments in lexicographic order.
use vstd::prelude::*;

use crate::search::{
    Knowledge, after, agree_upto, all_present, cleared_below, cleared_through, exhausted, extends,
    is_candidate, knowledge_shape, same_except, prefix_lt, prefix_clear, dead_row, lex_lt, pow, rank, tail_minimal, lemma_bump,
    lemma_cleared_below_grows, lemma_dead_row, lemma_exhausted_grows, lemma_extend,
    lemma_lex_transitive, lemma_rank_bound, lemma_rank_lex, lemma_root_cleared, lemma_same_prefix,
    lemma_step_back, lemma_through_missing,
};

verus! {

/// A partial assignment of sources to resources and what is known of each
/// (resource, source) cell.
///
/// `candidate[r]` is the source chosen for resource `r`; `idx` is the
/// resource whose cell is under consideration. `cache[r][s]` is `None` for a
/// cell not tested yet, `Some(false)` when resource `r` is missing from source
/// `s`, and `Some(true)` when it is present. `dirty` is set when `candidate`
/// has just been handed out, so that the next step moves past it; `done` once
/// nothing is left to hand out. `last` is the candidate handed out last.
pub struct Solution {
    pub width: usize,
    pub depth: usize,
    pub candidate: Vec<usize>,
    pub idx: usize,
    pub dirty: bool,
    pub done: bool,
    pub cache: Vec<Vec<Option<bool>>>,
    pub last: Ghost<Option<Seq<usize>>>,
}

impl Solution {
    /// The memo as a matrix.
    pub open spec fn knowledge(&self) -> Knowledge {
        self.cache@.map_values(|row: Vec<Option<bool>>| row@)
    }

    /// The vectors have the sizes that `width` and `depth` give.
    pub open spec fn shape(&self) -> bool {
        &&& self.cache@.len() == self.width
        &&& forall|r: int| 0 <= r < self.width ==> (#[trigger] self.cache@[r])@.len() == self.depth
        &&& self.candidate@.len() == self.width
    }

    /// The cursor is inside the search: every candidate ahead of `last` that
    /// comes before the cursor is blocked, and past the cursor each entry is
    /// the first source of its row not known to be missing, or earlier.
    pub open spec fn searching(&self) -> bool {
        &&& self.shape()
        &&& self.width > 0
        &&& self.depth > 0
        &&& self.idx < self.width
        &&& is_candidate(self.candidate@, self.width as int, self.depth as int)
        &&& cleared_below(
            self.knowledge(),
            self.last@,
            self.candidate@,
            self.idx + 1,
            self.width as int,
            self.depth as int,
        )
        &&& tail_minimal(self.knowledge(), self.candidate@, self.idx as int)
    }

    /// As `searching`, and the candidates through the current cell are done
    /// with as well, so the cursor may move on.
    pub open spec fn cursor_cleared(&self) -> bool {
        &&& self.searching()
        &&& cleared_through(
            self.knowledge(),
            self.last@,
            self.candidate@,
            self.idx + 1,
            self.width as int,
            self.depth as int,
        )
    }

    /// Nothing is left to hand out.
    pub open spec fn finished(&self) -> bool {
        self.width == 0 || exhausted(
            self.knowledge(),
            self.last@,
            self.width as int,
            self.depth as int,
        )
    }

    /// The state between two calls of a solver.
    pub open spec fn wf(&self) -> bool {
        &&& self.shape()
        &&& (self.width == 0 || self.depth == 0) ==> self.done
        &&& self.done ==> self.finished()
        &&& !self.done ==> self.searching()
        &&& (!self.done && !self.dirty) ==> after(self.last@, self.candidate@)
        &&& (!self.done && !self.dirty) ==> prefix_clear(
            self.knowledge(),
            self.candidate@,
            self.idx as int,
        )
        &&& (!self.done && self.dirty) ==> {
            &&& self.idx == self.width - 1
            &&& self.last@ == Some(self.candidate@)
            &&& all_present(self.knowledge(), self.candidate@)
        }
    }

    /// `self` and `other` differ at most in the candidate and the cursor.
    pub open spec fn same_frame(&self, other: &Solution) -> bool {
        &&& self.width == other.width
        &&& self.depth == other.depth
        &&& self.candidate@.len() == other.candidate@.len()
        &&& self.cache == other.cache
        &&& self.last == other.last
        &&& self.dirty == other.dirty
        &&& self.done == other.done
    }

    /// `self` and `other` differ at most in the candidate, the cursor and the
    /// memo.
    pub open spec fn same_frame_but_cache(&self, other: &Solution) -> bool {
        &&& self.shape()
        &&& self.width == other.width
        &&& self.depth == other.depth
        &&& self.last == other.last
        &&& self.dirty == other.dirty
        &&& self.done == other.done
    }

    /// A bound on how far the search can still go, for termination.
    pub open spec fn progress_left(&self) -> int {
        pow(self.depth as nat, self.width as nat) - rank(self.candidate@, self.depth as nat)
    }

    /// A solution for `width` resources and `depth` sources, before the search.
    pub fn new(width: usize, depth: usize) -> (s: Solution)
        ensures
            s.width == width,
            s.depth == depth,
            s.wf(),
            s.idx == 0,
            !s.dirty,
            s.last@ is None,
            s.candidate@ == Seq::new(width as nat, |i: int| 0usize),
            s.knowledge() == Seq::new(
                width as nat,
                |r: int| Seq::new(depth as nat, |c: int| None::<bool>),
            ),
            s.done == (width == 0 || depth == 0),
    {
        let mut candidate: Vec<usize> = Vec::new();
        let mut cache: Vec<Vec<Option<bool>>> = Vec::new();
        let mut r: usize = 0;
        while r < width
            invariant
                r <= width,
                candidate@ == Seq::new(r as nat, |i: int| 0usize),
                cache@.len() == r,
                forall|x: int|
                    0 <= x < r ==> (#[trigger] cache@[x])@ == Seq::new(
                        depth as nat,
                        |c: int| None::<bool>,
                    ),
            decreases width - r,
        {
            let mut row: Vec<Option<bool>> = Vec::new();
            let mut c: usize = 0;
            while c < depth
                invariant
                    c <= depth,
                    row@ == Seq::new(c as nat, |i: int| None::<bool>),
                decreases depth - c,
            {
                row.push(None);
                c = c + 1;
                assert(row@ =~= Seq::new(c as nat, |i: int| None::<bool>));
            }
            candidate.push(0);
            cache.push(row);
            r = r + 1;
            assert(candidate@ =~= Seq::new(r as nat, |i: int| 0usize));
        }
        let s = Solution {
            width,
            depth,
            candidate,
            idx: 0,
            dirty: false,
            done: width == 0 || depth == 0,
            cache,
            last: Ghost(None),
        };
        assert(s.knowledge() =~= Seq::new(
            width as nat,
            |r: int| Seq::new(depth as nat, |c: int| None::<bool>),
        ));
        if width > 0 && depth == 0 {
            assert forall|c: Seq<usize>| #[trigger] is_candidate(c, width as int, depth as int) && after(
                s.last@,
                c,
            ) implies crate::search::blocked(s.knowledge(), c) by {
                assert(c[0] < depth);
            }
        }
        if width > 0 && depth > 0 {
            assert(is_candidate(s.candidate@, width as int, depth as int));
            assert(cleared_below(
                s.knowledge(),
                s.last@,
                s.candidate@,
                1,
                width as int,
                depth as int,
            )) by {
                assert forall|c: Seq<usize>|
                    is_candidate(c, width as int, depth as int) && after(None, c)
                        && #[trigger] crate::search::prefix_lt(c, s.candidate@, 1) implies crate::search::blocked(
                    s.knowledge(),
                    c,
                ) by {
                    let m = choose|m: int|
                        #![trigger c[m], s.candidate@[m]]
                        0 <= m < 1 && c[m] < s.candidate@[m] && agree_upto(c, s.candidate@, m);
                }
            }
        }
        s
    }

    /// What is known of the cell of resource `res_idx` in source `source_idx`.
    pub fn get_cell(&self, res_idx: usize, source_idx: usize) -> (c: Option<bool>)
        requires
            self.shape(),
            res_idx < self.width,
            source_idx < self.depth,
        ensures
            c == self.knowledge()[res_idx as int][source_idx as int],
    {
        self.cache[res_idx][source_idx]
    }

    fn is_cell_missing(&self, res_idx: usize, source_idx: usize) -> (b: bool)
        requires
            self.shape(),
            res_idx < self.width,
            source_idx < self.depth,
        ensures
            b == (self.knowledge()[res_idx as int][source_idx as int] == Some(false)),
    {
        match self.cache[res_idx][source_idx] {
            Some(false) => true,
            _ => false,
        }
    }

    fn is_current_cell_missing(&self) -> (b: bool)
        requires
            self.shape(),
            self.idx < self.width,
            is_candidate(self.candidate@, self.width as int, self.depth as int),
        ensures
            b == (self.knowledge()[self.idx as int][self.candidate@[self.idx as int] as int] == Some(
                false,
            )),
    {
        self.is_cell_missing(self.idx, self.candidate[self.idx])
    }

    /// Records the answer `present` for the cell of resource `res_idx` in
    /// source `source_idx`, which was not tested before.
    pub fn record(&mut self, res_idx: usize, source_idx: usize, present: bool)
        requires
            old(self).shape(),
            res_idx < old(self).width,
            source_idx < old(self).depth,
            old(self).knowledge()[res_idx as int][source_idx as int] is None,
        ensures
            final(self).shape(),
            final(self).width == old(self).width,
            final(self).depth == old(self).depth,
            final(self).candidate == old(self).candidate,
            final(self).idx == old(self).idx,
            final(self).last == old(self).last,
            final(self).dirty == old(self).dirty,
            final(self).done == old(self).done,
            final(self).knowledge() == old(self).knowledge().update(
                res_idx as int,
                old(self).knowledge()[res_idx as int].update(source_idx as int, Some(present)),
            ),
            extends(old(self).knowledge(), final(self).knowledge()),
    {
        self.cache[res_idx][source_idx] = Some(present);
        assert(self.knowledge() =~= old(self).knowledge().update(
            res_idx as int,
            old(self).knowledge()[res_idx as int].update(source_idx as int, Some(present)),
        ));
    }

    /// What holds of the search stays true when only knowledge was added.
    pub proof fn lemma_knowledge_grows(old: &Solution, new: &Solution)
        requires
            old.shape(),
            new.shape(),
            new.width == old.width,
            new.depth == old.depth,
            new.candidate@ == old.candidate@,
            new.idx == old.idx,
            new.last@ == old.last@,
            extends(old.knowledge(), new.knowledge()),
        ensures
            old.searching() ==> new.searching(),
            old.cursor_cleared() ==> new.cursor_cleared(),
            old.finished() ==> new.finished(),
            old.searching() && all_present(old.knowledge(), old.candidate@) ==> all_present(
                new.knowledge(),
                new.candidate@,
            ),
    {
        let k = old.knowledge();
        let k2 = new.knowledge();
        let w = old.width as int;
        let d = old.depth as int;
        assert(knowledge_shape(k, w, d));
        if old.searching() {
            lemma_cleared_below_grows(k, k2, old.last@, old.candidate@, old.idx + 1, w, d);
            assert forall|i: int, s: int|
                old.idx < i < new.candidate@.len() && 0 <= s < new.candidate@[i] implies #[trigger] k2[i][s]
                == Some(false) by {
                assert(k[i][s] == Some(false));
            }
        }
        if old.cursor_cleared() {
            assert forall|c: Seq<usize>|
                is_candidate(c, w, d) && after(old.last@, c) && #[trigger] agree_upto(
                    c,
                    old.candidate@,
                    old.idx + 1,
                ) implies crate::search::blocked(k2, c) by {
                crate::search::lemma_blocked_grows(k, k2, c, w, d);
            }
        }
        if old.finished() && w > 0 {
            lemma_exhausted_grows(k, k2, old.last@, w, d);
        }
        if old.searching() && all_present(k, old.candidate@) {
            assert forall|r: int| 0 <= r < new.candidate@.len() implies k2[r][#[trigger] new.candidate@[r] as int]
                == Some(true) by {
                assert(k[r][old.candidate@[r] as int] == Some(true));
            }
        }
    }

    /// The vectors have their sizes, the cursor is inside them, and every
    /// entry of the candidate names a source.
    pub open spec fn basic(&self) -> bool {
        &&& self.shape()
        &&& self.width > 0
        &&& self.depth > 0
        &&& self.idx < self.width
        &&& is_candidate(self.candidate@, self.width as int, self.depth as int)
    }

    /// Moves the current resource to its next source. Returns `false`, with
    /// nothing changed, when it is at the last source.
    pub fn try_advance_source(&mut self) -> (moved: bool)
        requires
            old(self).basic(),
        ensures
            final(self).same_frame(old(self)),
            final(self).idx == old(self).idx,
            final(self).basic(),
            moved == (old(self).candidate@[old(self).idx as int] + 1 < old(self).depth),
            moved ==> final(self).candidate@ == old(self).candidate@.update(
                old(self).idx as int,
                (old(self).candidate@[old(self).idx as int] + 1) as usize,
            ),
            !moved ==> final(self).candidate == old(self).candidate,
            old(self).cursor_cleared() ==> (moved ==> final(self).searching()) && (!moved
                ==> final(self).cursor_cleared()),
    {
        let i = self.idx;
        if self.candidate[i] + 1 < self.depth {
            let ghost before = self.candidate@;
            let ghost k = self.knowledge();
            proof {
                if old(self).cursor_cleared() {
                    lemma_bump(k, self.last@, before, i + 1, self.width as int, self.depth as int);
                }
            }
            let v = self.candidate[i] + 1;
            self.candidate.set(i, v);
            proof {
                if old(self).cursor_cleared() {
                    assert forall|j: int, s: int|
                        i < j < self.candidate@.len() && 0 <= s < self.candidate@[j] implies #[trigger] k[j][s]
                        == Some(false) by {
                        assert(self.candidate@[j] == before[j]);
                        assert(tail_minimal(k, before, i as int));
                    }
                }
                assert(is_candidate(self.candidate@, self.width as int, self.depth as int)) by {
                    assert forall|j: int| 0 <= j < self.width implies #[trigger] self.candidate@[j] < self.depth by {
                        if j != i {
                            assert(self.candidate@[j] == before[j]);
                        }
                    }
                }
            }
            true
        } else {
            false
        }
    }

    /// Moves the cursor to the next resource. Returns `false`, with nothing
    /// changed, at the last resource.
    pub fn try_advance_resource(&mut self) -> (moved: bool)
        requires
            old(self).basic(),
        ensures
            final(self).same_frame(old(self)),
            final(self).candidate == old(self).candidate,
            final(self).basic(),
            moved == (old(self).idx + 1 < old(self).width),
            moved ==> final(self).idx == old(self).idx + 1,
            !moved ==> final(self).idx == old(self).idx,
            old(self).searching() ==> final(self).searching(),
    {
        if self.idx + 1 < self.width {
            proof {
                if old(self).searching() {
                    let k = self.knowledge();
                    let c = self.candidate@;
                    let n = self.idx + 1;
                    assert forall|s: int| 0 <= s < c[n] implies #[trigger] k[n][s] == Some(false) by {
                        assert(tail_minimal(k, c, self.idx as int));
                    }
                    lemma_extend(k, self.last@, c, n, self.width as int, self.depth as int);
                }
            }
            self.idx = self.idx + 1;
            true
        } else {
            false
        }
    }

    /// Sets every entry past the cursor to the first source of its row not
    /// known to be missing. Returns `false` when some row past the cursor
    /// is known to be missing from every source.
    pub fn prune(&mut self) -> (ok: bool)
        requires
            old(self).shape(),
            old(self).width > 0,
            old(self).depth > 0,
            old(self).idx < old(self).width,
            is_candidate(old(self).candidate@, old(self).width as int, old(self).depth as int),
        ensures
            final(self).same_frame(old(self)),
            final(self).idx == old(self).idx,
            is_candidate(final(self).candidate@, final(self).width as int, final(self).depth as int),
            agree_upto(old(self).candidate@, final(self).candidate@, old(self).idx + 1),
            ok ==> tail_minimal(final(self).knowledge(), final(self).candidate@, final(self).idx as int),
            ok ==> forall|j: int|
                #![trigger final(self).candidate@[j]]
                final(self).idx < j < final(self).width ==> final(self).knowledge()[j][final(self).candidate@[j] as int] != Some(false),
            !ok ==> exhausted(
                final(self).knowledge(),
                final(self).last@,
                final(self).width as int,
                final(self).depth as int,
            ),
            !ok <==> exists|i: int|
                old(self).idx < i < old(self).width && #[trigger] dead_row(old(self).knowledge(), i, old(self).depth as int),
    {
        let ghost k = self.knowledge();
        let ghost w = self.width as int;
        let ghost d = self.depth as int;
        let ghost c0 = self.candidate@;
        let mut i: usize = self.idx + 1;
        while i < self.width
            invariant
                self.same_frame(old(self)),
                self.idx == old(self).idx,
                self.knowledge() == k,
                self.shape(),
                self.idx < i <= self.width,
                self.depth > 0,
                w == self.width,
                d == self.depth,
                is_candidate(self.candidate@, w, d),
                agree_upto(c0, self.candidate@, self.idx + 1),
                c0 == old(self).candidate@,
                forall|j: int, s: int|
                    #![trigger k[j][s], self.candidate@[j]]
                    self.idx < j < i && 0 <= s < self.candidate@[j] ==> k[j][s] == Some(false),
                forall|j: int|
                    #![trigger self.candidate@[j]]
                    self.idx < j < i ==> k[j][self.candidate@[j] as int] != Some(false),
            decreases self.width - i,
        {
            let mut s: usize = 0;
            while self.is_cell_missing(i, s)
                invariant
                    self.same_frame(old(self)),
                    self.idx == old(self).idx,
                    self.shape(),
                    self.knowledge() == k,
                    i < self.width,
                    old(self).idx < i,
                    s < self.depth,
                    w == self.width,
                    d == self.depth,
                    is_candidate(self.candidate@, w, d),
                    agree_upto(c0, self.candidate@, self.idx + 1),
                    c0 == old(self).candidate@,
                    forall|t: int| 0 <= t < s ==> #[trigger] k[i as int][t] == Some(false),
                decreases self.depth - s,
            {
                if s >= self.depth - 1 {
                    proof {
                        assert forall|t: int| 0 <= t < d implies #[trigger] k[i as int][t] == Some(
                            false,
                        ) by {}
                        lemma_dead_row(k, self.last@, i as int, w, d);
                        assert(dead_row(k, i as int, d));
                        assert(k == old(self).knowledge());
                        assert(old(self).idx < i < old(self).width && dead_row(old(self).knowledge(), i as int, old(self).depth as int));
                    }
                    return false;
                }
                s = s + 1;
            }
            let ghost before = self.candidate@;
            self.candidate.set(i, s);
            assert forall|j: int, t: int|
                #![trigger k[j][t], self.candidate@[j]]
                self.idx < j < i + 1 && 0 <= t < self.candidate@[j] implies k[j][t] == Some(false) by {
                if j < i {
                    assert(self.candidate@[j] == before[j]);
                }
            }
            assert forall|j: int|
                #![trigger self.candidate@[j]]
                self.idx < j < i + 1 implies k[j][self.candidate@[j] as int] != Some(false) by {
                if j < i {
                    assert(self.candidate@[j] == before[j]);
                }
            }
            i = i + 1;
        }
        proof {
            assert forall|j: int|
                old(self).idx < j < old(self).width implies !#[trigger] dead_row(k, j, d) by {
                assert(k[j][self.candidate@[j] as int] != Some(false));
                assert(self.candidate@[j] < d);
            }
        }
        true
    }

    /// Moves back to the nearest resource whose source can still move on,
    /// moves it on, and resets the entries after it with `prune`. Returns
    /// `false` when every resource up to the cursor is at its last source, or
    /// when `prune` finds a row known to be missing from every source.
    pub fn try_backtrack(&mut self) -> (moved: bool)
        requires
            old(self).basic(),
        ensures
            final(self).same_frame(old(self)),
            final(self).idx <= old(self).idx,
            final(self).idx < final(self).width,
            is_candidate(final(self).candidate@, final(self).width as int, final(self).depth as int),
            moved ==> {
                &&& old(self).candidate@[final(self).idx as int] < old(self).depth - 1
                &&& forall|j: int|
                    final(self).idx < j <= old(self).idx ==> #[trigger] old(self).candidate@[j]
                        == old(self).depth - 1
                &&& final(self).candidate@[final(self).idx as int] == old(self).candidate@[final(self).idx as int] + 1
                &&& forall|j: int|
                    #![trigger final(self).candidate@[j]]
                    final(self).idx < j < final(self).width ==> final(self).knowledge()[j][final(self).candidate@[j] as int] != Some(false)
                &&& tail_minimal(final(self).knowledge(), final(self).candidate@, final(self).idx as int)
            },
            moved ==> lex_lt(old(self).candidate@, final(self).candidate@),
            moved ==> agree_upto(old(self).candidate@, final(self).candidate@, final(self).idx as int),
            moved ==> prefix_lt(old(self).candidate@, final(self).candidate@, old(self).idx + 1),
            !moved ==> (final(self).idx == 0 && forall|j: int| 0 <= j <= old(self).idx ==> #[trigger] old(self).candidate@[j]
                == old(self).depth - 1) || {
                &&& old(self).candidate@[final(self).idx as int] < old(self).depth - 1
                &&& forall|j: int|
                    final(self).idx < j <= old(self).idx ==> #[trigger] old(self).candidate@[j]
                        == old(self).depth - 1
                &&& final(self).candidate@[final(self).idx as int] == old(self).candidate@[final(self).idx as int] + 1
                &&& agree_upto(old(self).candidate@, final(self).candidate@, final(self).idx as int)
                &&& exists|r: int|
                    final(self).idx < r < old(self).width && #[trigger] dead_row(old(self).knowledge(), r, old(self).depth as int)
            },
            old(self).cursor_cleared() ==> (moved ==> final(self).searching()) && (!moved ==> exhausted(
                final(self).knowledge(),
                final(self).last@,
                final(self).width as int,
                final(self).depth as int,
            )),
    {
        let ghost k = self.knowledge();
        let ghost w = self.width as int;
        let ghost d = self.depth as int;
        let ghost c0 = self.candidate@;
        let ghost cleared = old(self).cursor_cleared();
        while self.candidate[self.idx] == self.depth - 1
            invariant
                self.same_frame(old(self)),
                self.knowledge() == k,
                k == old(self).knowledge(),
                self.shape(),
                self.candidate@ == c0,
                c0 == old(self).candidate@,
                self.idx < self.width,
                self.idx <= old(self).idx,
                is_candidate(c0, w, d),
                w == self.width,
                d == self.depth,
                cleared == old(self).cursor_cleared(),
                cleared ==> cleared_through(k, self.last@, c0, self.idx + 1, w, d),
                forall|j: int| self.idx < j <= old(self).idx ==> #[trigger] c0[j] == d - 1,
            decreases self.idx,
        {
            proof {
                if cleared {
                    lemma_step_back(k, self.last@, c0, self.idx + 1, w, d);
                }
            }
            if self.idx == 0 {
                proof {
                    if cleared {
                        lemma_root_cleared(k, self.last@, c0, w, d);
                    }
                    assert forall|j: int| 0 <= j <= old(self).idx implies #[trigger] c0[j] == d - 1 by {
                        if j == 0 {
                        }
                    }
                }
                return false;
            }
            self.idx = self.idx - 1;
        }
        let ghost i = self.idx as int;
        proof {
            if cleared {
                lemma_bump(k, self.last@, c0, i + 1, w, d);
            }
        }
        let v = self.candidate[self.idx] + 1;
        self.candidate.set(self.idx, v);
        let ghost c1 = self.candidate@;
        assert(c1 =~= c0.update(i, (c0[i] + 1) as usize));
        assert(agree_upto(c0, c1, i));
        assert(c0[i] < c1[i]);
        assert(lex_lt(c0, c1));
        let ok = self.prune();
        if !ok {
            proof {
                assert(agree_upto(c0, self.candidate@, i)) by {
                    assert forall|x: int| 0 <= x < i implies #[trigger] c0[x] == self.candidate@[x] by {
                        assert(c1[x] == self.candidate@[x]);
                    }
                }
                assert(self.candidate@[i] == c1[i]);
            }
            return false;
        }
        proof {
            if cleared {
                lemma_same_prefix(k, self.last@, c1, self.candidate@, i + 1, w, d);
            }
            assert(agree_upto(c0, self.candidate@, i)) by {
                assert forall|x: int| 0 <= x < i implies #[trigger] c0[x] == self.candidate@[x] by {
                    assert(c1[x] == self.candidate@[x]);
                }
            }
            assert(c0[i] < self.candidate@[i]);
            assert(lex_lt(c0, self.candidate@));
            assert(prefix_lt(c0, self.candidate@, old(self).idx + 1));
        }
        true
    }

    /// The resources known to be missing from every source, in increasing
    /// order.
    pub fn missing_resources(&self) -> (r: Vec<usize>)
        requires
            self.shape(),
        ensures
            forall|a: int, b: int| 0 <= a < b < r@.len() ==> (#[trigger] r@[a]) < (#[trigger] r@[b]),
            forall|a: int| 0 <= a < r@.len() ==> (#[trigger] r@[a]) < self.width,
            forall|x: int|
                0 <= x < self.width ==> (r@.contains(x as usize) <==> #[trigger] dead_row(
                    self.knowledge(),
                    x,
                    self.depth as int,
                )),
    {
        let mut out: Vec<usize> = Vec::new();
        let mut r: usize = 0;
        while r < self.width
            invariant
                self.shape(),
                r <= self.width,
                forall|a: int, b: int| 0 <= a < b < out@.len() ==> (#[trigger] out@[a]) < (#[trigger] out@[b]),
                forall|a: int| 0 <= a < out@.len() ==> (#[trigger] out@[a]) < r,
                forall|x: int|
                    0 <= x < r ==> (out@.contains(x as usize) <==> #[trigger] dead_row(
                        self.knowledge(),
                        x,
                        self.depth as int,
                    )),
            decreases self.width - r,
        {
            let mut s: usize = 0;
            let mut all = true;
            while s < self.depth
                invariant
                    self.shape(),
                    r < self.width,
                    s <= self.depth,
                    all <==> forall|t: int| 0 <= t < s ==> #[trigger] self.knowledge()[r as int][t] == Some(false),
                decreases self.depth - s,
            {
                if self.get_cell(r, s) != Some(false) {
                    all = false;
                }
                s = s + 1;
            }
            let ghost before = out@;
            if all {
                out.push(r);
                proof {
                    assert(out@[before.len() as int] == r);
                    assert forall|x: int|
                        0 <= x < r + 1 implies (out@.contains(x as usize) <==> #[trigger] dead_row(
                            self.knowledge(),
                            x,
                            self.depth as int,
                        )) by {
                        if x < r {
                            if before.contains(x as usize) {
                                let t = choose|t: int| 0 <= t < before.len() && before[t] == x as usize;
                                assert(out@[t] == x as usize);
                            }
                            if out@.contains(x as usize) {
                                let t = choose|t: int| 0 <= t < out@.len() && out@[t] == x as usize;
                                assert(t < before.len());
                            }
                        }
                    }
                }
            } else {
                proof {
                    assert(!out@.contains(r));
                }
            }
            r = r + 1;
        }
        out
    }

    /// The cursor stands at the last resource.
    fn at_last_resource(&self) -> (b: bool)
        ensures
            b == (self.idx + 1 == self.width),
    {
        self.width > 0 && self.idx == self.width - 1
    }

    /// The cursor stands at the last resource, and its cell is known to be
    /// present.
    pub fn is_complete(&self) -> (b: bool)
        requires
            self.shape(),
            self.idx < self.width,
            is_candidate(self.candidate@, self.width as int, self.depth as int),
        ensures
            b == (self.idx + 1 == self.width && self.knowledge()[self.idx as int][self.candidate@[self.idx as int] as int] == Some(true)),
    {
        if self.at_last_resource() {
            match self.get_cell(self.idx, self.candidate[self.idx]) {
                Some(true) => true,
                _ => false,
            }
        } else {
            false
        }
    }

    /// Moves past the candidates through the current cell: to the next
    /// source of the current resource, or else back with `try_backtrack`.
    /// Returns `false` when neither can move.
    pub fn bail(&mut self) -> (moved: bool)
        requires
            old(self).basic(),
        ensures
            final(self).same_frame(old(self)),
            final(self).idx <= old(self).idx,
            final(self).idx < final(self).width,
            is_candidate(final(self).candidate@, final(self).width as int, final(self).depth as int),
            moved ==> lex_lt(old(self).candidate@, final(self).candidate@),
            moved ==> agree_upto(old(self).candidate@, final(self).candidate@, final(self).idx as int),
            moved ==> prefix_lt(old(self).candidate@, final(self).candidate@, old(self).idx + 1),
            old(self).candidate@[old(self).idx as int] + 1 < old(self).depth ==> {
                &&& moved
                &&& final(self).idx == old(self).idx
                &&& final(self).candidate@ == old(self).candidate@.update(
                    old(self).idx as int,
                    (old(self).candidate@[old(self).idx as int] + 1) as usize,
                )
            },
            old(self).candidate@[old(self).idx as int] + 1 >= old(self).depth && moved ==> {
                &&& old(self).candidate@[final(self).idx as int] < old(self).depth - 1
                &&& forall|j: int|
                    final(self).idx < j <= old(self).idx ==> #[trigger] old(self).candidate@[j]
                        == old(self).depth - 1
                &&& final(self).candidate@[final(self).idx as int] == old(self).candidate@[final(self).idx as int] + 1
                &&& tail_minimal(final(self).knowledge(), final(self).candidate@, final(self).idx as int)
                &&& forall|j: int|
                    #![trigger final(self).candidate@[j]]
                    final(self).idx < j < final(self).width ==> final(self).knowledge()[j][final(self).candidate@[j] as int] != Some(false)
            },
            !moved ==> (final(self).idx == 0 && forall|j: int| 0 <= j <= old(self).idx ==> #[trigger] old(self).candidate@[j]
                == old(self).depth - 1) || {
                &&& old(self).candidate@[final(self).idx as int] < old(self).depth - 1
                &&& forall|j: int|
                    final(self).idx < j <= old(self).idx ==> #[trigger] old(self).candidate@[j]
                        == old(self).depth - 1
                &&& final(self).candidate@[final(self).idx as int] == old(self).candidate@[final(self).idx as int] + 1
                &&& agree_upto(old(self).candidate@, final(self).candidate@, final(self).idx as int)
                &&& exists|r: int|
                    final(self).idx < r < old(self).width && #[trigger] dead_row(old(self).knowledge(), r, old(self).depth as int)
            },
            old(self).cursor_cleared() ==> (moved ==> final(self).searching()) && (!moved ==> exhausted(
                final(self).knowledge(),
                final(self).last@,
                final(self).width as int,
                final(self).depth as int,
            )),
    {
        let ghost c0 = self.candidate@;
        let ghost i = self.idx as int;
        if self.try_advance_source() {
            assert(agree_upto(c0, self.candidate@, i));
            assert(c0[i] < self.candidate@[i]);
            assert(lex_lt(c0, self.candidate@));
            assert(prefix_lt(c0, self.candidate@, i + 1));
            return true;
        }
        self.try_backtrack()
    }

    /// Measure facts for a step from `self` to `later` that moved the
    /// candidate forward.
    pub proof fn lemma_progress(&self, later: &Solution)
        requires
            self.searching(),
            later.searching(),
            later.width == self.width,
            later.depth == self.depth,
            lex_lt(self.candidate@, later.candidate@),
        ensures
            0 <= later.progress_left() < self.progress_left(),
    {
        lemma_rank_lex(self.candidate@, later.candidate@, self.depth as nat);
        lemma_rank_bound(later.candidate@, self.depth as nat);
    }

    /// The measure is never negative while searching.
    pub proof fn lemma_progress_bound(&self)
        requires
            self.searching(),
        ensures
            0 <= self.progress_left(),
    {
        lemma_rank_bound(self.candidate@, self.depth as nat);
    }

    /// Walks forward, using only what is already known, until the cursor
    /// stands at the last resource with no cell of the candidate known to be
    /// missing. Returns `false` when the search is over.
    pub fn try_generate_complete_candidate(&mut self) -> (found: bool)
        requires
            old(self).searching(),
            prefix_clear(old(self).knowledge(), old(self).candidate@, old(self).idx as int),
        ensures
            final(self).same_frame(old(self)),
            found ==> {
                &&& final(self).searching()
                &&& final(self).idx == final(self).width - 1
                &&& prefix_clear(final(self).knowledge(), final(self).candidate@, final(self).width as int)
                &&& (final(self).candidate@ == old(self).candidate@ || lex_lt(
                    old(self).candidate@,
                    final(self).candidate@,
                ))
            },
            !found ==> exhausted(
                final(self).knowledge(),
                final(self).last@,
                final(self).width as int,
                final(self).depth as int,
            ),
    {
        let ghost c0 = self.candidate@;
        let ghost k = self.knowledge();
        proof {
            self.lemma_progress_bound();
        }
        loop
            invariant
                self.same_frame(old(self)),
                self.searching(),
                k == self.knowledge(),
                c0 == old(self).candidate@,
                self.candidate@ == c0 || lex_lt(c0, self.candidate@),
                prefix_clear(k, self.candidate@, self.idx as int),
            decreases self.progress_left(), self.width - self.idx,
        {
            let ghost outer = *self;
            while self.is_current_cell_missing()
                invariant
                    self.same_frame(old(self)),
                    self.searching(),
                    k == self.knowledge(),
                    self.candidate@ == c0 || lex_lt(c0, self.candidate@),
                    self.candidate@ == outer.candidate@ || lex_lt(
                        outer.candidate@,
                        self.candidate@,
                    ),
                    self.progress_left() <= outer.progress_left(),
                    self.idx <= outer.idx,
                    self.candidate@ == outer.candidate@ ==> self.idx == outer.idx,
                    outer.searching(),
                    prefix_clear(k, self.candidate@, self.idx as int),
                decreases self.progress_left(),
            {
                let ghost before = *self;
                proof {
                    lemma_through_missing(
                        self.knowledge(),
                        self.last@,
                        self.candidate@,
                        self.idx + 1,
                        self.width as int,
                        self.depth as int,
                    );
                }
                if !self.bail() {
                    return false;
                }
                proof {
                    before.lemma_progress(self);
                    crate::search::lemma_lex_irreflexive(self.candidate@);
                    if before.candidate@ != c0 {
                        lemma_lex_transitive(c0, before.candidate@, self.candidate@);
                    }
                    if before.candidate@ != outer.candidate@ {
                        lemma_lex_transitive(outer.candidate@, before.candidate@, self.candidate@);
                    }
                    assert forall|j: int| 0 <= j < self.idx implies k[j][#[trigger] self.candidate@[j] as int] != Some(false) by {
                        assert(before.candidate@[j] == self.candidate@[j]);
                    }
                }
            }
            let ghost cur_missing = k[self.idx as int][self.candidate@[self.idx as int] as int] == Some(false);
            assert(!cur_missing);
            if self.at_last_resource() {
                proof {
                    assert forall|j: int| 0 <= j < self.width implies k[j][#[trigger] self.candidate@[j] as int] != Some(false) by {
                        if j < self.idx {
                            assert(prefix_clear(k, self.candidate@, self.idx as int));
                        } else {
                            assert(j == self.idx);
                        }
                    }
                    assert(prefix_clear(self.knowledge(), self.candidate@, self.width as int));
                }
                return true;
            }
            let ghost before = *self;
            if !self.try_advance_resource() {
                return false;
            }
            proof {
                let cb = before.candidate@;
                let cs = self.candidate@;
                let co = outer.candidate@;
                if cs != co {
                    if cb == co {
                        assert(lex_lt(co, cs));
                    } else if cs != cb {
                        lemma_lex_transitive(co, cb, cs);
                    }
                    outer.lemma_progress(self);
                } else if cb != co {
                    if cs != cb {
                        crate::search::lemma_lex_asymmetric(co, cb);
                    }
                }
                if cs != c0 && cs != cb && cb != c0 {
                    lemma_lex_transitive(c0, cb, cs);
                }
                assert forall|j: int| 0 <= j < self.idx implies k[j][#[trigger] self.candidate@[j] as int] != Some(false) by {
                    assert(cb[j] == cs[j]);
                    if j < before.idx {
                    }
                }
            }
        }
    }
}

} // verus!
