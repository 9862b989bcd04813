//! Bundle generation across a locale chain: for each locale in order, one
//! solver hands out the assignments; when a locale's solver is done, the
//! next locale starts, and a locale that gave nothing has its missing
//! resources reported.
//!
//! The step machines here make every decision. Whoever drives them tests
//! the cells asked for, builds the bundles and delivers the reports.
use vstd::prelude::*;

use crate::parallel::ParallelProblemSolver;
use crate::registry::L10nRegistry;
use crate::search::{Knowledge, dead_row, emits, exhausted, extends};
use crate::serial::{SerialProblemSolver, answered_by};
use crate::source::{SyncLookup, sync_step};

verus! {

/// What a bundle generation asks of its driver next.
#[derive(Debug, PartialEq, Eq)]
pub enum GenerationStep {
    /// Test these `(resource, source)` cells, in order, and hand the
    /// answers back.
    Test(Vec<(usize, usize)>),
    /// Build the bundle of the locale at position `locale` of the chain from
    /// `order`, the source chosen for each resource.
    Bundle { locale: usize, order: Vec<usize> },
    /// The locale at position `locale` gave no bundle: report the resources
    /// `res` as missing from every source. The next locale starts.
    ReportMissing { locale: usize, res: Vec<usize> },
    /// The locale at position `locale` is done after giving bundles. The next
    /// locale starts.
    LocaleDone { locale: usize },
    /// Every locale is done.
    Done,
}

/// The memo of a solver that has not tested anything.
pub open spec fn fresh_knowledge(width: nat, depth: nat) -> Knowledge {
    Seq::new(width, |r: int| Seq::new(depth, |c: int| None::<bool>))
}

/// `res` lists, in increasing order, exactly the rows of `k` known to be
/// missing from every source.
pub open spec fn lists_dead_rows(k: Knowledge, res: Seq<usize>, width: int, depth: int) -> bool {
    &&& forall|a: int, b: int| 0 <= a < b < res.len() ==> (#[trigger] res[a]) < (#[trigger] res[b])
    &&& forall|a: int| 0 <= a < res.len() ==> (#[trigger] res[a]) < width
    &&& forall|x: int| 0 <= x < width ==> (res.contains(x as usize) <==> #[trigger] dead_row(k, x, depth))
}

/// Bundle generation over `n_locales` locales with the serial solver.
pub struct BundleGenerationSync {
    pub n_locales: usize,
    pub locale: usize,
    pub width: usize,
    pub depth: usize,
    pub solver: SerialProblemSolver,
    /// The current locale has given a bundle.
    pub emitted: bool,
}

impl BundleGenerationSync {
    /// The state between two steps.
    pub open spec fn wf(&self) -> bool {
        &&& self.locale <= self.n_locales
        &&& self.solver.wf()
        &&& self.solver.solution.width == self.width
        &&& self.solver.solution.depth == self.depth
        &&& !self.emitted ==> self.solver.solution.last@ is None
    }

    /// Generation over `n_locales` locales, for `width` resources and
    /// `depth` sources.
    pub fn new(n_locales: usize, width: usize, depth: usize) -> (g: BundleGenerationSync)
        ensures
            g.wf(),
            g.n_locales == n_locales,
            g.locale == 0,
            g.width == width,
            g.depth == depth,
            !g.emitted,
            g.solver.solution.knowledge() == fresh_knowledge(width as nat, depth as nat),
    {
        BundleGenerationSync {
            n_locales,
            locale: 0,
            width,
            depth,
            solver: SerialProblemSolver::new(width, depth),
            emitted: false,
        }
    }

    /// The next step. `tester(r, s)` tells whether resource `r` is
    /// available from source `s` for the current locale.
    pub fn next_step<F: Fn(usize, usize) -> bool>(&mut self, tester: &F) -> (a: GenerationStep)
        requires
            old(self).wf(),
            forall|r: usize, s: usize| r < old(self).width && s < old(self).depth ==> tester.requires((r, s)),
        ensures
            final(self).wf(),
            final(self).n_locales == old(self).n_locales,
            final(self).width == old(self).width,
            final(self).depth == old(self).depth,
            (a is Done) <==> old(self).locale == old(self).n_locales,
            a is Done ==> *final(self) == *old(self),
            !(a is Test),
            a matches GenerationStep::Bundle { locale, order } ==> {
                &&& locale == old(self).locale
                &&& final(self).locale == old(self).locale
                &&& final(self).emitted
                &&& extends(old(self).solver.solution.knowledge(), final(self).solver.solution.knowledge())
                &&& answered_by(old(self).solver.solution.knowledge(), final(self).solver.solution.knowledge(), *tester)
                &&& final(self).solver.solution.last@ == Some(order@)
                &&& emits(
                    final(self).solver.solution.knowledge(),
                    old(self).solver.solution.last@,
                    order@,
                    old(self).width as int,
                    old(self).depth as int,
                )
            },
            (a is ReportMissing || a is LocaleDone) ==> {
                &&& final(self).locale == old(self).locale + 1
                &&& !final(self).emitted
                &&& final(self).solver.solution.knowledge() == fresh_knowledge(old(self).width as nat, old(self).depth as nat)
                &&& exists|k: Knowledge| {
                    &&& extends(old(self).solver.solution.knowledge(), k)
                    &&& answered_by(old(self).solver.solution.knowledge(), k, *tester)
                    &&& (old(self).width == 0 || exhausted(
                        k,
                        old(self).solver.solution.last@,
                        old(self).width as int,
                        old(self).depth as int,
                    ))
                    &&& (a matches GenerationStep::ReportMissing { res, .. } ==> lists_dead_rows(
                        k,
                        res@,
                        old(self).width as int,
                        old(self).depth as int,
                    ))
                }
            },
            a matches GenerationStep::ReportMissing { locale, .. } ==> locale == old(self).locale && !old(self).emitted,
            a matches GenerationStep::LocaleDone { locale } ==> locale == old(self).locale && old(self).emitted,
    {
        if self.locale >= self.n_locales {
            return GenerationStep::Done;
        }
        match self.solver.next(tester) {
            Some(order) => {
                self.emitted = true;
                GenerationStep::Bundle { locale: self.locale, order }
            },
            None => {
                let ghost k = self.solver.solution.knowledge();
                let res = self.solver.solution.missing_resources();
                let locale = self.locale;
                let emitted = self.emitted;
                self.locale = self.locale + 1;
                self.solver = SerialProblemSolver::new(self.width, self.depth);
                self.emitted = false;
                proof {
                    assert(lists_dead_rows(k, res@, old(self).width as int, old(self).depth as int));
                    assert(self.solver.solution.knowledge() =~= fresh_knowledge(old(self).width as nat, old(self).depth as nat));
                }
                if emitted {
                    GenerationStep::LocaleDone { locale }
                } else {
                    GenerationStep::ReportMissing { locale, res }
                }
            },
        }
    }
}

/// Bundle generation over `n_locales` locales with the parallel solver.
pub struct BundleGeneration {
    pub n_locales: usize,
    pub locale: usize,
    pub width: usize,
    pub depth: usize,
    pub solver: ParallelProblemSolver,
    /// The current locale has given a bundle.
    pub emitted: bool,
}

impl BundleGeneration {
    /// The state between two steps.
    pub open spec fn wf(&self) -> bool {
        &&& self.locale <= self.n_locales
        &&& self.solver.wf()
        &&& self.solver.solution.width == self.width
        &&& self.solver.solution.depth == self.depth
        &&& !self.emitted ==> self.solver.solution.last@ is None
        &&& self.locale == self.n_locales ==> !self.solver.pending
    }

    /// Generation over `n_locales` locales, for `width` resources and
    /// `depth` sources.
    pub fn new(n_locales: usize, width: usize, depth: usize) -> (g: BundleGeneration)
        ensures
            g.wf(),
            !g.solver.pending,
            g.n_locales == n_locales,
            g.locale == 0,
            g.width == width,
            g.depth == depth,
            !g.emitted,
            g.solver.solution.knowledge() == fresh_knowledge(width as nat, depth as nat),
    {
        BundleGeneration {
            n_locales,
            locale: 0,
            width,
            depth,
            solver: ParallelProblemSolver::new(width, depth),
            emitted: false,
        }
    }

    /// The next step, while no batch is out. `Test` hands out a batch, whose
    /// answers go to `apply_test_result`.
    pub fn next_step(&mut self) -> (a: GenerationStep)
        requires
            old(self).wf(),
            !old(self).solver.pending,
        ensures
            final(self).wf(),
            final(self).n_locales == old(self).n_locales,
            final(self).width == old(self).width,
            final(self).depth == old(self).depth,
            (a is Done) <==> old(self).locale == old(self).n_locales,
            a is Done ==> *final(self) == *old(self),
            !(a is Bundle),
            (a is Test) <==> final(self).solver.pending,
            a matches GenerationStep::Test(q) ==> {
                &&& final(self).locale == old(self).locale
                &&& final(self).emitted == old(self).emitted
                &&& final(self).solver.solution.knowledge() == old(self).solver.solution.knowledge()
                &&& final(self).solver.solution.last@ == old(self).solver.solution.last@
                &&& q@.len() == final(self).solver.testing_cells@.len()
                &&& forall|i: int|
                    #![trigger q@[i]]
                    0 <= i < q@.len() ==> q@[i] == (
                        final(self).solver.testing_cells@[i],
                        final(self).solver.solution.candidate@[final(self).solver.testing_cells@[i] as int],
                    )
            },
            (a is ReportMissing || a is LocaleDone) ==> {
                &&& final(self).locale == old(self).locale + 1
                &&& !final(self).emitted
                &&& final(self).solver.solution.knowledge() == fresh_knowledge(old(self).width as nat, old(self).depth as nat)
                &&& (old(self).width == 0 || exhausted(
                    old(self).solver.solution.knowledge(),
                    old(self).solver.solution.last@,
                    old(self).width as int,
                    old(self).depth as int,
                ))
                &&& (a matches GenerationStep::ReportMissing { res, .. } ==> lists_dead_rows(
                    old(self).solver.solution.knowledge(),
                    res@,
                    old(self).width as int,
                    old(self).depth as int,
                ))
            },
            a matches GenerationStep::ReportMissing { locale, .. } ==> locale == old(self).locale && !old(self).emitted,
            a matches GenerationStep::LocaleDone { locale } ==> locale == old(self).locale && old(self).emitted,
    {
        if self.locale >= self.n_locales {
            return GenerationStep::Done;
        }
        match self.solver.try_generate_test_query() {
            Some(q) => GenerationStep::Test(q),
            None => {
                let res = self.solver.solution.missing_resources();
                let locale = self.locale;
                let emitted = self.emitted;
                self.locale = self.locale + 1;
                self.solver = ParallelProblemSolver::new(self.width, self.depth);
                self.emitted = false;
                proof {
                    assert(self.solver.solution.knowledge() =~= fresh_knowledge(old(self).width as nat, old(self).depth as nat));
                }
                if emitted {
                    GenerationStep::LocaleDone { locale }
                } else {
                    GenerationStep::ReportMissing { locale, res }
                }
            },
        }
    }

    /// Takes the answers to the batch handed out last, in order. Returns the
    /// assignment whose bundle the locale at position `locale` gets, when
    /// every cell of it is present.
    pub fn apply_test_result(&mut self, results: &Vec<bool>) -> (r: Option<Vec<usize>>)
        requires
            old(self).wf(),
            old(self).solver.pending,
            results@.len() == old(self).solver.testing_cells@.len(),
        ensures
            final(self).wf(),
            !final(self).solver.pending,
            final(self).n_locales == old(self).n_locales,
            final(self).locale == old(self).locale,
            final(self).width == old(self).width,
            final(self).depth == old(self).depth,
            extends(old(self).solver.solution.knowledge(), final(self).solver.solution.knowledge()),
            forall|i: int|
                #![trigger old(self).solver.testing_cells@[i]]
                0 <= i < results@.len() ==> final(self).solver.solution.knowledge()[old(self).solver.testing_cells@[i] as int][old(self).solver.solution.candidate@[old(self).solver.testing_cells@[i] as int] as int]
                    == Some(results@[i]),
            match r {
                Some(c) => {
                    &&& final(self).emitted
                    &&& final(self).solver.solution.last@ == Some(c@)
                    &&& emits(
                        final(self).solver.solution.knowledge(),
                        old(self).solver.solution.last@,
                        c@,
                        old(self).width as int,
                        old(self).depth as int,
                    )
                },
                None => final(self).emitted == old(self).emitted && final(self).solver.solution.last@
                    == old(self).solver.solution.last@,
            },
    {
        let r = self.solver.apply_test_result(results);
        if r.is_some() {
            self.emitted = true;
        }
        r
    }
}

/// The resource kept for resource `res_id` by the source at priority
/// position `index` of `reg`, for `locale`, when its outcome is cached as
/// loaded.
pub open spec fn loaded_cell(reg: &L10nRegistry, locale: Seq<char>, res_id: Seq<char>, index: int) -> Option<
    usize,
> {
    let src = reg.sources@[reg.sources@.len() - 1 - index];
    match sync_step(src.cache(), src.path_of(locale, res_id)) {
        Some(Some(h)) => Some(h),
        _ => None,
    }
}

/// For each resource in order, the registration position of the source
/// that `order` chose for it (`order` counts in priority order) and the
/// index of the resource that source keeps for it. `None` when one of
/// those cells is not cached as loaded.
pub fn resources_for_order(
    reg: &L10nRegistry,
    locale: &str,
    order: &Vec<usize>,
    res_ids: &Vec<String>,
) -> (r: Option<Vec<(usize, usize)>>)
    requires
        reg.wf(),
        order@.len() == res_ids@.len(),
        forall|i: int| 0 <= i < order@.len() ==> (#[trigger] order@[i]) < reg.sources@.len(),
    ensures
        r is Some <==> forall|i: int|
            0 <= i < order@.len() ==> (#[trigger] loaded_cell(reg, locale@, res_ids@[i]@, order@[i] as int)) is Some,
        r matches Some(v) ==> v@.len() == order@.len() && forall|i: int|
            #![trigger v@[i]]
            0 <= i < v@.len() ==> v@[i].0 == reg.sources@.len() - 1 - order@[i] && loaded_cell(
                reg,
                locale@,
                res_ids@[i]@,
                order@[i] as int,
            ) == Some(v@[i].1),
{
    let mut out: Vec<(usize, usize)> = Vec::new();
    let mut i: usize = 0;
    while i < order.len()
        invariant
            reg.wf(),
            order@.len() == res_ids@.len(),
            forall|j: int| 0 <= j < order@.len() ==> (#[trigger] order@[j]) < reg.sources@.len(),
            i <= order@.len(),
            out@.len() == i,
            forall|j: int|
                #![trigger out@[j]]
                0 <= j < i ==> out@[j].0 == reg.sources@.len() - 1 - order@[j] && loaded_cell(
                    reg,
                    locale@,
                    res_ids@[j]@,
                    order@[j] as int,
                ) == Some(out@[j].1),
        decreases order@.len() - i,
    {
        let index = order[i];
        let src = reg.source_idx(index);
        let pos = reg.len() - 1 - index;
        proof {
            assert(src.wf());
        }
        match src.lookup_sync(locale, res_ids[i].as_str()) {
            SyncLookup::Cached(Some(h)) => {
                out.push((pos, h));
            },
            _ => {
                proof {
                    assert(loaded_cell(reg, locale@, res_ids@[i as int]@, order@[i as int] as int) is None);
                }
                return None;
            },
        }
        i = i + 1;
    }
    proof {
        assert forall|j: int| 0 <= j < order@.len() implies (#[trigger] loaded_cell(reg, locale@, res_ids@[j]@, order@[j] as int)) is Some by {
            assert(out@[j].0 == reg.sources@.len() - 1 - order@[j]);
        }
    }
    Some(out)
}

} // verus!
