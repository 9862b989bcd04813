//! Properties of the enumeration that hold of both solvers, stated over the
//! predicates their contracts use: `emits` for a candidate handed out after
//! `last`, `exhausted` for the end of the search, `learned_from` and
//! `answered_by` for the answers a call added to the memo.
use vstd::prelude::*;

use crate::serial::answered_by;
use crate::generation::fresh_knowledge;
use crate::search::{
    Knowledge, after, agrees_with, all_present, blocked, emits, exhausted, extends, is_candidate,
    knowledge_shape, learned_from, lex_lt, next_valid, valid_in, lemma_lex_asymmetric,
    lemma_lex_total,
};

verus! {

/// Answers learned from `truth` keep a memo that agrees with `truth` in
/// agreement with it.
pub proof fn lemma_learning_keeps_agreement(
    k: Knowledge,
    k2: Knowledge,
    truth: spec_fn(int, int) -> bool,
)
    requires
        agrees_with(k, truth),
        extends(k, k2),
        learned_from(k, k2, truth),
    ensures
        agrees_with(k2, truth),
{
    assert forall|r: int, s: int|
        0 <= r < k2.len() && 0 <= s < k2[r].len() && #[trigger] k2[r][s] is Some implies k2[r][s]
        == Some(truth(r, s)) by {
        if k[r][s] is Some {
            assert(k[r][s] == Some(truth(r, s)));
        }
    }
}

/// A tester whose every answer is the one `truth` gives keeps the serial
/// solver's memo in agreement with `truth`.
pub proof fn lemma_tester_keeps_agreement<F: Fn(usize, usize) -> bool>(
    k: Knowledge,
    k2: Knowledge,
    truth: spec_fn(int, int) -> bool,
    tester: F,
    width: usize,
    depth: usize,
)
    requires
        knowledge_shape(k, width as int, depth as int),
        agrees_with(k, truth),
        extends(k, k2),
        answered_by(k, k2, tester),
        forall|r: usize, s: usize, b: bool| #[trigger] tester.ensures((r, s), b) ==> b == truth(r as int, s as int),
    ensures
        agrees_with(k2, truth),
{
    assert forall|r: int, s: int|
        0 <= r < k2.len() && 0 <= s < k2[r].len() && #[trigger] k2[r][s] is Some implies k2[r][s]
        == Some(truth(r, s)) by {
        if k[r][s] is Some {
            assert(k[r][s] == Some(truth(r, s)));
        } else {
            assert(r < width && s < depth);
            assert(tester.ensures((r as usize, s as usize), k2[r][s].unwrap()));
            assert((r as usize) as int == r && (s as usize) as int == s);
        }
    }
}

/// A cell known to be missing rules out every candidate through it, for
/// knowledge that agrees with `truth`.
proof fn lemma_blocked_invalid(
    k: Knowledge,
    truth: spec_fn(int, int) -> bool,
    c: Seq<usize>,
    width: int,
    depth: int,
)
    requires
        knowledge_shape(k, width, depth),
        agrees_with(k, truth),
        is_candidate(c, width, depth),
        blocked(k, c),
    ensures
        !valid_in(truth, c),
{
    let r = choose|r: int| #![trigger c[r]] 0 <= r < c.len() && k[r][c[r] as int] == Some(false);
    assert(k[r][c[r] as int] == Some(truth(r, c[r] as int)));
}

/// Soundness: every candidate handed out is valid. For every resource `r`,
/// the source `c[r]` holds it.
pub proof fn law_emitted_is_valid(
    k: Knowledge,
    truth: spec_fn(int, int) -> bool,
    last: Option<Seq<usize>>,
    c: Seq<usize>,
    width: int,
    depth: int,
)
    requires
        knowledge_shape(k, width, depth),
        agrees_with(k, truth),
        emits(k, last, c, width, depth),
    ensures
        valid_in(truth, c),
{
    assert forall|r: int| 0 <= r < c.len() implies truth(r, #[trigger] c[r] as int) by {
        assert(k[r][c[r] as int] == Some(true));
    }
}

/// Deterministic enumeration: two solvers whose answers come from the same
/// `truth` (the serial one, cell by cell, and the parallel one, in batches)
/// hand out the same candidate after the same `last`.
pub proof fn law_same_next_candidate(
    truth: spec_fn(int, int) -> bool,
    k1: Knowledge,
    k2: Knowledge,
    last: Option<Seq<usize>>,
    c1: Seq<usize>,
    c2: Seq<usize>,
    width: int,
    depth: int,
)
    requires
        knowledge_shape(k1, width, depth),
        knowledge_shape(k2, width, depth),
        agrees_with(k1, truth),
        agrees_with(k2, truth),
        emits(k1, last, c1, width, depth),
        emits(k2, last, c2, width, depth),
    ensures
        c1 == c2,
{
    law_emitted_is_valid(k1, truth, last, c1, width, depth);
    law_emitted_is_valid(k2, truth, last, c2, width, depth);
    if c1 != c2 {
        lemma_lex_total(c1, c2);
        if lex_lt(c1, c2) {
            lemma_blocked_invalid(k2, truth, c1, width, depth);
        } else {
            lemma_blocked_invalid(k1, truth, c2, width, depth);
        }
    }
}

/// Deterministic enumeration: when answers come from the same `truth`, one
/// solver cannot stop where the other hands out a candidate.
pub proof fn law_same_end(
    truth: spec_fn(int, int) -> bool,
    k1: Knowledge,
    k2: Knowledge,
    last: Option<Seq<usize>>,
    c: Seq<usize>,
    width: int,
    depth: int,
)
    requires
        knowledge_shape(k1, width, depth),
        knowledge_shape(k2, width, depth),
        agrees_with(k1, truth),
        agrees_with(k2, truth),
        emits(k1, last, c, width, depth),
    ensures
        !exhausted(k2, last, width, depth),
{
    law_emitted_is_valid(k1, truth, last, c, width, depth);
    if exhausted(k2, last, width, depth) {
        assert(is_candidate(c, width, depth) && after(last, c));
        lemma_blocked_invalid(k2, truth, c, width, depth);
    }
}

/// Lexicographic priority: a valid candidate that comes before the one
/// handed out is not ahead of `last`, so it was handed out earlier.
pub proof fn law_lexicographic_priority(
    truth: spec_fn(int, int) -> bool,
    k: Knowledge,
    last: Option<Seq<usize>>,
    c: Seq<usize>,
    earlier: Seq<usize>,
    width: int,
    depth: int,
)
    requires
        knowledge_shape(k, width, depth),
        agrees_with(k, truth),
        emits(k, last, c, width, depth),
        is_candidate(earlier, width, depth),
        valid_in(truth, earlier),
        lex_lt(earlier, c),
    ensures
        !after(last, earlier),
{
    if after(last, earlier) {
        lemma_blocked_invalid(k, truth, earlier, width, depth);
    }
}

/// Completeness: no valid candidate ahead of `last` is passed over. The one
/// handed out is it, or comes before it.
pub proof fn law_nothing_skipped(
    truth: spec_fn(int, int) -> bool,
    k: Knowledge,
    last: Option<Seq<usize>>,
    c: Seq<usize>,
    other: Seq<usize>,
    width: int,
    depth: int,
)
    requires
        knowledge_shape(k, width, depth),
        agrees_with(k, truth),
        emits(k, last, c, width, depth),
        is_candidate(other, width, depth),
        valid_in(truth, other),
        after(last, other),
    ensures
        c == other || lex_lt(c, other),
{
    if c != other {
        lemma_lex_total(c, other);
        if lex_lt(other, c) {
            lemma_blocked_invalid(k, truth, other, width, depth);
        }
    }
}

/// Completeness: when the search ends, no valid candidate is left ahead of
/// `last`.
pub proof fn law_nothing_left(
    truth: spec_fn(int, int) -> bool,
    k: Knowledge,
    last: Option<Seq<usize>>,
    other: Seq<usize>,
    width: int,
    depth: int,
)
    requires
        knowledge_shape(k, width, depth),
        agrees_with(k, truth),
        exhausted(k, last, width, depth),
        is_candidate(other, width, depth),
        valid_in(truth, other),
    ensures
        !after(last, other),
{
    if after(last, other) {
        lemma_blocked_invalid(k, truth, other, width, depth);
    }
}

/// Exactly once: a candidate handed out after `last` comes strictly after
/// it, so no candidate is handed out twice.
pub proof fn law_strictly_increasing(
    k: Knowledge,
    last: Seq<usize>,
    c: Seq<usize>,
    width: int,
    depth: int,
)
    requires
        emits(k, Some(last), c, width, depth),
    ensures
        lex_lt(last, c),
        c != last,
{
    lemma_lex_asymmetric(last, c);
}

/// Pruning monotonicity: once cell `(r, s)` is recorded missing, no
/// candidate handed out later chooses source `s` for resource `r`.
pub proof fn law_missing_cell_never_chosen(
    k_then: Knowledge,
    k_now: Knowledge,
    c: Seq<usize>,
    r: int,
    s: int,
    width: int,
    depth: int,
)
    requires
        knowledge_shape(k_then, width, depth),
        is_candidate(c, width, depth),
        extends(k_then, k_now),
        0 <= r < width,
        0 <= s < depth,
        k_then[r][s] == Some(false),
        all_present(k_now, c),
    ensures
        c[r] != s,
{
    assert(k_now[r][s] == Some(false));
    assert(k_now[r][c[r] as int] == Some(true));
}

/// A solver that has tested nothing agrees with every truth.
pub proof fn lemma_fresh_agrees(width: nat, depth: nat, truth: spec_fn(int, int) -> bool)
    ensures
        agrees_with(fresh_knowledge(width, depth), truth),
        knowledge_shape(fresh_knowledge(width, depth), width as int, depth as int),
{
}

/// What a serial `next` hands out, with a tester that answers by `truth`
/// and a memo that agreed with `truth` before the call, is the next valid
/// assignment after `last`: valid, and no valid assignment lies between.
/// The memo still agrees with `truth` afterwards.
pub proof fn law_serial_next_is_next_valid<F: Fn(usize, usize) -> bool>(
    truth: spec_fn(int, int) -> bool,
    tester: F,
    k_old: Knowledge,
    k_new: Knowledge,
    last: Option<Seq<usize>>,
    c: Seq<usize>,
    width: usize,
    depth: usize,
)
    requires
        knowledge_shape(k_old, width as int, depth as int),
        agrees_with(k_old, truth),
        extends(k_old, k_new),
        answered_by(k_old, k_new, tester),
        forall|r: usize, s: usize, b: bool| #[trigger] tester.ensures((r, s), b) ==> b == truth(r as int, s as int),
        emits(k_new, last, c, width as int, depth as int),
    ensures
        agrees_with(k_new, truth),
        next_valid(truth, last, c, width as int, depth as int),
{
    lemma_tester_keeps_agreement(k_old, k_new, truth, tester, width, depth);
    assert(knowledge_shape(k_new, width as int, depth as int));
    law_emitted_is_valid(k_new, truth, last, c, width as int, depth as int);
    assert forall|c2: Seq<usize>|
        is_candidate(c2, width as int, depth as int) && after(last, c2) && #[trigger] lex_lt(c2, c)
        implies !valid_in(truth, c2) by {
        lemma_blocked_invalid(k_new, truth, c2, width as int, depth as int);
    }
}

/// When a serial `next` with a tester that answers by `truth` ends the
/// search, no valid assignment is left after `last`.
pub proof fn law_serial_end_is_final<F: Fn(usize, usize) -> bool>(
    truth: spec_fn(int, int) -> bool,
    tester: F,
    k_old: Knowledge,
    k_new: Knowledge,
    last: Option<Seq<usize>>,
    other: Seq<usize>,
    width: usize,
    depth: usize,
)
    requires
        knowledge_shape(k_old, width as int, depth as int),
        agrees_with(k_old, truth),
        extends(k_old, k_new),
        answered_by(k_old, k_new, tester),
        forall|r: usize, s: usize, b: bool| #[trigger] tester.ensures((r, s), b) ==> b == truth(r as int, s as int),
        exhausted(k_new, last, width as int, depth as int),
        is_candidate(other, width as int, depth as int),
        valid_in(truth, other),
    ensures
        agrees_with(k_new, truth),
        !after(last, other),
{
    lemma_tester_keeps_agreement(k_old, k_new, truth, tester, width, depth);
    assert(knowledge_shape(k_new, width as int, depth as int));
    law_nothing_left(truth, k_new, last, other, width as int, depth as int);
}

/// What the parallel solver hands out, when every answer handed back was
/// the one `truth` gives and the memo agreed with `truth` before, is the
/// next valid assignment after `last`.
pub proof fn law_parallel_next_is_next_valid(
    truth: spec_fn(int, int) -> bool,
    k_old: Knowledge,
    k_new: Knowledge,
    last: Option<Seq<usize>>,
    c: Seq<usize>,
    width: int,
    depth: int,
)
    requires
        knowledge_shape(k_old, width, depth),
        agrees_with(k_old, truth),
        extends(k_old, k_new),
        learned_from(k_old, k_new, truth),
        emits(k_new, last, c, width, depth),
    ensures
        agrees_with(k_new, truth),
        next_valid(truth, last, c, width, depth),
{
    lemma_learning_keeps_agreement(k_old, k_new, truth);
    assert(knowledge_shape(k_new, width, depth));
    law_emitted_is_valid(k_new, truth, last, c, width, depth);
    assert forall|c2: Seq<usize>|
        is_candidate(c2, width, depth) && after(last, c2) && #[trigger] lex_lt(c2, c)
        implies !valid_in(truth, c2) by {
        lemma_blocked_invalid(k_new, truth, c2, width, depth);
    }
}

/// Deterministic enumeration, step by step: the next valid assignment
/// after `last` is one assignment, so the serial and parallel solvers, each
/// handing out the next valid one, hand out the same.
pub proof fn law_next_valid_unique(
    truth: spec_fn(int, int) -> bool,
    last: Option<Seq<usize>>,
    c1: Seq<usize>,
    c2: Seq<usize>,
    width: int,
    depth: int,
)
    requires
        next_valid(truth, last, c1, width, depth),
        next_valid(truth, last, c2, width, depth),
    ensures
        c1 == c2,
{
    if c1 != c2 {
        lemma_lex_total(c1, c2);
    }
}

} // verus!
