//! The search space of the fallback solver, as mathematics.
//!
//! A *candidate* assigns a source index in `[0, depth)` to each of `width`
//! resources. The solver's *knowledge* is a `width × depth` matrix of
//! `Option<bool>`: `None` for a cell not tested yet, `Some(false)` for a
//! resource known to be missing from a source, `Some(true)` for one known to
//! be present. Candidates are enumerated in lexicographic order.
use vstd::prelude::*;

verus! {

/// What is known of each (resource, source) cell.
pub type Knowledge = Seq<Seq<Option<bool>>>;

/// `c` assigns a source in `[0, depth)` to each of `width` resources.
pub open spec fn is_candidate(c: Seq<usize>, width: int, depth: int) -> bool {
    &&& c.len() == width
    &&& forall|i: int| 0 <= i < width ==> #[trigger] c[i] < depth
}

/// `k` has one row of `depth` cells for each of `width` resources.
pub open spec fn knowledge_shape(k: Knowledge, width: int, depth: int) -> bool {
    &&& k.len() == width
    &&& forall|r: int| 0 <= r < width ==> #[trigger] k[r].len() == depth
}

/// `a` and `b` hold the same entries at the first `n` positions.
pub open spec fn agree_upto(a: Seq<usize>, b: Seq<usize>, n: int) -> bool {
    forall|j: int| 0 <= j < n ==> #[trigger] a[j] == b[j]
}

/// `a` and `b` have one length and differ at most at position `i`.
pub open spec fn same_except(a: Seq<usize>, b: Seq<usize>, i: int) -> bool {
    &&& a.len() == b.len()
    &&& forall|j: int| 0 <= j < a.len() && j != i ==> #[trigger] a[j] == b[j]
}

/// On its first `n` positions, `a` comes before `b` in lexicographic order.
pub open spec fn prefix_lt(a: Seq<usize>, b: Seq<usize>, n: int) -> bool {
    exists|m: int| #![trigger a[m], b[m]] 0 <= m < n && a[m] < b[m] && agree_upto(a, b, m)
}

/// `a` comes strictly before `b` in lexicographic order.
pub open spec fn lex_lt(a: Seq<usize>, b: Seq<usize>) -> bool {
    a.len() == b.len() && prefix_lt(a, b, a.len() as int)
}

/// Some cell chosen by `c` is known to be missing.
pub open spec fn blocked(k: Knowledge, c: Seq<usize>) -> bool {
    exists|r: int| #![trigger c[r]] 0 <= r < c.len() && k[r][c[r] as int] == Some(false)
}

/// Row `r` of `k` is known to be missing from every one of `depth` sources.
pub open spec fn dead_row(k: Knowledge, r: int, depth: int) -> bool {
    forall|s: int| 0 <= s < depth ==> #[trigger] k[r][s] == Some(false)
}

/// No cell chosen by `c` before position `n` is known to be missing.
pub open spec fn prefix_clear(k: Knowledge, c: Seq<usize>, n: int) -> bool {
    forall|j: int| #![trigger c[j]] 0 <= j < n ==> k[j][c[j] as int] != Some(false)
}

/// Every cell chosen by `c` is known to be present.
pub open spec fn all_present(k: Knowledge, c: Seq<usize>) -> bool {
    forall|r: int| #![trigger c[r]] 0 <= r < c.len() ==> k[r][c[r] as int] == Some(true)
}

/// Every cell chosen by `c` is present according to `truth`, which tells
/// whether resource `r` is available from source `s`.
pub open spec fn valid_in(truth: spec_fn(int, int) -> bool, c: Seq<usize>) -> bool {
    forall|r: int| #![trigger c[r]] 0 <= r < c.len() ==> truth(r, c[r] as int)
}

/// `c` still lies ahead of the search when `last` is the latest candidate
/// handed out (`None`: none yet).
pub open spec fn after(last: Option<Seq<usize>>, c: Seq<usize>) -> bool {
    match last {
        None => true,
        Some(l) => lex_lt(l, c),
    }
}

/// Every candidate ahead of `last` whose first `n` entries come before those
/// of `cursor` is blocked.
pub open spec fn cleared_below(
    k: Knowledge,
    last: Option<Seq<usize>>,
    cursor: Seq<usize>,
    n: int,
    width: int,
    depth: int,
) -> bool {
    forall|c: Seq<usize>|
        #![trigger prefix_lt(c, cursor, n)]
        is_candidate(c, width, depth) && after(last, c) && prefix_lt(c, cursor, n) ==> blocked(k, c)
}

/// As `cleared_below`, and the candidates that share the first `n` entries
/// of `cursor` are blocked as well.
pub open spec fn cleared_through(
    k: Knowledge,
    last: Option<Seq<usize>>,
    cursor: Seq<usize>,
    n: int,
    width: int,
    depth: int,
) -> bool {
    &&& cleared_below(k, last, cursor, n, width, depth)
    &&& forall|c: Seq<usize>|
        #![trigger agree_upto(c, cursor, n)]
        is_candidate(c, width, depth) && after(last, c) && agree_upto(c, cursor, n) ==> blocked(k, c)
}

/// Every candidate ahead of `last` is blocked: nothing is left to find.
pub open spec fn exhausted(k: Knowledge, last: Option<Seq<usize>>, width: int, depth: int) -> bool {
    forall|c: Seq<usize>| #[trigger] is_candidate(c, width, depth) && after(last, c) ==> blocked(k, c)
}

/// Past position `idx`, each entry of `cursor` is preceded in its row only
/// by cells known to be missing.
pub open spec fn tail_minimal(k: Knowledge, cursor: Seq<usize>, idx: int) -> bool {
    forall|i: int, s: int|
        #![trigger k[i][s], cursor[i]]
        idx < i < cursor.len() && 0 <= s < cursor[i] ==> k[i][s] == Some(false)
}

/// `k2` keeps every answer of `k` and may know more.
pub open spec fn extends(k: Knowledge, k2: Knowledge) -> bool {
    &&& k2.len() == k.len()
    &&& forall|r: int| 0 <= r < k.len() ==> (#[trigger] k2[r]).len() == k[r].len()
    &&& forall|r: int, s: int|
        #![trigger k2[r][s]]
        0 <= r < k.len() && 0 <= s < k[r].len() && k[r][s] is Some ==> k2[r][s] == k[r][s]
}

/// Every answer in `k` agrees with `truth`.
pub open spec fn agrees_with(k: Knowledge, truth: spec_fn(int, int) -> bool) -> bool {
    forall|r: int, s: int|
        #![trigger k[r][s]]
        0 <= r < k.len() && 0 <= s < k[r].len() && k[r][s] is Some ==> k[r][s] == Some(
            truth(r, s),
        )
}

/// Every answer that `k2` holds and `k` did not is the one `truth` gives.
pub open spec fn learned_from(k: Knowledge, k2: Knowledge, truth: spec_fn(int, int) -> bool) -> bool {
    forall|r: int, s: int|
        #![trigger k2[r][s]]
        0 <= r < k.len() && 0 <= s < k[r].len() && k[r][s] is None && k2[r][s] is Some ==> k2[r][s]
            == Some(truth(r, s))
}

/// Handing out `c` after `last` is justified by the knowledge `k`: every
/// cell of `c` is known to be present, and every candidate between `last`
/// and `c` has a cell known to be missing.
pub open spec fn emits(
    k: Knowledge,
    last: Option<Seq<usize>>,
    c: Seq<usize>,
    width: int,
    depth: int,
) -> bool {
    &&& is_candidate(c, width, depth)
    &&& after(last, c)
    &&& all_present(k, c)
    &&& forall|c2: Seq<usize>|
        #![trigger lex_lt(c2, c)]
        is_candidate(c2, width, depth) && after(last, c2) && lex_lt(c2, c) ==> blocked(k, c2)
}

/// `c` is the next candidate after `last` under `truth`: it is valid, and no
/// valid candidate lies between `last` and `c`.
pub open spec fn next_valid(
    truth: spec_fn(int, int) -> bool,
    last: Option<Seq<usize>>,
    c: Seq<usize>,
    width: int,
    depth: int,
) -> bool {
    &&& is_candidate(c, width, depth)
    &&& after(last, c)
    &&& valid_in(truth, c)
    &&& forall|c2: Seq<usize>|
        #![trigger lex_lt(c2, c)]
        is_candidate(c2, width, depth) && after(last, c2) && lex_lt(c2, c) ==> !valid_in(truth, c2)
}

/// `b^e`.
pub open spec fn pow(b: nat, e: nat) -> nat
    decreases e,
{
    if e == 0 {
        1
    } else {
        b * pow(b, (e - 1) as nat)
    }
}

/// The number whose base-`d` digits are the entries of `c`, most significant
/// first.
pub open spec fn rank(c: Seq<usize>, d: nat) -> nat
    decreases c.len(),
{
    if c.len() == 0 {
        0
    } else {
        rank(c.drop_last(), d) * d + c.last() as nat
    }
}

// ---------------------------------------------------------------------------
// Lemmas on the order and on the cleared regions.

pub proof fn lemma_prefix_lt_grow(a: Seq<usize>, b: Seq<usize>, n: int, m: int)
    requires
        prefix_lt(a, b, n),
        n <= m,
    ensures
        prefix_lt(a, b, m),
{
    let j = choose|j: int| #![trigger a[j], b[j]] 0 <= j < n && a[j] < b[j] && agree_upto(a, b, j);
    assert(a[j] < b[j]);
}

pub proof fn lemma_lex_irreflexive(a: Seq<usize>)
    ensures
        !lex_lt(a, a),
{
    if lex_lt(a, a) {
        let j = choose|j: int|
            #![trigger a[j], a[j]]
            0 <= j < a.len() && a[j] < a[j] && agree_upto(a, a, j);
    }
}

pub proof fn lemma_lex_asymmetric(a: Seq<usize>, b: Seq<usize>)
    requires
        lex_lt(a, b),
    ensures
        !lex_lt(b, a),
{
    let j = choose|j: int| #![trigger a[j], b[j]] 0 <= j < a.len() && a[j] < b[j] && agree_upto(a, b, j);
    if lex_lt(b, a) {
        let i = choose|i: int| #![trigger b[i], a[i]] 0 <= i < b.len() && b[i] < a[i] && agree_upto(b, a, i);
        if i < j {
            assert(a[i] == b[i]);
        } else if j < i {
            assert(b[j] == a[j]);
        }
    }
}

pub proof fn lemma_lex_transitive(a: Seq<usize>, b: Seq<usize>, c: Seq<usize>)
    requires
        lex_lt(a, b),
        lex_lt(b, c),
    ensures
        lex_lt(a, c),
{
    let i = choose|i: int| #![trigger a[i], b[i]] 0 <= i < a.len() && a[i] < b[i] && agree_upto(a, b, i);
    let j = choose|j: int| #![trigger b[j], c[j]] 0 <= j < b.len() && b[j] < c[j] && agree_upto(b, c, j);
    let m = if i < j { i } else { j };
    assert(agree_upto(a, c, m)) by {
        assert forall|x: int| 0 <= x < m implies #[trigger] a[x] == c[x] by {
            assert(a[x] == b[x]);
            assert(b[x] == c[x]);
        }
    }
    if i < j {
        assert(b[i] == c[i]);
    } else if j < i {
        assert(a[j] == b[j]);
    }
    assert(a[m] < c[m]);
}

/// Two distinct sequences of one length are ordered one way or the other.
pub proof fn lemma_lex_total(a: Seq<usize>, b: Seq<usize>)
    requires
        a.len() == b.len(),
        a != b,
    ensures
        lex_lt(a, b) || lex_lt(b, a),
    decreases a.len(),
{
    if a.len() == 0 {
        assert(a =~= b);
    } else {
        let a0 = a.drop_last();
        let b0 = b.drop_last();
        if a0 == b0 {
            assert(a.last() != b.last()) by {
                if a.last() == b.last() {
                    assert(a =~= b) by {
                        assert forall|x: int| 0 <= x < a.len() implies a[x] == b[x] by {
                            if x < a.len() - 1 {
                                assert(a0[x] == b0[x]);
                            }
                        }
                    }
                }
            }
            let m = a.len() - 1;
            assert(agree_upto(a, b, m)) by {
                assert forall|x: int| 0 <= x < m implies #[trigger] a[x] == b[x] by {
                    assert(a0[x] == b0[x]);
                }
            }
            assert(agree_upto(b, a, m)) by {
                assert forall|x: int| 0 <= x < m implies #[trigger] b[x] == a[x] by {
                    assert(a0[x] == b0[x]);
                }
            }
            if a[m] < b[m] {
                assert(a[m] < b[m]);
            } else {
                assert(b[m] < a[m]);
            }
        } else {
            lemma_lex_total(a0, b0);
            if lex_lt(a0, b0) {
                let j = choose|j: int|
                    #![trigger a0[j], b0[j]]
                    0 <= j < a0.len() && a0[j] < b0[j] && agree_upto(a0, b0, j);
                assert(agree_upto(a, b, j)) by {
                    assert forall|x: int| 0 <= x < j implies #[trigger] a[x] == b[x] by {
                        assert(a0[x] == b0[x]);
                    }
                }
                assert(a[j] < b[j]);
            } else {
                let j = choose|j: int|
                    #![trigger b0[j], a0[j]]
                    0 <= j < b0.len() && b0[j] < a0[j] && agree_upto(b0, a0, j);
                assert(agree_upto(b, a, j)) by {
                    assert forall|x: int| 0 <= x < j implies #[trigger] b[x] == a[x] by {
                        assert(a0[x] == b0[x]);
                    }
                }
                assert(b[j] < a[j]);
            }
        }
    }
}

/// A cell known to be missing clears the candidates that pass through it.
pub proof fn lemma_through_missing(
    k: Knowledge,
    last: Option<Seq<usize>>,
    cur: Seq<usize>,
    n: int,
    width: int,
    depth: int,
)
    requires
        cleared_below(k, last, cur, n, width, depth),
        0 < n <= width,
        cur.len() == width,
        k[n - 1][cur[n - 1] as int] == Some(false),
    ensures
        cleared_through(k, last, cur, n, width, depth),
{
    assert forall|c: Seq<usize>|
        is_candidate(c, width, depth) && after(last, c) && #[trigger] agree_upto(
            c,
            cur,
            n,
        ) implies blocked(k, c) by {
        assert(c[n - 1] == cur[n - 1]);
    }
}

/// A full candidate handed out last is not ahead of the search.
pub proof fn lemma_through_last(
    k: Knowledge,
    cur: Seq<usize>,
    width: int,
    depth: int,
)
    requires
        cleared_below(k, Some(cur), cur, width, width, depth),
        cur.len() == width,
    ensures
        cleared_through(k, Some(cur), cur, width, width, depth),
{
    assert forall|c: Seq<usize>|
        is_candidate(c, width, depth) && after(Some(cur), c) && #[trigger] agree_upto(
            c,
            cur,
            width,
        ) implies blocked(k, c) by {
        assert(c =~= cur);
        lemma_lex_irreflexive(cur);
    }
}

/// Moving the entry at `n - 1` one step on keeps everything behind the
/// cursor cleared.
pub proof fn lemma_bump(
    k: Knowledge,
    last: Option<Seq<usize>>,
    cur: Seq<usize>,
    n: int,
    width: int,
    depth: int,
)
    requires
        cleared_through(k, last, cur, n, width, depth),
        0 < n <= cur.len(),
    ensures
        cleared_below(k, last, cur.update(n - 1, (cur[n - 1] + 1) as usize), n, width, depth),
{
    let cur2 = cur.update(n - 1, (cur[n - 1] + 1) as usize);
    assert forall|c: Seq<usize>|
        is_candidate(c, width, depth) && after(last, c) && #[trigger] prefix_lt(
            c,
            cur2,
            n,
        ) implies blocked(k, c) by {
        let m = choose|m: int| #![trigger c[m], cur2[m]] 0 <= m < n && c[m] < cur2[m] && agree_upto(c, cur2, m);
        assert(agree_upto(c, cur, m)) by {
            assert forall|x: int| 0 <= x < m implies #[trigger] c[x] == cur[x] by {
                assert(c[x] == cur2[x]);
            }
        }
        if m < n - 1 {
            assert(c[m] < cur[m]);
            assert(prefix_lt(c, cur, n));
        } else if c[m] < cur[m] {
            assert(prefix_lt(c, cur, n));
        } else {
            assert(agree_upto(c, cur, n));
        }
    }
}

/// At the last source of its row, a cleared cursor clears its parent.
pub proof fn lemma_step_back(
    k: Knowledge,
    last: Option<Seq<usize>>,
    cur: Seq<usize>,
    n: int,
    width: int,
    depth: int,
)
    requires
        cleared_through(k, last, cur, n, width, depth),
        0 < n <= cur.len(),
        cur.len() == width,
        cur[n - 1] == depth - 1,
    ensures
        cleared_through(k, last, cur, n - 1, width, depth),
{
    assert forall|c: Seq<usize>|
        is_candidate(c, width, depth) && after(last, c) && #[trigger] prefix_lt(
            c,
            cur,
            n - 1,
        ) implies blocked(k, c) by {
        lemma_prefix_lt_grow(c, cur, n - 1, n);
    }
    assert forall|c: Seq<usize>|
        is_candidate(c, width, depth) && after(last, c) && #[trigger] agree_upto(
            c,
            cur,
            n - 1,
        ) implies blocked(k, c) by {
        assert(c[n - 1] < depth);
        if c[n - 1] < cur[n - 1] {
            assert(prefix_lt(c, cur, n));
        } else {
            assert forall|x: int| 0 <= x < n implies #[trigger] c[x] == cur[x] by {
                if x < n - 1 {
                    assert(agree_upto(c, cur, n - 1));
                }
            }
            assert(agree_upto(c, cur, n));
        }
    }
}

/// A cursor that is cleared all the way back to the root leaves nothing.
pub proof fn lemma_root_cleared(
    k: Knowledge,
    last: Option<Seq<usize>>,
    cur: Seq<usize>,
    width: int,
    depth: int,
)
    requires
        cleared_through(k, last, cur, 0, width, depth),
    ensures
        exhausted(k, last, width, depth),
{
    assert forall|c: Seq<usize>| #[trigger] is_candidate(c, width, depth) && after(last, c) implies blocked(k, c) by {
        assert(agree_upto(c, cur, 0));
    }
}

/// Going one position deeper keeps the region behind the cursor cleared when
/// the new entry is preceded in its row by missing cells only.
pub proof fn lemma_extend(
    k: Knowledge,
    last: Option<Seq<usize>>,
    cur: Seq<usize>,
    n: int,
    width: int,
    depth: int,
)
    requires
        cleared_below(k, last, cur, n, width, depth),
        0 <= n < cur.len(),
        cur.len() == width,
        forall|s: int| 0 <= s < cur[n] ==> #[trigger] k[n][s] == Some(false),
    ensures
        cleared_below(k, last, cur, n + 1, width, depth),
{
    assert forall|c: Seq<usize>|
        is_candidate(c, width, depth) && after(last, c) && #[trigger] prefix_lt(
            c,
            cur,
            n + 1,
        ) implies blocked(k, c) by {
        let m = choose|m: int| #![trigger c[m], cur[m]] 0 <= m < n + 1 && c[m] < cur[m] && agree_upto(c, cur, m);
        if m < n {
            assert(prefix_lt(c, cur, n));
        } else {
            assert(k[n][c[n] as int] == Some(false));
        }
    }
}

/// A shorter prefix covers fewer candidates.
pub proof fn lemma_shrink(
    k: Knowledge,
    last: Option<Seq<usize>>,
    cur: Seq<usize>,
    n: int,
    m: int,
    width: int,
    depth: int,
)
    requires
        cleared_below(k, last, cur, m, width, depth),
        n <= m,
    ensures
        cleared_below(k, last, cur, n, width, depth),
{
    assert forall|c: Seq<usize>|
        is_candidate(c, width, depth) && after(last, c) && #[trigger] prefix_lt(
            c,
            cur,
            n,
        ) implies blocked(k, c) by {
        lemma_prefix_lt_grow(c, cur, n, m);
    }
}

/// Only the first `n` entries of the cursor matter.
pub proof fn lemma_same_prefix(
    k: Knowledge,
    last: Option<Seq<usize>>,
    cur: Seq<usize>,
    cur2: Seq<usize>,
    n: int,
    width: int,
    depth: int,
)
    requires
        cleared_below(k, last, cur, n, width, depth),
        agree_upto(cur, cur2, n),
        0 <= n <= cur.len(),
        cur2.len() == cur.len(),
    ensures
        cleared_below(k, last, cur2, n, width, depth),
{
    assert forall|c: Seq<usize>|
        is_candidate(c, width, depth) && after(last, c) && #[trigger] prefix_lt(
            c,
            cur2,
            n,
        ) implies blocked(k, c) by {
        let m = choose|m: int| #![trigger c[m], cur2[m]] 0 <= m < n && c[m] < cur2[m] && agree_upto(c, cur2, m);
        assert(cur[m] == cur2[m]);
        assert(agree_upto(c, cur, m)) by {
            assert forall|x: int| 0 <= x < m implies #[trigger] c[x] == cur[x] by {
                assert(cur[x] == cur2[x]);
                assert(c[x] == cur2[x]);
            }
        }
        assert(c[m] < cur[m]);
        assert(prefix_lt(c, cur, n));
    }
}

/// What is blocked stays blocked as knowledge grows.
pub proof fn lemma_blocked_grows(k: Knowledge, k2: Knowledge, c: Seq<usize>, width: int, depth: int)
    requires
        blocked(k, c),
        extends(k, k2),
        knowledge_shape(k, width, depth),
        is_candidate(c, width, depth),
    ensures
        blocked(k2, c),
{
    let r = choose|r: int| #![trigger c[r]] 0 <= r < c.len() && k[r][c[r] as int] == Some(false);
    assert(k2[r][c[r] as int] == Some(false));
}

pub proof fn lemma_cleared_below_grows(
    k: Knowledge,
    k2: Knowledge,
    last: Option<Seq<usize>>,
    cur: Seq<usize>,
    n: int,
    width: int,
    depth: int,
)
    requires
        cleared_below(k, last, cur, n, width, depth),
        extends(k, k2),
        knowledge_shape(k, width, depth),
    ensures
        cleared_below(k2, last, cur, n, width, depth),
{
    assert forall|c: Seq<usize>|
        is_candidate(c, width, depth) && after(last, c) && #[trigger] prefix_lt(
            c,
            cur,
            n,
        ) implies blocked(k2, c) by {
        lemma_blocked_grows(k, k2, c, width, depth);
    }
}

pub proof fn lemma_exhausted_grows(
    k: Knowledge,
    k2: Knowledge,
    last: Option<Seq<usize>>,
    width: int,
    depth: int,
)
    requires
        exhausted(k, last, width, depth),
        extends(k, k2),
        knowledge_shape(k, width, depth),
    ensures
        exhausted(k2, last, width, depth),
{
    assert forall|c: Seq<usize>| #[trigger] is_candidate(c, width, depth) && after(last, c) implies blocked(k2, c) by {
        lemma_blocked_grows(k, k2, c, width, depth);
    }
}

pub proof fn lemma_extends_trans(k1: Knowledge, k2: Knowledge, k3: Knowledge)
    requires
        extends(k1, k2),
        extends(k2, k3),
    ensures
        extends(k1, k3),
{
    assert forall|r: int, s: int|
        0 <= r < k1.len() && 0 <= s < k1[r].len() && k1[r][s] is Some implies #[trigger] k3[r][s]
        == k1[r][s] by {
        assert(k2[r][s] == k1[r][s]);
    }
}

/// A row whose every cell is known to be missing blocks every candidate.
pub proof fn lemma_dead_row(k: Knowledge, last: Option<Seq<usize>>, row: int, width: int, depth: int)
    requires
        0 <= row < width,
        forall|s: int| 0 <= s < depth ==> #[trigger] k[row][s] == Some(false),
    ensures
        exhausted(k, last, width, depth),
{
    assert forall|c: Seq<usize>| #[trigger] is_candidate(c, width, depth) && after(last, c) implies blocked(k, c) by {
        assert(c[row] < depth);
        assert(k[row][c[row] as int] == Some(false));
    }
}

// ---------------------------------------------------------------------------
// The rank of a candidate, used to show that the search terminates.

pub proof fn lemma_rank_bound(c: Seq<usize>, d: nat)
    requires
        forall|i: int| 0 <= i < c.len() ==> #[trigger] c[i] < d,
    ensures
        rank(c, d) < pow(d, c.len()),
    decreases c.len(),
{
    if c.len() > 0 {
        let p = c.drop_last();
        assert forall|i: int| 0 <= i < p.len() implies #[trigger] p[i] < d by {
            assert(p[i] == c[i]);
        }
        lemma_rank_bound(p, d);
        let r = rank(p, d);
        let q = pow(d, p.len());
        let l = c.last() as nat;
        assert(l < d);
        assert(r * d + l < q * d) by (nonlinear_arith)
            requires
                r < q,
                l < d,
        ;
        assert(pow(d, c.len()) == d * pow(d, p.len()));
        assert(q * d == d * q) by (nonlinear_arith);
    }
}

/// Lexicographic order on candidates is the order of their ranks.
pub proof fn lemma_rank_lex(a: Seq<usize>, b: Seq<usize>, d: nat)
    requires
        lex_lt(a, b),
        forall|i: int| 0 <= i < a.len() ==> #[trigger] a[i] < d,
        forall|i: int| 0 <= i < b.len() ==> #[trigger] b[i] < d,
    ensures
        rank(a, d) < rank(b, d),
    decreases a.len(),
{
    let m = choose|m: int| #![trigger a[m], b[m]] 0 <= m < a.len() && a[m] < b[m] && agree_upto(a, b, m);
    let a0 = a.drop_last();
    let b0 = b.drop_last();
    let la = a.last() as nat;
    let lb = b.last() as nat;
    assert(la < d && lb < d);
    if m == a.len() - 1 {
        assert(a0 =~= b0) by {
            assert forall|x: int| 0 <= x < a0.len() implies a0[x] == b0[x] by {
                assert(a[x] == b[x]);
            }
        }
    } else {
        assert(agree_upto(a0, b0, m)) by {
            assert forall|x: int| 0 <= x < m implies #[trigger] a0[x] == b0[x] by {
                assert(a[x] == b[x]);
            }
        }
        assert(a0[m] < b0[m]);
        assert(lex_lt(a0, b0));
        assert forall|i: int| 0 <= i < a0.len() implies #[trigger] a0[i] < d by {
            assert(a[i] < d);
        }
        assert forall|i: int| 0 <= i < b0.len() implies #[trigger] b0[i] < d by {
            assert(b[i] < d);
        }
        lemma_rank_lex(a0, b0, d);
        let ra = rank(a0, d);
        let rb = rank(b0, d);
        assert(ra * d + la < rb * d + lb) by (nonlinear_arith)
            requires
                ra < rb,
                la < d,
        ;
    }
}

} // verus!
