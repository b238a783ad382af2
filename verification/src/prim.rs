//! A mathematical model of Prim's algorithm over a dense distance matrix,
//! with the exact scan order and tie-breaks of the executable code: the
//! running minimum is scanned over the tree set in insertion order (outer)
//! and over candidate indices in ascending order (inner), and only a
//! strictly smaller weight displaces the running best.

use vstd::prelude::*;

verus! {

/// `v` occurs in `s`.
pub open spec fn in_seq(s: Seq<usize>, v: int) -> bool {
    exists|j: int| 0 <= j < s.len() && s[j] == v
}

/// No value occurs twice in `s`.
pub open spec fn distinct(s: Seq<usize>) -> bool {
    forall|j: int, k: int| 0 <= j < k < s.len() ==> #[trigger] s[j] != #[trigger] s[k]
}

/// Every value of `s` lies below `n`.
pub open spec fn all_below(s: Seq<usize>, n: int) -> bool {
    forall|j: int| 0 <= j < s.len() ==> #[trigger] s[j] < n
}

/// The matrix is an `n` x `n` table.
pub open spec fn wf_matrix(m: Seq<Seq<u32>>, n: int) -> bool {
    &&& m.len() == n
    &&& forall|i: int| 0 <= i < n ==> (#[trigger] m[i]).len() == n
}

/// Cells do not depend on the order of their indices.
pub open spec fn symmetric(m: Seq<Seq<u32>>, n: int) -> bool {
    forall|i: int, j: int| 0 <= i < n && 0 <= j < n ==> #[trigger] m[i][j] == m[j][i]
}

/// Every off-diagonal cell holds a real distance: the graph is complete.
pub open spec fn complete(m: Seq<Seq<u32>>, n: int) -> bool {
    forall|i: int, j: int| 0 <= i < n && 0 <= j < n && i != j ==> #[trigger] m[i][j] < u32::MAX
}

/// A running best candidate: (weight, node to add, node already in the tree).
pub open spec fn init_best() -> (int, int, int) {
    (u32::MAX as int, 0, 0)
}

/// One step of the candidate scan: candidate `c` of row `pt` displaces the
/// running best when it is outside the tree set and strictly closer.
pub open spec fn scan_cand(
    m: Seq<Seq<u32>>,
    set: Seq<usize>,
    pt: int,
    c: int,
    best: (int, int, int),
) -> (int, int, int) {
    if !in_seq(set, c) && m[pt][c] < best.0 {
        (m[pt][c] as int, c, pt)
    } else {
        best
    }
}

/// The running best after the first `k` candidates of row `pt`.
pub open spec fn row_scan(
    m: Seq<Seq<u32>>,
    set: Seq<usize>,
    pt: int,
    k: int,
    best: (int, int, int),
) -> (int, int, int)
    decreases k,
{
    if k <= 0 {
        best
    } else {
        scan_cand(m, set, pt, k - 1, row_scan(m, set, pt, k - 1, best))
    }
}

/// The running best after the full rows of the first `j` tree-set members.
pub open spec fn set_scan(
    m: Seq<Seq<u32>>,
    set: Seq<usize>,
    n: int,
    j: int,
    best: (int, int, int),
) -> (int, int, int)
    decreases j,
{
    if j <= 0 {
        best
    } else {
        row_scan(m, set, set[j - 1] as int, n, set_scan(m, set, n, j - 1, best))
    }
}

/// The minimum-weight boundary pair chosen by one Prim iteration.
pub open spec fn prim_best(m: Seq<Seq<u32>>, set: Seq<usize>, n: int) -> (int, int, int) {
    set_scan(m, set, n, set.len() as int, init_best())
}

/// The tree set in insertion order after `k` additions to the root.
pub open spec fn prim_sets(m: Seq<Seq<u32>>, n: int, root: usize, k: int) -> Seq<usize>
    decreases k,
{
    if k <= 0 {
        seq![root]
    } else {
        let s = prim_sets(m, n, root, k - 1);
        s.push(prim_best(m, s, n).1 as usize)
    }
}

/// The edge recorded by the `k`-th iteration: (new node, tree node).
pub open spec fn prim_edge(m: Seq<Seq<u32>>, n: int, root: usize, k: int) -> (int, int) {
    let b = prim_best(m, prim_sets(m, n, root, k), n);
    (b.1, b.2)
}

/// The unordered pair of `e` is {`i`, `j`}.
pub open spec fn edge_covers(e: (int, int), i: int, j: int) -> bool {
    (e.0 == i && e.1 == j) || (e.0 == j && e.1 == i)
}

/// The cell that the derived graph holds at (i, j) once the first `cnt`
/// Prim edges are written: the source weight under a recorded pair, the
/// sentinel elsewhere.
pub open spec fn tree_cell_upto(
    m: Seq<Seq<u32>>,
    n: int,
    root: usize,
    cnt: int,
    i: int,
    j: int,
) -> u32 {
    if exists|k: int| 0 <= k < cnt && edge_covers(#[trigger] prim_edge(m, n, root, k), i, j) {
        m[i][j]
    } else {
        u32::MAX
    }
}

/// The cell that the finished spanning tree holds at (i, j).
pub open spec fn tree_cell(m: Seq<Seq<u32>>, n: int, root: usize, i: int, j: int) -> u32 {
    tree_cell_upto(m, n, root, n - 1, i, j)
}

/// A best candidate is sound: when it beats the sentinel it names a real
/// boundary pair of the scan, weighted by its own cell.
pub open spec fn valid_best(m: Seq<Seq<u32>>, set: Seq<usize>, n: int, b: (int, int, int)) -> bool {
    b.0 < u32::MAX ==> {
        &&& 0 <= b.1 < n && !in_seq(set, b.1)
        &&& 0 <= b.2 < n && in_seq(set, b.2)
        &&& b.0 == m[b.2][b.1]
    }
}

/// Scanning a row never raises the running weight.
proof fn lemma_row_scan_le(m: Seq<Seq<u32>>, set: Seq<usize>, pt: int, k: int, best: (int, int, int))
    ensures
        row_scan(m, set, pt, k, best).0 <= best.0,
    decreases k,
{
    if k > 0 {
        lemma_row_scan_le(m, set, pt, k - 1, best);
    }
}

/// After the scan has passed an outside candidate, the running weight is no
/// more than that candidate's cell.
proof fn lemma_row_scan_cand(
    m: Seq<Seq<u32>>,
    set: Seq<usize>,
    pt: int,
    k: int,
    best: (int, int, int),
    v: int,
)
    requires
        0 <= v < k,
        !in_seq(set, v),
    ensures
        row_scan(m, set, pt, k, best).0 <= m[pt][v],
    decreases k,
{
    if v == k - 1 {
        lemma_row_scan_le(m, set, pt, k - 1, best);
    } else {
        lemma_row_scan_cand(m, set, pt, k - 1, best, v);
    }
}

/// Row scanning preserves soundness of the running best.
proof fn lemma_row_scan_valid(
    m: Seq<Seq<u32>>,
    set: Seq<usize>,
    n: int,
    pt: int,
    k: int,
    best: (int, int, int),
)
    requires
        valid_best(m, set, n, best),
        best.0 <= u32::MAX,
        0 <= pt < n,
        in_seq(set, pt),
        k <= n,
    ensures
        valid_best(m, set, n, row_scan(m, set, pt, k, best)),
        row_scan(m, set, pt, k, best).0 <= u32::MAX,
    decreases k,
{
    if k > 0 {
        lemma_row_scan_valid(m, set, n, pt, k - 1, best);
    }
}

/// Scanning further set rows preserves soundness and never raises the
/// running weight.
proof fn lemma_set_scan_valid(
    m: Seq<Seq<u32>>,
    set: Seq<usize>,
    n: int,
    j: int,
    best: (int, int, int),
)
    requires
        valid_best(m, set, n, best),
        best.0 <= u32::MAX,
        all_below(set, n),
        j <= set.len(),
    ensures
        valid_best(m, set, n, set_scan(m, set, n, j, best)),
        set_scan(m, set, n, j, best).0 <= best.0,
        set_scan(m, set, n, j, best).0 <= u32::MAX,
    decreases j,
{
    if j > 0 {
        lemma_set_scan_valid(m, set, n, j - 1, best);
        let prev = set_scan(m, set, n, j - 1, best);
        assert(in_seq(set, set[j - 1] as int));
        lemma_row_scan_valid(m, set, n, set[j - 1] as int, n, prev);
        lemma_row_scan_le(m, set, set[j - 1] as int, n, prev);
    }
}

/// Among values below `n`, a distinct sequence shorter than `n` misses one.
pub(crate) proof fn lemma_missing_value(s: Seq<usize>, n: int)
    requires
        distinct(s),
        all_below(s, n),
        s.len() < n,
    ensures
        exists|v: int| 0 <= v < n && !in_seq(s, v),
    decreases n,
{
    if !in_seq(s, n - 1) {
        assert(0 <= n - 1 < n && !in_seq(s, n - 1));
    } else {
        let idx = choose|idx: int| 0 <= idx < s.len() && s[idx] == n - 1;
        let s2 = s.remove(idx);
        assert forall|j: int| 0 <= j < s2.len() implies #[trigger] s2[j] < n - 1 by {
            if j < idx {
                assert(s2[j] == s[j]);
                assert(s[j] != s[idx]);
            } else {
                assert(s2[j] == s[j + 1]);
                assert(s[j + 1] != s[idx]);
            }
        }
        assert(distinct(s2)) by {
            assert forall|j: int, k: int| 0 <= j < k < s2.len() implies #[trigger] s2[j] != #[trigger] s2[k] by {
                let j2: int = if j < idx { j } else { j + 1 };
                let k2: int = if k < idx { k } else { k + 1 };
                assert(s2[j] == s[j2] && s2[k] == s[k2]);
            }
        }
        lemma_missing_value(s2, n - 1);
        let v = choose|v: int| 0 <= v < n - 1 && !in_seq(s2, v);
        assert(!in_seq(s, v)) by {
            if in_seq(s, v) {
                let j = choose|j: int| 0 <= j < s.len() && s[j] == v;
                if j < idx {
                    assert(s2[j] == s[j]);
                } else {
                    assert(j != idx);
                    assert(s2[j - 1] == s[j]);
                }
            }
        }
        assert(0 <= v < n && !in_seq(s, v));
    }
}

/// A distinct sequence of values below `n` holds at most `n` of them.
pub proof fn lemma_distinct_len_bound(s: Seq<usize>, n: int)
    requires
        distinct(s),
        all_below(s, n),
        n >= 0,
    ensures
        s.len() <= n,
    decreases n,
{
    if s.len() > 0 {
        assert(n >= 1) by {
            assert(s[0] < n);
        }
        if in_seq(s, n - 1) {
            let idx = choose|idx: int| 0 <= idx < s.len() && s[idx] == n - 1;
            let s2 = s.remove(idx);
            assert forall|j: int| 0 <= j < s2.len() implies #[trigger] s2[j] < n - 1 by {
                if j < idx {
                    assert(s2[j] == s[j]);
                    assert(s[j] != s[idx]);
                } else {
                    assert(s2[j] == s[j + 1]);
                    assert(s[j + 1] != s[idx]);
                }
            }
            assert(distinct(s2)) by {
                assert forall|j: int, k: int| 0 <= j < k < s2.len()
                    implies #[trigger] s2[j] != #[trigger] s2[k] by {
                    let j2: int = if j < idx { j } else { j + 1 };
                    let k2: int = if k < idx { k } else { k + 1 };
                    assert(s2[j] == s[j2] && s2[k] == s[k2]);
                }
            }
            lemma_distinct_len_bound(s2, n - 1);
        } else {
            assert forall|j: int| 0 <= j < s.len() implies #[trigger] s[j] < n - 1 by {
                assert(!(s[j] == n - 1));
            }
            lemma_distinct_len_bound(s, n - 1);
        }
    }
}

/// On a complete graph, a proper tree set always yields a real boundary
/// pair: the chosen best beats the sentinel and is sound.
pub proof fn lemma_prim_best_found(m: Seq<Seq<u32>>, set: Seq<usize>, n: int)
    requires
        wf_matrix(m, n),
        complete(m, n),
        all_below(set, n),
        distinct(set),
        1 <= set.len() < n,
    ensures
        prim_best(m, set, n).0 < u32::MAX,
        valid_best(m, set, n, prim_best(m, set, n)),
    decreases set.len(),
{
    lemma_missing_value(set, n);
    let v = choose|v: int| 0 <= v < n && !in_seq(set, v);
    let first = row_scan(m, set, set[0] as int, n, init_best());
    lemma_row_scan_cand(m, set, set[0] as int, n, init_best(), v);
    assert(in_seq(set, set[0] as int));
    assert(set[0] != v);
    assert(m[set[0] as int][v] < u32::MAX);
    lemma_set_scan_chain(m, set, n, set.len() as int);
    lemma_set_scan_valid(m, set, n, set.len() as int, init_best());
}

/// The full scan never exceeds the weight reached after the first row.
proof fn lemma_set_scan_chain(m: Seq<Seq<u32>>, set: Seq<usize>, n: int, j: int)
    requires
        1 <= j <= set.len(),
    ensures
        set_scan(m, set, n, j, init_best()).0
            <= row_scan(m, set, set[0] as int, n, init_best()).0,
    decreases j,
{
    if j == 1 {
        assert(set_scan(m, set, n, 0, init_best()) == init_best());
        assert(set_scan(m, set, n, 1, init_best())
            == row_scan(m, set, set[0] as int, n, init_best()));
    } else {
        lemma_set_scan_chain(m, set, n, j - 1);
        lemma_row_scan_le(m, set, set[j - 1] as int, n, set_scan(m, set, n, j - 1, init_best()));
    }
}

/// Structural facts about the growing tree set: its length, its bounds,
/// its distinctness, and its root.
pub proof fn lemma_prim_sets_props(m: Seq<Seq<u32>>, n: int, root: usize, k: int)
    requires
        wf_matrix(m, n),
        complete(m, n),
        0 <= root < n,
        n <= usize::MAX,
        0 <= k <= n - 1,
    ensures
        prim_sets(m, n, root, k).len() == k + 1,
        distinct(prim_sets(m, n, root, k)),
        all_below(prim_sets(m, n, root, k), n),
        prim_sets(m, n, root, k)[0] == root,
    decreases k,
{
    if k > 0 {
        lemma_prim_sets_props(m, n, root, k - 1);
        let s = prim_sets(m, n, root, k - 1);
        lemma_prim_best_found(m, s, n);
        let b = prim_best(m, s, n);
        assert(0 <= b.1 < n && !in_seq(s, b.1));
        assert(b.1 as usize as int == b.1);
        assert(prim_sets(m, n, root, k) == s.push(b.1 as usize));
        assert forall|j: int, l: int| 0 <= j < l < s.push(b.1 as usize).len()
            implies #[trigger] s.push(b.1 as usize)[j] != #[trigger] s.push(b.1 as usize)[l] by {
            if l < s.len() {
                assert(s[j] != s[l]);
            } else {
                assert(s.push(b.1 as usize)[l] == b.1 as usize);
                assert(!in_seq(s, b.1));
                assert(s.push(b.1 as usize)[j] == s[j]);
            }
        }
    }
}

/// The edge of each iteration joins a fresh node to a node of the set.
pub proof fn lemma_prim_edge_props(m: Seq<Seq<u32>>, n: int, root: usize, k: int)
    requires
        wf_matrix(m, n),
        complete(m, n),
        0 <= root < n,
        n <= usize::MAX,
        0 <= k <= n - 2,
    ensures
        0 <= prim_edge(m, n, root, k).0 < n,
        0 <= prim_edge(m, n, root, k).1 < n,
        !in_seq(prim_sets(m, n, root, k), prim_edge(m, n, root, k).0),
        in_seq(prim_sets(m, n, root, k), prim_edge(m, n, root, k).1),
        prim_edge(m, n, root, k).0 != prim_edge(m, n, root, k).1,
        m[prim_edge(m, n, root, k).1][prim_edge(m, n, root, k).0] < u32::MAX,
{
    lemma_prim_sets_props(m, n, root, k);
    lemma_prim_best_found(m, prim_sets(m, n, root, k), n);
}

/// Earlier tree sets are prefixes of later ones.
proof fn lemma_prim_sets_prefix(m: Seq<Seq<u32>>, n: int, root: usize, l: int, k: int)
    requires
        0 <= l <= k,
    ensures
        prim_sets(m, n, root, l) == prim_sets(m, n, root, k).take(l + 1),
    decreases k,
{
    if l == k {
        assert(prim_sets(m, n, root, l) =~= prim_sets(m, n, root, k).take(l + 1)) by {
            lemma_prim_sets_len(m, n, root, k);
        }
    } else {
        lemma_prim_sets_prefix(m, n, root, l, k - 1);
        lemma_prim_sets_len(m, n, root, k - 1);
        assert(prim_sets(m, n, root, k - 1).take(l + 1)
            =~= prim_sets(m, n, root, k).take(l + 1));
    }
}

/// The spanning-tree structure of a full Prim run over a complete graph:
/// the insertion order holds every node exactly once, starting at the
/// root; the edge recorded at each step joins the node added at that step
/// to a node added earlier (so every node is connected to the root through
/// recorded edges); and no two recorded edges share their unordered pair,
/// so exactly `n - 1` distinct symmetric pairs are populated.
pub proof fn lemma_prim_spanning(m: Seq<Seq<u32>>, n: int, root: usize)
    requires
        wf_matrix(m, n),
        symmetric(m, n),
        complete(m, n),
        0 <= root < n,
        n <= usize::MAX,
    ensures
        prim_sets(m, n, root, n - 1).len() == n,
        distinct(prim_sets(m, n, root, n - 1)),
        all_below(prim_sets(m, n, root, n - 1), n),
        prim_sets(m, n, root, n - 1)[0] == root,
        forall|v: int| 0 <= v < n ==> #[trigger] in_seq(prim_sets(m, n, root, n - 1), v),
        forall|k: int|
            0 <= k < n - 1 ==> (#[trigger] prim_edge(m, n, root, k)).0
                == prim_sets(m, n, root, n - 1)[k + 1],
        forall|k: int|
            0 <= k < n - 1 ==> in_seq(
                prim_sets(m, n, root, n - 1).take(k + 1),
                (#[trigger] prim_edge(m, n, root, k)).1,
            ),
        forall|k: int, l: int|
            0 <= k < l < n - 1 ==> !edge_covers(
                #[trigger] prim_edge(m, n, root, k),
                (#[trigger] prim_edge(m, n, root, l)).0,
                prim_edge(m, n, root, l).1,
            ),
{
    let o = prim_sets(m, n, root, n - 1);
    lemma_prim_sets_props(m, n, root, n - 1);
    assert forall|v: int| 0 <= v < n implies in_seq(o, v) by {
        if !in_seq(o, v) {
            let o2 = o.push(v as usize);
            assert(distinct(o2)) by {
                assert forall|j: int, k: int| 0 <= j < k < o2.len()
                    implies #[trigger] o2[j] != #[trigger] o2[k] by {
                    if k < o.len() {
                        assert(o[j] != o[k]);
                    } else {
                        assert(o2[k] == v as usize);
                        assert(o2[j] == o[j]);
                    }
                }
            }
            assert(all_below(o2, n)) by {
                assert forall|j: int| 0 <= j < o2.len() implies #[trigger] o2[j] < n by {
                    if j < o.len() {
                        assert(o[j] < n);
                    }
                }
            }
            lemma_distinct_len_bound(o2, n);
        }
    }
    assert forall|k: int| 0 <= k < n - 1
        implies (#[trigger] prim_edge(m, n, root, k)).0 == o[k + 1]
            && in_seq(o.take(k + 1), prim_edge(m, n, root, k).1)
            && in_seq(o, prim_edge(m, n, root, k).0)
            && !in_seq(o.take(k + 1), prim_edge(m, n, root, k).0) by {
        lemma_prim_edge_props(m, n, root, k);
        lemma_prim_sets_prefix(m, n, root, k, n - 1);
        lemma_prim_sets_prefix(m, n, root, k + 1, n - 1);
        lemma_prim_sets_len(m, n, root, k);
        lemma_prim_sets_len(m, n, root, k + 1);
        let sk = prim_sets(m, n, root, k);
        let b = prim_best(m, sk, n);
        assert(prim_sets(m, n, root, k + 1) == sk.push(b.1 as usize));
        assert(prim_sets(m, n, root, k + 1)[k + 1] == b.1 as usize);
        assert(o.take(k + 2)[k + 1] == o[k + 1]);
        assert(in_seq(o, o[k + 1] as int));
    }
    assert forall|k: int, l: int| 0 <= k < l < n - 1
        implies !edge_covers(
            #[trigger] prim_edge(m, n, root, k),
            (#[trigger] prim_edge(m, n, root, l)).0,
            prim_edge(m, n, root, l).1,
        ) by {
        lemma_prim_edge_props(m, n, root, l);
        lemma_prim_sets_prefix(m, n, root, l, n - 1);
        lemma_prim_sets_len(m, n, root, l);
        let ek = prim_edge(m, n, root, k);
        let el = prim_edge(m, n, root, l);
        // Both ends of the earlier edge already stand in the set of step l,
        // while the later edge adds a node from outside that set.
        assert(!in_seq(prim_sets(m, n, root, l), el.0));
        assert(in_seq(o.take(l + 1), ek.0)) by {
            assert(ek.0 == o[k + 1]);
            assert(o.take(l + 1)[k + 1] == o[k + 1]);
        }
        assert(in_seq(o.take(l + 1), ek.1)) by {
            assert(in_seq(o.take(k + 1), ek.1));
            let j = choose|j: int| 0 <= j < o.take(k + 1).len() && #[trigger] o.take(k + 1)[j] == ek.1;
            assert(o.take(l + 1)[j] == o[j]);
        }
        assert(prim_sets(m, n, root, l) == o.take(l + 1));
    }
}

/// The tree set after `k` additions holds `k + 1` nodes.
proof fn lemma_prim_sets_len(m: Seq<Seq<u32>>, n: int, root: usize, k: int)
    requires
        k >= 0,
    ensures
        prim_sets(m, n, root, k).len() == k + 1,
    decreases k,
{
    if k > 0 {
        lemma_prim_sets_len(m, n, root, k - 1);
    }
}

} // verus!
