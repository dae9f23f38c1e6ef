use crate::primitives::slot::norm_slot;
use vstd::prelude::*;

verus! {

// The shape of the synapse lists. Every synapse sits in two doubly-linked
// lists: the outgoing list of its source node (endpoint cell 1, head cell 3
// and tail cell 4 of the node, next cell 3 and previous cell 4 of the
// synapse) and the incoming list of its target node (endpoint cell 2, head
// cell 5, tail cell 6, next cell 5, previous cell 6). The predicates below
// take one such direction as the cell numbers `e`, `hc`, `tc`, `nx`, `pv`.
// A rank that grows along the previous pointers rules out cycles.

/// Every row of `v` has eight cells.
pub open spec fn rows8(v: Seq<Seq<i32>>) -> bool {
    forall|i: int| 0 <= i < v.len() ==> (#[trigger] v[i]).len() == 8
}

/// The cell numbers of one list direction.
pub open spec fn dir_cells(e: int, hc: int, tc: int, nx: int, pv: int) -> bool {
    ||| (e == 1 && hc == 3 && tc == 4 && nx == 3 && pv == 4)
    ||| (e == 2 && hc == 5 && tc == 6 && nx == 5 && pv == 6)
}

/// Live node `i`: its head and tail are set together, and each names a live
/// synapse of this list that is first (head) or last (tail).
pub open spec fn dir_node_ok(nv: Seq<Seq<i32>>, sv: Seq<Seq<i32>>, al: Seq<bool>, i: int, e: int, hc: int, tc: int, nx: int, pv: int) -> bool {
    let c = nv[i];
    &&& (c[hc] > 0) == (c[tc] > 0)
    &&& c[hc] <= sv.len() && c[tc] <= sv.len()
    &&& c[hc] > 0 ==> al[c[hc] - 1] && sv[c[hc] - 1][e] == i + 1 && sv[c[hc] - 1][pv] <= 0
    &&& c[tc] > 0 ==> al[c[tc] - 1] && sv[c[tc] - 1][e] == i + 1 && sv[c[tc] - 1][nx] <= 0
}

/// Live synapse `j`: its neighbours are live synapses of the same list that
/// point back at it; where it has none, its endpoint's head or tail names it;
/// its predecessor has a smaller rank.
pub open spec fn dir_syn_ok(
    nv: Seq<Seq<i32>>,
    sv: Seq<Seq<i32>>,
    al: Seq<bool>,
    rk: spec_fn(int) -> nat,
    j: int,
    e: int,
    hc: int,
    tc: int,
    nx: int,
    pv: int,
) -> bool {
    let c = sv[j];
    let s = c[e] - 1;
    &&& 1 <= c[e] <= nv.len()
    &&& c[nx] <= sv.len() && c[pv] <= sv.len()
    &&& c[nx] > 0 ==> al[c[nx] - 1] && sv[c[nx] - 1][pv] == j + 1 && sv[c[nx] - 1][e] == c[e]
    &&& c[nx] <= 0 ==> nv[s][tc] == j + 1
    &&& c[pv] > 0 ==> al[c[pv] - 1] && sv[c[pv] - 1][nx] == j + 1 && sv[c[pv] - 1][e] == c[e] && rk(c[pv] - 1) < rk(j)
    &&& c[pv] <= 0 ==> nv[s][hc] == j + 1
}

/// One direction of the lists is well formed for the live nodes `an` and the
/// live synapses `al`.
pub open spec fn dir_ok(
    nv: Seq<Seq<i32>>,
    sv: Seq<Seq<i32>>,
    an: Seq<bool>,
    al: Seq<bool>,
    rk: spec_fn(int) -> nat,
    e: int,
    hc: int,
    tc: int,
    nx: int,
    pv: int,
) -> bool {
    &&& forall|i: int| 0 <= i < nv.len() && an[i] ==> #[trigger] dir_node_ok(nv, sv, al, i, e, hc, tc, nx, pv)
    &&& forall|j: int| 0 <= j < sv.len() && al[j] ==> #[trigger] dir_syn_ok(nv, sv, al, rk, j, e, hc, tc, nx, pv)
}

/// Every live synapse joins two live nodes.
pub open spec fn ends_ok(nv: Seq<Seq<i32>>, sv: Seq<Seq<i32>>, an: Seq<bool>, al: Seq<bool>) -> bool {
    forall|j: int|
        0 <= j < sv.len() && al[j] ==> 1 <= (#[trigger] sv[j])[1] <= nv.len() && 1 <= sv[j][2] <= nv.len() && an[sv[j][1]
            - 1] && an[sv[j][2] - 1]
}

/// Both directions are well formed under the ranks `ro` and `ri`, and live
/// synapses join live nodes.
pub open spec fn ranked_lists(
    nv: Seq<Seq<i32>>,
    sv: Seq<Seq<i32>>,
    an: Seq<bool>,
    al: Seq<bool>,
    ro: spec_fn(int) -> nat,
    ri: spec_fn(int) -> nat,
) -> bool {
    &&& an.len() == nv.len()
    &&& al.len() == sv.len()
    &&& rows8(nv)
    &&& rows8(sv)
    &&& ends_ok(nv, sv, an, al)
    &&& dir_ok(nv, sv, an, al, ro, 1, 3, 4, 3, 4)
    &&& dir_ok(nv, sv, an, al, ri, 2, 5, 6, 5, 6)
}

/// The synapse lists are well formed: live nodes' lists hold exactly the
/// live synapses that leave or enter them, linked both ways without cycles.
pub open spec fn lists_ok(nv: Seq<Seq<i32>>, sv: Seq<Seq<i32>>, an: Seq<bool>, al: Seq<bool>) -> bool {
    exists|ro: spec_fn(int) -> nat, ri: spec_fn(int) -> nat| #[trigger] ranked_lists(nv, sv, an, al, ro, ri)
}

/// Unhooking live synapse `x` from one direction (as the cells of `nv2` and
/// `sv2` show) and retiring it keeps that direction well formed.
pub proof fn lemma_dir_detach(
    nv: Seq<Seq<i32>>,
    sv: Seq<Seq<i32>>,
    nv2: Seq<Seq<i32>>,
    sv2: Seq<Seq<i32>>,
    an: Seq<bool>,
    al: Seq<bool>,
    rk: spec_fn(int) -> nat,
    x: int,
    e: int,
    hc: int,
    tc: int,
    nx: int,
    pv: int,
)
    requires
        dir_cells(e, hc, tc, nx, pv),
        dir_ok(nv, sv, an, al, rk, e, hc, tc, nx, pv),
        an.len() == nv.len(),
        al.len() == sv.len(),
        rows8(nv),
        rows8(sv),
        0 <= x < sv.len(),
        al[x],
        nv2.len() == nv.len(),
        sv2.len() == sv.len(),
        forall|k: int, c: int|
            0 <= k < sv.len() && (c == e || c == nx || c == pv) ==> #[trigger] sv2[k][c] == (if sv[x][pv] > 0 && k
                == sv[x][pv] - 1 && c == nx {
                norm_slot(sv[x][nx])
            } else if sv[x][nx] > 0 && k == sv[x][nx] - 1 && c == pv {
                norm_slot(sv[x][pv])
            } else {
                sv[k][c]
            }),
        forall|i: int, c: int|
            0 <= i < nv.len() && (c == hc || c == tc) ==> #[trigger] nv2[i][c] == (if sv[x][pv] <= 0 && i == sv[x][e] - 1
                && c == hc {
                norm_slot(sv[x][nx])
            } else if sv[x][nx] <= 0 && i == sv[x][e] - 1 && c == tc {
                norm_slot(sv[x][pv])
            } else {
                nv[i][c]
            }),
    ensures
        dir_ok(nv2, sv2, an, al.update(x, false), rk, e, hc, tc, nx, pv),
{
    let n = sv[x][nx];
    let p = sv[x][pv];
    let s = sv[x][e] - 1;
    let al2 = al.update(x, false);
    assert(dir_syn_ok(nv, sv, al, rk, x, e, hc, tc, nx, pv));
    if p > 0 {
        assert(dir_syn_ok(nv, sv, al, rk, p - 1, e, hc, tc, nx, pv));
        assert(p - 1 != x);
        assert(sv2[p - 1][e] == sv[p - 1][e]);
    }
    if n > 0 {
        assert(dir_syn_ok(nv, sv, al, rk, n - 1, e, hc, tc, nx, pv));
        assert(n - 1 != x);
        assert(sv2[n - 1][e] == sv[n - 1][e]);
    }
    if p > 0 && n > 0 {
        assert(p != n);
    }
    assert forall|i: int| 0 <= i < nv2.len() && an[i] implies #[trigger] dir_node_ok(nv2, sv2, al2, i, e, hc, tc, nx, pv) by {
        assert(dir_node_ok(nv, sv, al, i, e, hc, tc, nx, pv));
        let h = nv[i][hc];
        let t = nv[i][tc];
        assert(nv2[i][hc] == (if p <= 0 && i == s { norm_slot(n) } else { nv[i][hc] }));
        assert(nv2[i][tc] == (if n <= 0 && i == s { norm_slot(p) } else { nv[i][tc] }));
        if h > 0 {
            assert(dir_syn_ok(nv, sv, al, rk, h - 1, e, hc, tc, nx, pv));
            assert(sv2[h - 1][e] == sv[h - 1][e]);
            assert(sv2[h - 1][pv] == sv[h - 1][pv] || (n > 0 && h - 1 == n - 1));
        }
        if t > 0 {
            assert(dir_syn_ok(nv, sv, al, rk, t - 1, e, hc, tc, nx, pv));
            assert(sv2[t - 1][e] == sv[t - 1][e]);
            assert(sv2[t - 1][nx] == sv[t - 1][nx] || (p > 0 && t - 1 == p - 1));
        }
        if i == s {
            if p <= 0 {
                assert(h == x + 1);
            }
            if n <= 0 {
                assert(t == x + 1);
            }
        }
    }
    assert forall|j: int| 0 <= j < sv2.len() && al2[j] implies #[trigger] dir_syn_ok(nv2, sv2, al2, rk, j, e, hc, tc, nx, pv) by {
        assert(j != x);
        assert(dir_syn_ok(nv, sv, al, rk, j, e, hc, tc, nx, pv));
        let c = sv[j];
        let sj = c[e] - 1;
        assert(sv2[j][e] == c[e]);
        assert(sv2[j][nx] == (if p > 0 && j == p - 1 { norm_slot(n) } else { c[nx] }));
        assert(sv2[j][pv] == (if n > 0 && j == n - 1 { norm_slot(p) } else { c[pv] }));
        if c[nx] > 0 {
            let k = c[nx] - 1;
            assert(dir_syn_ok(nv, sv, al, rk, k, e, hc, tc, nx, pv));
            assert(sv2[k][e] == sv[k][e]);
            assert(sv2[k][pv] == sv[k][pv] || (n > 0 && k == n - 1));
        }
        if c[pv] > 0 {
            let k = c[pv] - 1;
            assert(dir_syn_ok(nv, sv, al, rk, k, e, hc, tc, nx, pv));
            assert(sv2[k][e] == sv[k][e]);
            assert(sv2[k][nx] == sv[k][nx] || (p > 0 && k == p - 1));
        }
        assert(nv2[sj][hc] == (if p <= 0 && sj == s { norm_slot(n) } else { nv[sj][hc] }));
        assert(nv2[sj][tc] == (if n <= 0 && sj == s { norm_slot(p) } else { nv[sj][tc] }));
        if sj == s {
            if p <= 0 {
                assert(nv[s][hc] == x + 1);
            }
            if n <= 0 {
                assert(nv[s][tc] == x + 1);
            }
        }
    }
}

/// Where a node's head in one direction is unset, no live synapse has that
/// node as its endpoint in that direction.
pub proof fn lemma_dir_no_member(
    nv: Seq<Seq<i32>>,
    sv: Seq<Seq<i32>>,
    an: Seq<bool>,
    al: Seq<bool>,
    rk: spec_fn(int) -> nat,
    i: int,
    j: int,
    e: int,
    hc: int,
    tc: int,
    nx: int,
    pv: int,
)
    requires
        dir_cells(e, hc, tc, nx, pv),
        dir_ok(nv, sv, an, al, rk, e, hc, tc, nx, pv),
        al.len() == sv.len(),
        0 <= i < nv.len(),
        nv[i][hc] <= 0,
        0 <= j < sv.len(),
        al[j],
    ensures
        sv[j][e] != i + 1,
    decreases rk(j),
{
    assert(dir_syn_ok(nv, sv, al, rk, j, e, hc, tc, nx, pv));
    if sv[j][e] == i + 1 && sv[j][pv] > 0 {
        lemma_dir_no_member(nv, sv, an, al, rk, i, sv[j][pv] - 1, e, hc, tc, nx, pv);
    }
}

/// Appending fresh synapse `n` at the tail of node `s`'s list in one
/// direction (as the cells of `nv2` and `sv2` show) keeps that direction well
/// formed, with `n` ranked just above the old tail.
pub proof fn lemma_dir_append(
    nv: Seq<Seq<i32>>,
    sv: Seq<Seq<i32>>,
    nv2: Seq<Seq<i32>>,
    sv2: Seq<Seq<i32>>,
    an: Seq<bool>,
    al: Seq<bool>,
    rk: spec_fn(int) -> nat,
    rk2: spec_fn(int) -> nat,
    n: int,
    s: int,
    e: int,
    hc: int,
    tc: int,
    nx: int,
    pv: int,
)
    requires
        dir_cells(e, hc, tc, nx, pv),
        dir_ok(nv, sv, an, al, rk, e, hc, tc, nx, pv),
        an.len() == nv.len(),
        al.len() == sv.len(),
        rows8(nv),
        rows8(sv),
        0 <= n < sv.len(),
        sv.len() < 0x7fff_ffff,
        !al[n],
        0 <= s < nv.len(),
        an[s],
        nv2.len() == nv.len(),
        sv2.len() == sv.len(),
        sv2[n][e] == s + 1,
        sv2[n][nx] == 0,
        sv2[n][pv] == norm_slot(nv[s][tc]),
        forall|k: int, c: int|
            0 <= k < sv.len() && k != n && (c == e || c == nx || c == pv) ==> #[trigger] sv2[k][c] == (if nv[s][tc] > 0
                && k == nv[s][tc] - 1 && c == nx {
                (n + 1) as i32
            } else {
                sv[k][c]
            }),
        forall|i: int, c: int|
            0 <= i < nv.len() && (c == hc || c == tc) ==> #[trigger] nv2[i][c] == (if i == s && c == tc {
                (n + 1) as i32
            } else if i == s && c == hc && nv[s][hc] <= 0 {
                (n + 1) as i32
            } else {
                nv[i][c]
            }),
        forall|k: int|
            #[trigger] rk2(k) == (if k == n {
                if nv[s][tc] > 0 {
                    rk(nv[s][tc] - 1) + 1
                } else {
                    0
                }
            } else {
                rk(k)
            }),
    ensures
        dir_ok(nv2, sv2, an, al.update(n, true), rk2, e, hc, tc, nx, pv),
{
    let tl = nv[s][tc];
    let al2 = al.update(n, true);
    assert(dir_node_ok(nv, sv, al, s, e, hc, tc, nx, pv));
    if tl > 0 {
        assert(tl - 1 != n);
        assert(sv2[tl - 1][e] == sv[tl - 1][e]);
        assert(sv2[tl - 1][nx] == n + 1);
    }
    assert(nv2[s][tc] == n + 1);
    assert forall|i: int| 0 <= i < nv2.len() && an[i] implies #[trigger] dir_node_ok(nv2, sv2, al2, i, e, hc, tc, nx, pv) by {
        assert(dir_node_ok(nv, sv, al, i, e, hc, tc, nx, pv));
        let h = nv[i][hc];
        let t = nv[i][tc];
        assert(nv2[i][hc] == (if i == s && nv[s][hc] <= 0 { (n + 1) as i32 } else { h }));
        assert(nv2[i][tc] == (if i == s { (n + 1) as i32 } else { t }));
        if h > 0 {
            assert(h - 1 != n);
            assert(sv2[h - 1][e] == sv[h - 1][e]);
            assert(sv2[h - 1][pv] == sv[h - 1][pv]);
        }
        if t > 0 && i != s {
            assert(t - 1 != n);
            assert(sv2[t - 1][e] == sv[t - 1][e]);
            assert(sv2[t - 1][nx] == sv[t - 1][nx]);
        }
    }
    assert forall|j: int| 0 <= j < sv2.len() && al2[j] implies #[trigger] dir_syn_ok(nv2, sv2, al2, rk2, j, e, hc, tc, nx, pv) by {
        if j != n {
            assert(dir_syn_ok(nv, sv, al, rk, j, e, hc, tc, nx, pv));
            let c = sv[j];
            let sj = c[e] - 1;
            assert(sv2[j][e] == c[e]);
            assert(sv2[j][nx] == (if tl > 0 && j == tl - 1 { (n + 1) as i32 } else { c[nx] }));
            assert(sv2[j][pv] == c[pv]);
            if c[nx] > 0 {
                let k = c[nx] - 1;
                assert(k != n);
                assert(sv2[k][e] == sv[k][e]);
                assert(sv2[k][pv] == sv[k][pv]);
            }
            if c[pv] > 0 {
                let k = c[pv] - 1;
                assert(k != n);
                assert(dir_syn_ok(nv, sv, al, rk, k, e, hc, tc, nx, pv));
                assert(sv2[k][e] == sv[k][e]);
                assert(sv2[k][nx] == sv[k][nx]);
            }
            assert(nv2[sj][hc] == (if sj == s && nv[s][hc] <= 0 { (n + 1) as i32 } else { nv[sj][hc] }));
            assert(nv2[sj][tc] == (if sj == s { (n + 1) as i32 } else { nv[sj][tc] }));
        } else {
            assert(nv2[s][hc] == (if nv[s][hc] <= 0 { (n + 1) as i32 } else { nv[s][hc] }));
        }
    }
}

/// Retiring node `i` once no live synapse joins it keeps the lists well
/// formed; its lists must be empty first.
pub proof fn lemma_lists_drop_node(nv: Seq<Seq<i32>>, sv: Seq<Seq<i32>>, nv2: Seq<Seq<i32>>, an: Seq<bool>, al: Seq<bool>, i: int)
    requires
        lists_ok(nv, sv, an, al),
        0 <= i < nv.len(),
        nv[i][3] <= 0,
        nv[i][5] <= 0,
        nv2.len() == nv.len(),
        rows8(nv2),
        forall|k: int, c: int| 0 <= k < nv.len() && 3 <= c <= 6 ==> #[trigger] nv2[k][c] == nv[k][c],
    ensures
        lists_ok(nv2, sv, an.update(i, false), al),
        forall|j: int| 0 <= j < sv.len() && al[j] ==> (#[trigger] sv[j])[1] != i + 1 && sv[j][2] != i + 1,
{
    let (ro, ri) = choose|ro: spec_fn(int) -> nat, ri: spec_fn(int) -> nat| #[trigger] ranked_lists(nv, sv, an, al, ro, ri);
    assert forall|j: int| 0 <= j < sv.len() && al[j] implies (#[trigger] sv[j])[1] != i + 1 && sv[j][2] != i + 1 by {
        lemma_dir_no_member(nv, sv, an, al, ro, i, j, 1, 3, 4, 3, 4);
        lemma_dir_no_member(nv, sv, an, al, ri, i, j, 2, 5, 6, 5, 6);
    }
    let an2 = an.update(i, false);
    assert forall|k: int| 0 <= k < nv2.len() && an2[k] implies #[trigger] dir_node_ok(nv2, sv, al, k, 1, 3, 4, 3, 4) by {
        assert(dir_node_ok(nv, sv, al, k, 1, 3, 4, 3, 4));
        assert(nv2[k][3] == nv[k][3]);
        assert(nv2[k][4] == nv[k][4]);
    }
    assert forall|k: int| 0 <= k < nv2.len() && an2[k] implies #[trigger] dir_node_ok(nv2, sv, al, k, 2, 5, 6, 5, 6) by {
        assert(dir_node_ok(nv, sv, al, k, 2, 5, 6, 5, 6));
        assert(nv2[k][5] == nv[k][5]);
        assert(nv2[k][6] == nv[k][6]);
    }
    assert forall|j: int| 0 <= j < sv.len() && al[j] implies #[trigger] dir_syn_ok(nv2, sv, al, ro, j, 1, 3, 4, 3, 4) by {
        assert(dir_syn_ok(nv, sv, al, ro, j, 1, 3, 4, 3, 4));
        assert(nv2[sv[j][1] - 1][3] == nv[sv[j][1] - 1][3]);
        assert(nv2[sv[j][1] - 1][4] == nv[sv[j][1] - 1][4]);
    }
    assert forall|j: int| 0 <= j < sv.len() && al[j] implies #[trigger] dir_syn_ok(nv2, sv, al, ri, j, 2, 5, 6, 5, 6) by {
        assert(dir_syn_ok(nv, sv, al, ri, j, 2, 5, 6, 5, 6));
        assert(nv2[sv[j][2] - 1][5] == nv[sv[j][2] - 1][5]);
        assert(nv2[sv[j][2] - 1][6] == nv[sv[j][2] - 1][6]);
    }
    assert(ranked_lists(nv2, sv, an2, al, ro, ri));
}

/// A fresh node with empty lists keeps the lists well formed.
pub proof fn lemma_lists_new_node(nv: Seq<Seq<i32>>, sv: Seq<Seq<i32>>, nv2: Seq<Seq<i32>>, an: Seq<bool>, al: Seq<bool>, i: int)
    requires
        lists_ok(nv, sv, an, al),
        0 <= i < nv.len(),
        !an[i],
        nv2.len() == nv.len(),
        rows8(nv2),
        forall|c: int| 3 <= c <= 6 ==> #[trigger] nv2[i][c] == 0,
        forall|k: int, c: int| 0 <= k < nv.len() && k != i && 3 <= c <= 6 ==> #[trigger] nv2[k][c] == nv[k][c],
    ensures
        lists_ok(nv2, sv, an.update(i, true), al),
{
    let (ro, ri) = choose|ro: spec_fn(int) -> nat, ri: spec_fn(int) -> nat| #[trigger] ranked_lists(nv, sv, an, al, ro, ri);
    let an2 = an.update(i, true);
    assert(nv2[i][3] == 0 && nv2[i][4] == 0 && nv2[i][5] == 0 && nv2[i][6] == 0);
    assert forall|k: int| 0 <= k < nv2.len() && an2[k] implies #[trigger] dir_node_ok(nv2, sv, al, k, 1, 3, 4, 3, 4) by {
        if k != i {
            assert(dir_node_ok(nv, sv, al, k, 1, 3, 4, 3, 4));
            assert(nv2[k][3] == nv[k][3]);
            assert(nv2[k][4] == nv[k][4]);
        }
    }
    assert forall|k: int| 0 <= k < nv2.len() && an2[k] implies #[trigger] dir_node_ok(nv2, sv, al, k, 2, 5, 6, 5, 6) by {
        if k != i {
            assert(dir_node_ok(nv, sv, al, k, 2, 5, 6, 5, 6));
            assert(nv2[k][5] == nv[k][5]);
            assert(nv2[k][6] == nv[k][6]);
        }
    }
    assert forall|j: int| 0 <= j < sv.len() && al[j] implies #[trigger] dir_syn_ok(nv2, sv, al, ro, j, 1, 3, 4, 3, 4) by {
        assert(dir_syn_ok(nv, sv, al, ro, j, 1, 3, 4, 3, 4));
        assert(sv[j][1] - 1 != i);
        assert(nv2[sv[j][1] - 1][3] == nv[sv[j][1] - 1][3]);
        assert(nv2[sv[j][1] - 1][4] == nv[sv[j][1] - 1][4]);
    }
    assert forall|j: int| 0 <= j < sv.len() && al[j] implies #[trigger] dir_syn_ok(nv2, sv, al, ri, j, 2, 5, 6, 5, 6) by {
        assert(dir_syn_ok(nv, sv, al, ri, j, 2, 5, 6, 5, 6));
        assert(sv[j][2] - 1 != i);
        assert(nv2[sv[j][2] - 1][5] == nv[sv[j][2] - 1][5]);
        assert(nv2[sv[j][2] - 1][6] == nv[sv[j][2] - 1][6]);
    }
    assert(ranked_lists(nv2, sv, an2, al, ro, ri));
}

/// With nothing live, the lists are well formed.
pub proof fn lemma_lists_empty(nv: Seq<Seq<i32>>, sv: Seq<Seq<i32>>, an: Seq<bool>, al: Seq<bool>)
    requires
        an.len() == nv.len(),
        al.len() == sv.len(),
        rows8(nv),
        rows8(sv),
        forall|i: int| 0 <= i < an.len() ==> !#[trigger] an[i],
        forall|j: int| 0 <= j < al.len() ==> !#[trigger] al[j],
    ensures
        lists_ok(nv, sv, an, al),
{
    let z = |k: int| 0nat;
    assert(ranked_lists(nv, sv, an, al, z, z));
}

/// Unhooking and retiring live synapse `x` (as the cells of `nv2` and `sv2`
/// show for both directions) keeps the lists well formed.
pub proof fn lemma_lists_detach(
    nv: Seq<Seq<i32>>,
    sv: Seq<Seq<i32>>,
    nv2: Seq<Seq<i32>>,
    sv2: Seq<Seq<i32>>,
    an: Seq<bool>,
    al: Seq<bool>,
    x: int,
)
    requires
        lists_ok(nv, sv, an, al),
        0 <= x < sv.len(),
        al[x],
        nv2.len() == nv.len(),
        sv2.len() == sv.len(),
        rows8(nv2),
        rows8(sv2),
        forall|k: int, c: int|
            0 <= k < sv.len() && 1 <= c <= 6 ==> #[trigger] sv2[k][c] == (if sv[x][4] > 0 && k == sv[x][4] - 1 && c == 3 {
                norm_slot(sv[x][3])
            } else if sv[x][3] > 0 && k == sv[x][3] - 1 && c == 4 {
                norm_slot(sv[x][4])
            } else if sv[x][6] > 0 && k == sv[x][6] - 1 && c == 5 {
                norm_slot(sv[x][5])
            } else if sv[x][5] > 0 && k == sv[x][5] - 1 && c == 6 {
                norm_slot(sv[x][6])
            } else {
                sv[k][c]
            }),
        forall|i: int, c: int|
            0 <= i < nv.len() && 3 <= c <= 6 ==> #[trigger] nv2[i][c] == (if sv[x][4] <= 0 && i == sv[x][1] - 1 && c == 3 {
                norm_slot(sv[x][3])
            } else if sv[x][3] <= 0 && i == sv[x][1] - 1 && c == 4 {
                norm_slot(sv[x][4])
            } else if sv[x][6] <= 0 && i == sv[x][2] - 1 && c == 5 {
                norm_slot(sv[x][5])
            } else if sv[x][5] <= 0 && i == sv[x][2] - 1 && c == 6 {
                norm_slot(sv[x][6])
            } else {
                nv[i][c]
            }),
    ensures
        lists_ok(nv2, sv2, an, al.update(x, false)),
{
    let (ro, ri) = choose|ro: spec_fn(int) -> nat, ri: spec_fn(int) -> nat| #[trigger] ranked_lists(nv, sv, an, al, ro, ri);
    let al2 = al.update(x, false);
    lemma_dir_detach(nv, sv, nv2, sv2, an, al, ro, x, 1, 3, 4, 3, 4);
    lemma_dir_detach(nv, sv, nv2, sv2, an, al, ri, x, 2, 5, 6, 5, 6);
    assert forall|j: int| 0 <= j < sv2.len() && al2[j] implies 1 <= (#[trigger] sv2[j])[1] <= nv2.len() && 1 <= sv2[j][2]
        <= nv2.len() && an[sv2[j][1] - 1] && an[sv2[j][2] - 1] by {
        assert(sv2[j][1] == sv[j][1]);
        assert(sv2[j][2] == sv[j][2]);
    }
    assert(ranked_lists(nv2, sv2, an, al2, ro, ri));
}

/// Connecting fresh synapse `n` from live node `s` to live node `t` (as the
/// cells of `nv2` and `sv2` show) keeps the lists well formed.
pub proof fn lemma_lists_connect(
    nv: Seq<Seq<i32>>,
    sv: Seq<Seq<i32>>,
    nv2: Seq<Seq<i32>>,
    sv2: Seq<Seq<i32>>,
    an: Seq<bool>,
    al: Seq<bool>,
    n: int,
    s: int,
    t: int,
)
    requires
        lists_ok(nv, sv, an, al),
        0 <= n < sv.len(),
        sv.len() < 0x7fff_ffff,
        !al[n],
        0 <= s < nv.len(),
        0 <= t < nv.len(),
        an[s],
        an[t],
        nv2.len() == nv.len(),
        sv2.len() == sv.len(),
        rows8(nv2),
        rows8(sv2),
        sv2[n][1] == s + 1,
        sv2[n][2] == t + 1,
        sv2[n][3] == 0,
        sv2[n][5] == 0,
        sv2[n][4] == norm_slot(nv[s][4]),
        sv2[n][6] == norm_slot(nv[t][6]),
        forall|k: int, c: int|
            0 <= k < sv.len() && k != n && 1 <= c <= 6 ==> #[trigger] sv2[k][c] == (if nv[s][4] > 0 && k == nv[s][4] - 1
                && c == 3 {
                (n + 1) as i32
            } else if nv[t][6] > 0 && k == nv[t][6] - 1 && c == 5 {
                (n + 1) as i32
            } else {
                sv[k][c]
            }),
        forall|i: int, c: int|
            0 <= i < nv.len() && 3 <= c <= 6 ==> #[trigger] nv2[i][c] == (if i == s && c == 4 {
                (n + 1) as i32
            } else if i == s && c == 3 && nv[s][3] <= 0 {
                (n + 1) as i32
            } else if i == t && c == 6 {
                (n + 1) as i32
            } else if i == t && c == 5 && nv[t][5] <= 0 {
                (n + 1) as i32
            } else {
                nv[i][c]
            }),
    ensures
        lists_ok(nv2, sv2, an, al.update(n, true)),
{
    let (ro, ri) = choose|ro: spec_fn(int) -> nat, ri: spec_fn(int) -> nat| #[trigger] ranked_lists(nv, sv, an, al, ro, ri);
    let ro2 = |k: int|
        if k == n {
            if nv[s][4] > 0 {
                ro(nv[s][4] - 1) + 1
            } else {
                0
            }
        } else {
            ro(k)
        };
    let ri2 = |k: int|
        if k == n {
            if nv[t][6] > 0 {
                ri(nv[t][6] - 1) + 1
            } else {
                0
            }
        } else {
            ri(k)
        };
    let al2 = al.update(n, true);
    lemma_dir_append(nv, sv, nv2, sv2, an, al, ro, ro2, n, s, 1, 3, 4, 3, 4);
    lemma_dir_append(nv, sv, nv2, sv2, an, al, ri, ri2, n, t, 2, 5, 6, 5, 6);
    assert forall|j: int| 0 <= j < sv2.len() && al2[j] implies 1 <= (#[trigger] sv2[j])[1] <= nv2.len() && 1 <= sv2[j][2]
        <= nv2.len() && an[sv2[j][1] - 1] && an[sv2[j][2] - 1] by {
        if j != n {
            assert(sv2[j][1] == sv[j][1]);
            assert(sv2[j][2] == sv[j][2]);
        }
    }
    assert(ranked_lists(nv2, sv2, an, al2, ro2, ri2));
}

/// Where node `i`'s outgoing head is unset, no live synapse leaves it; where
/// its incoming head is unset, none enters it.
pub proof fn lemma_lists_no_member(nv: Seq<Seq<i32>>, sv: Seq<Seq<i32>>, an: Seq<bool>, al: Seq<bool>, i: int)
    requires
        lists_ok(nv, sv, an, al),
        0 <= i < nv.len(),
    ensures
        nv[i][3] <= 0 ==> forall|j: int| 0 <= j < sv.len() && al[j] ==> (#[trigger] sv[j])[1] != i + 1,
        nv[i][5] <= 0 ==> forall|j: int| 0 <= j < sv.len() && al[j] ==> (#[trigger] sv[j])[2] != i + 1,
{
    let (ro, ri) = choose|ro: spec_fn(int) -> nat, ri: spec_fn(int) -> nat| #[trigger] ranked_lists(nv, sv, an, al, ro, ri);
    if nv[i][3] <= 0 {
        assert forall|j: int| 0 <= j < sv.len() && al[j] implies (#[trigger] sv[j])[1] != i + 1 by {
            lemma_dir_no_member(nv, sv, an, al, ro, i, j, 1, 3, 4, 3, 4);
        }
    }
    if nv[i][5] <= 0 {
        assert forall|j: int| 0 <= j < sv.len() && al[j] implies (#[trigger] sv[j])[2] != i + 1 by {
            lemma_dir_no_member(nv, sv, an, al, ri, i, j, 2, 5, 6, 5, 6);
        }
    }
}

/// A live node's list heads name live synapses.
pub proof fn lemma_lists_heads(nv: Seq<Seq<i32>>, sv: Seq<Seq<i32>>, an: Seq<bool>, al: Seq<bool>, i: int)
    requires
        lists_ok(nv, sv, an, al),
        0 <= i < nv.len(),
        an[i],
    ensures
        nv[i][3] > 0 ==> nv[i][3] <= sv.len() && al[nv[i][3] - 1] && sv[nv[i][3] - 1][1] == i + 1,
        nv[i][5] > 0 ==> nv[i][5] <= sv.len() && al[nv[i][5] - 1] && sv[nv[i][5] - 1][2] == i + 1,
        nv[i][4] > 0 ==> nv[i][4] <= sv.len() && al[nv[i][4] - 1] && sv[nv[i][4] - 1][1] == i + 1,
        nv[i][6] > 0 ==> nv[i][6] <= sv.len() && al[nv[i][6] - 1] && sv[nv[i][6] - 1][2] == i + 1,
{
    let (ro, ri) = choose|ro: spec_fn(int) -> nat, ri: spec_fn(int) -> nat| #[trigger] ranked_lists(nv, sv, an, al, ro, ri);
    assert(dir_node_ok(nv, sv, al, i, 1, 3, 4, 3, 4));
    assert(dir_node_ok(nv, sv, al, i, 2, 5, 6, 5, 6));
}

/// Live node `i` in its chain: its next and previous nodes are live and point
/// back at it, and ranks grow along the next pointers.
pub open spec fn chain_node_ok(nv: Seq<Seq<i32>>, an: Seq<bool>, rk: spec_fn(int) -> nat, i: int) -> bool {
    let c = nv[i];
    &&& c[1] <= nv.len() && c[2] <= nv.len()
    &&& c[1] > 0 ==> an[c[1] - 1] && nv[c[1] - 1][2] == i + 1 && rk(i) < rk(c[1] - 1)
    &&& c[2] > 0 ==> an[c[2] - 1] && nv[c[2] - 1][1] == i + 1
}

/// The node chains are well formed under the rank `rk`.
pub open spec fn ranked_chain(nv: Seq<Seq<i32>>, an: Seq<bool>, rk: spec_fn(int) -> nat) -> bool {
    &&& an.len() == nv.len()
    &&& rows8(nv)
    &&& forall|i: int| 0 <= i < nv.len() && an[i] ==> #[trigger] chain_node_ok(nv, an, rk, i)
}

/// The node chains are well formed: live nodes are linked both ways to live
/// neighbours, without cycles.
pub open spec fn chain_ok(nv: Seq<Seq<i32>>, an: Seq<bool>) -> bool {
    exists|rk: spec_fn(int) -> nat| #[trigger] ranked_chain(nv, an, rk)
}

/// A step that leaves every node's chain cells and the live nodes alone
/// keeps the chains well formed.
pub proof fn lemma_chain_frame(nv: Seq<Seq<i32>>, nv2: Seq<Seq<i32>>, an: Seq<bool>)
    requires
        chain_ok(nv, an),
        nv2.len() == nv.len(),
        rows8(nv2),
        forall|k: int, c: int| 0 <= k < nv.len() && (c == 1 || c == 2) ==> #[trigger] nv2[k][c] == nv[k][c],
    ensures
        chain_ok(nv2, an),
{
    let rk = choose|rk: spec_fn(int) -> nat| #[trigger] ranked_chain(nv, an, rk);
    assert forall|i: int| 0 <= i < nv2.len() && an[i] implies #[trigger] chain_node_ok(nv2, an, rk, i) by {
        assert(chain_node_ok(nv, an, rk, i));
        assert(nv2[i][1] == nv[i][1] && nv2[i][2] == nv[i][2]);
        if nv[i][1] > 0 {
            assert(nv2[nv[i][1] - 1][2] == nv[nv[i][1] - 1][2]);
        }
        if nv[i][2] > 0 {
            assert(nv2[nv[i][2] - 1][1] == nv[nv[i][2] - 1][1]);
        }
    }
    assert(ranked_chain(nv2, an, rk));
}

/// With nothing live, the chains are well formed.
pub proof fn lemma_chain_empty(nv: Seq<Seq<i32>>, an: Seq<bool>)
    requires
        an.len() == nv.len(),
        rows8(nv),
        forall|i: int| 0 <= i < an.len() ==> !#[trigger] an[i],
    ensures
        chain_ok(nv, an),
{
    let z = |k: int| 0nat;
    assert(ranked_chain(nv, an, z));
}

/// A fresh unlinked node keeps the chains well formed.
pub proof fn lemma_chain_new(nv: Seq<Seq<i32>>, nv2: Seq<Seq<i32>>, an: Seq<bool>, i: int)
    requires
        chain_ok(nv, an),
        0 <= i < nv.len(),
        !an[i],
        nv2.len() == nv.len(),
        rows8(nv2),
        nv2[i][1] == 0,
        nv2[i][2] == 0,
        forall|k: int, c: int| 0 <= k < nv.len() && k != i && (c == 1 || c == 2) ==> #[trigger] nv2[k][c] == nv[k][c],
    ensures
        chain_ok(nv2, an.update(i, true)),
{
    let rk = choose|rk: spec_fn(int) -> nat| #[trigger] ranked_chain(nv, an, rk);
    let an2 = an.update(i, true);
    assert forall|k: int| 0 <= k < nv2.len() && an2[k] implies #[trigger] chain_node_ok(nv2, an2, rk, k) by {
        if k != i {
            assert(chain_node_ok(nv, an, rk, k));
            assert(nv2[k][1] == nv[k][1] && nv2[k][2] == nv[k][2]);
            if nv[k][1] > 0 {
                assert(nv[k][1] - 1 != i);
                assert(nv2[nv[k][1] - 1][2] == nv[nv[k][1] - 1][2]);
            }
            if nv[k][2] > 0 {
                assert(nv[k][2] - 1 != i);
                assert(nv2[nv[k][2] - 1][1] == nv[nv[k][2] - 1][1]);
            }
        }
    }
    assert(ranked_chain(nv2, an2, rk));
}

/// Unlinking live node `i` from its neighbours and retiring it keeps the
/// chains well formed; its successor stays live.
pub proof fn lemma_chain_drop(nv: Seq<Seq<i32>>, nv2: Seq<Seq<i32>>, an: Seq<bool>, i: int)
    requires
        chain_ok(nv, an),
        0 <= i < nv.len(),
        an[i],
        nv2.len() == nv.len(),
        rows8(nv2),
        forall|k: int, c: int|
            0 <= k < nv.len() && (c == 1 || c == 2) ==> #[trigger] nv2[k][c] == (if nv[i][2] > 0 && k == nv[i][2] - 1 && c == 1 {
                norm_slot(nv[i][1])
            } else if nv[i][1] > 0 && k == nv[i][1] - 1 && c == 2 {
                norm_slot(nv[i][2])
            } else {
                nv[k][c]
            }),
    ensures
        chain_ok(nv2, an.update(i, false)),
        nv[i][1] > 0 ==> nv[i][1] <= nv.len() && an[nv[i][1] - 1] && nv[i][1] - 1 != i,
{
    let rk = choose|rk: spec_fn(int) -> nat| #[trigger] ranked_chain(nv, an, rk);
    let an2 = an.update(i, false);
    let nx = nv[i][1];
    let pv = nv[i][2];
    assert(chain_node_ok(nv, an, rk, i));
    if pv > 0 {
        assert(chain_node_ok(nv, an, rk, pv - 1));
        assert(pv - 1 != i);
    }
    if nx > 0 {
        assert(chain_node_ok(nv, an, rk, nx - 1));
        assert(nx - 1 != i);
    }
    assert forall|k: int| 0 <= k < nv2.len() && an2[k] implies #[trigger] chain_node_ok(nv2, an2, rk, k) by {
        assert(chain_node_ok(nv, an, rk, k));
        let c = nv[k];
        assert(nv2[k][1] == (if pv > 0 && k == pv - 1 { norm_slot(nx) } else { c[1] }));
        assert(nv2[k][2] == (if nx > 0 && k == nx - 1 { norm_slot(pv) } else { c[2] }));
        if c[1] > 0 {
            assert(chain_node_ok(nv, an, rk, c[1] - 1));
            assert(nv2[c[1] - 1][2] == nv[c[1] - 1][2] || (nx > 0 && c[1] - 1 == nx - 1));
        }
        if c[2] > 0 {
            assert(chain_node_ok(nv, an, rk, c[2] - 1));
            assert(nv2[c[2] - 1][1] == nv[c[2] - 1][1] || (pv > 0 && c[2] - 1 == pv - 1));
        }
        if pv > 0 && k == pv - 1 && nx > 0 {
            assert(nv2[nx - 1][2] == pv);
        }
        if nx > 0 && k == nx - 1 && pv > 0 {
            assert(nv2[pv - 1][1] == nx);
        }
    }
    assert(ranked_chain(nv2, an2, rk));
}

/// Linking fresh node `n` right after live node `p` keeps the chains well
/// formed.
pub proof fn lemma_chain_after(nv: Seq<Seq<i32>>, nv2: Seq<Seq<i32>>, an: Seq<bool>, p: int, n: int)
    requires
        chain_ok(nv, an),
        0 <= p < nv.len(),
        0 <= n < nv.len(),
        nv.len() < 0x7fff_ffff,
        an[p],
        !an[n],
        nv2.len() == nv.len(),
        rows8(nv2),
        nv2[n][1] == norm_slot(nv[p][1]),
        nv2[n][2] == p + 1,
        forall|k: int, c: int|
            0 <= k < nv.len() && k != n && (c == 1 || c == 2) ==> #[trigger] nv2[k][c] == (if k == p && c == 1 {
                (n + 1) as i32
            } else if nv[p][1] > 0 && k == nv[p][1] - 1 && c == 2 {
                (n + 1) as i32
            } else {
                nv[k][c]
            }),
    ensures
        chain_ok(nv2, an.update(n, true)),
{
    let rk = choose|rk: spec_fn(int) -> nat| #[trigger] ranked_chain(nv, an, rk);
    let an2 = an.update(n, true);
    let nx = nv[p][1];
    let rp = rk(p);
    let rk2 = |k: int|
        if k == n {
            (rp + 1) as nat
        } else if rk(k) > rp {
            (rk(k) + 1) as nat
        } else {
            rk(k)
        };
    assert(chain_node_ok(nv, an, rk, p));
    assert(p != n);
    if nx > 0 {
        assert(chain_node_ok(nv, an, rk, nx - 1));
        assert(nx - 1 != n);
        assert(nx - 1 != p);
    }
    assert forall|k: int| 0 <= k < nv2.len() && an2[k] implies #[trigger] chain_node_ok(nv2, an2, rk2, k) by {
        if k != n {
            assert(chain_node_ok(nv, an, rk, k));
            let c = nv[k];
            if c[1] > 0 {
                assert(c[1] - 1 != n);
                assert(chain_node_ok(nv, an, rk, c[1] - 1));
            }
            if c[2] > 0 {
                assert(c[2] - 1 != n);
                assert(chain_node_ok(nv, an, rk, c[2] - 1));
            }
            assert(nv2[k][1] == (if k == p { (n + 1) as i32 } else { c[1] }));
            assert(nv2[k][2] == (if nx > 0 && k == nx - 1 { (n + 1) as i32 } else { c[2] }));
            if c[1] > 0 && k != p {
                assert(nv2[c[1] - 1][2] == nv[c[1] - 1][2]);
            }
            if c[2] > 0 && !(nx > 0 && k == nx - 1) {
                assert(nv2[c[2] - 1][1] == nv[c[2] - 1][1]);
            }
        } else {
            if nx > 0 {
                assert(nv2[nx - 1][2] == n + 1);
            }
            assert(nv2[p][1] == n + 1);
        }
    }
    assert(ranked_chain(nv2, an2, rk2));
}

/// Linking fresh node `n` right before live node `q` keeps the chains well
/// formed.
pub proof fn lemma_chain_before(nv: Seq<Seq<i32>>, nv2: Seq<Seq<i32>>, an: Seq<bool>, q: int, n: int)
    requires
        chain_ok(nv, an),
        0 <= q < nv.len(),
        0 <= n < nv.len(),
        nv.len() < 0x7fff_ffff,
        an[q],
        !an[n],
        nv2.len() == nv.len(),
        rows8(nv2),
        nv2[n][1] == q + 1,
        nv2[n][2] == norm_slot(nv[q][2]),
        forall|k: int, c: int|
            0 <= k < nv.len() && k != n && (c == 1 || c == 2) ==> #[trigger] nv2[k][c] == (if k == q && c == 2 {
                (n + 1) as i32
            } else if nv[q][2] > 0 && k == nv[q][2] - 1 && c == 1 {
                (n + 1) as i32
            } else {
                nv[k][c]
            }),
    ensures
        chain_ok(nv2, an.update(n, true)),
{
    let rk = choose|rk: spec_fn(int) -> nat| #[trigger] ranked_chain(nv, an, rk);
    let an2 = an.update(n, true);
    let pv = nv[q][2];
    let rq = rk(q);
    let rk2 = |k: int|
        if k == n {
            rq
        } else if rk(k) >= rq {
            (rk(k) + 1) as nat
        } else {
            rk(k)
        };
    assert(chain_node_ok(nv, an, rk, q));
    assert(q != n);
    if pv > 0 {
        assert(chain_node_ok(nv, an, rk, pv - 1));
        assert(pv - 1 != n);
        assert(pv - 1 != q);
    }
    assert forall|k: int| 0 <= k < nv2.len() && an2[k] implies #[trigger] chain_node_ok(nv2, an2, rk2, k) by {
        if k != n {
            assert(chain_node_ok(nv, an, rk, k));
            let c = nv[k];
            if c[1] > 0 {
                assert(c[1] - 1 != n);
                assert(chain_node_ok(nv, an, rk, c[1] - 1));
            }
            if c[2] > 0 {
                assert(c[2] - 1 != n);
                assert(chain_node_ok(nv, an, rk, c[2] - 1));
            }
            assert(nv2[k][2] == (if k == q { (n + 1) as i32 } else { c[2] }));
            assert(nv2[k][1] == (if pv > 0 && k == pv - 1 { (n + 1) as i32 } else { c[1] }));
            if c[2] > 0 && k != q {
                assert(nv2[c[2] - 1][1] == nv[c[2] - 1][1]);
            }
            if c[1] > 0 && !(pv > 0 && k == pv - 1) {
                assert(nv2[c[1] - 1][2] == nv[c[1] - 1][2]);
            }
        } else {
            if pv > 0 {
                assert(nv2[pv - 1][1] == n + 1);
            }
            assert(nv2[q][2] == n + 1);
        }
    }
    assert(ranked_chain(nv2, an2, rk2));
}

/// A live node's chain neighbours are live.
pub proof fn lemma_chain_neighbours(nv: Seq<Seq<i32>>, an: Seq<bool>, i: int)
    requires
        chain_ok(nv, an),
        0 <= i < nv.len(),
        an[i],
    ensures
        nv[i][1] > 0 ==> nv[i][1] <= nv.len() && an[nv[i][1] - 1] && nv[i][1] - 1 != i,
        nv[i][2] > 0 ==> nv[i][2] <= nv.len() && an[nv[i][2] - 1],
{
    let rk = choose|rk: spec_fn(int) -> nat| #[trigger] ranked_chain(nv, an, rk);
    assert(chain_node_ok(nv, an, rk, i));
}

/// Carrying the nodes and synapses over to larger stores, with the new slots
/// empty and not live, keeps the lists and chains well formed.
pub proof fn lemma_extend(
    nv: Seq<Seq<i32>>,
    sv: Seq<Seq<i32>>,
    an: Seq<bool>,
    al: Seq<bool>,
    nv2: Seq<Seq<i32>>,
    sv2: Seq<Seq<i32>>,
    an2: Seq<bool>,
    al2: Seq<bool>,
)
    requires
        nv.len() <= nv2.len(),
        sv.len() <= sv2.len(),
        an.len() == nv.len(),
        al.len() == sv.len(),
        an2.len() == nv2.len(),
        al2.len() == sv2.len(),
        rows8(nv2),
        rows8(sv2),
        forall|i: int| 0 <= i < nv.len() ==> #[trigger] nv2[i] == nv[i],
        forall|j: int| 0 <= j < sv.len() ==> #[trigger] sv2[j] == sv[j],
        forall|i: int| 0 <= i < nv2.len() ==> #[trigger] an2[i] == (i < nv.len() && an[i]),
        forall|j: int| 0 <= j < sv2.len() ==> #[trigger] al2[j] == (j < sv.len() && al[j]),
    ensures
        lists_ok(nv, sv, an, al) ==> lists_ok(nv2, sv2, an2, al2),
        chain_ok(nv, an) ==> chain_ok(nv2, an2),
{
    if lists_ok(nv, sv, an, al) {
        let (ro, ri) = choose|ro: spec_fn(int) -> nat, ri: spec_fn(int) -> nat| #[trigger] ranked_lists(nv, sv, an, al, ro, ri);
        assert forall|i: int| 0 <= i < nv2.len() && an2[i] implies #[trigger] dir_node_ok(nv2, sv2, al2, i, 1, 3, 4, 3, 4) by {
            assert(dir_node_ok(nv, sv, al, i, 1, 3, 4, 3, 4));
        }
        assert forall|i: int| 0 <= i < nv2.len() && an2[i] implies #[trigger] dir_node_ok(nv2, sv2, al2, i, 2, 5, 6, 5, 6) by {
            assert(dir_node_ok(nv, sv, al, i, 2, 5, 6, 5, 6));
        }
        assert forall|j: int| 0 <= j < sv2.len() && al2[j] implies #[trigger] dir_syn_ok(nv2, sv2, al2, ro, j, 1, 3, 4, 3, 4) by {
            assert(dir_syn_ok(nv, sv, al, ro, j, 1, 3, 4, 3, 4));
            assert(nv2[sv[j][1] - 1] == nv[sv[j][1] - 1]);
            if sv[j][3] > 0 {
                assert(sv2[sv[j][3] - 1] == sv[sv[j][3] - 1]);
            }
            if sv[j][4] > 0 {
                assert(sv2[sv[j][4] - 1] == sv[sv[j][4] - 1]);
            }
        }
        assert forall|j: int| 0 <= j < sv2.len() && al2[j] implies #[trigger] dir_syn_ok(nv2, sv2, al2, ri, j, 2, 5, 6, 5, 6) by {
            assert(dir_syn_ok(nv, sv, al, ri, j, 2, 5, 6, 5, 6));
            assert(nv2[sv[j][2] - 1] == nv[sv[j][2] - 1]);
            if sv[j][5] > 0 {
                assert(sv2[sv[j][5] - 1] == sv[sv[j][5] - 1]);
            }
            if sv[j][6] > 0 {
                assert(sv2[sv[j][6] - 1] == sv[sv[j][6] - 1]);
            }
        }
        assert forall|j: int| 0 <= j < sv2.len() && al2[j] implies 1 <= (#[trigger] sv2[j])[1] <= nv2.len() && 1 <= sv2[j][2]
            <= nv2.len() && an2[sv2[j][1] - 1] && an2[sv2[j][2] - 1] by {
            assert(sv2[j] == sv[j]);
        }
        assert(ranked_lists(nv2, sv2, an2, al2, ro, ri));
    }
    if chain_ok(nv, an) {
        let rk = choose|rk: spec_fn(int) -> nat| #[trigger] ranked_chain(nv, an, rk);
        assert forall|i: int| 0 <= i < nv2.len() && an2[i] implies #[trigger] chain_node_ok(nv2, an2, rk, i) by {
            assert(chain_node_ok(nv, an, rk, i));
            if nv[i][1] > 0 {
                assert(nv2[nv[i][1] - 1] == nv[nv[i][1] - 1]);
            }
            if nv[i][2] > 0 {
                assert(nv2[nv[i][2] - 1] == nv[nv[i][2] - 1]);
            }
        }
        assert(ranked_chain(nv2, an2, rk));
    }
}

/// `l` lists, in order, the nodes from index `l[0]` on along the next
/// pointers, to the end of the chain.
pub open spec fn chain_from(nv: Seq<Seq<i32>>, l: Seq<int>) -> bool {
    &&& l.len() > 0
    &&& l.no_duplicates()
    &&& forall|k: int| 0 <= k < l.len() ==> 0 <= #[trigger] l[k] < nv.len()
    &&& forall|k: int| 0 <= k < l.len() - 1 ==> nv[#[trigger] l[k]][1] == l[k + 1] + 1
    &&& nv[l[l.len() - 1]][1] <= 0
}

proof fn lemma_chain_from_ranks(nv: Seq<Seq<i32>>, an: Seq<bool>, rk: spec_fn(int) -> nat, l: Seq<int>, k: int)
    requires
        ranked_chain(nv, an, rk),
        chain_from(nv, l),
        an[l[0]],
        0 <= k < l.len(),
    ensures
        an[l[k]],
        rk(l[0]) <= rk(l[k]),
    decreases k,
{
    if k > 0 {
        lemma_chain_from_ranks(nv, an, rk, l, k - 1);
        assert(chain_node_ok(nv, an, rk, l[k - 1]));
    }
}

/// The node before the first of a chain list is not on it.
pub proof fn lemma_chain_from_prev(nv: Seq<Seq<i32>>, an: Seq<bool>, l: Seq<int>)
    requires
        chain_ok(nv, an),
        chain_from(nv, l),
        an[l[0]],
    ensures
        nv[l[0]][2] > 0 ==> forall|k: int| 0 <= k < l.len() ==> #[trigger] l[k] != nv[l[0]][2] - 1,
{
    let rk = choose|rk: spec_fn(int) -> nat| #[trigger] ranked_chain(nv, an, rk);
    assert(chain_node_ok(nv, an, rk, l[0]));
    if nv[l[0]][2] > 0 {
        let p = nv[l[0]][2] - 1;
        assert(chain_node_ok(nv, an, rk, p));
        assert forall|k: int| 0 <= k < l.len() implies #[trigger] l[k] != p by {
            lemma_chain_from_ranks(nv, an, rk, l, k);
        }
    }
}

proof fn lemma_chain_from_agree(nv: Seq<Seq<i32>>, l1: Seq<int>, l2: Seq<int>, k: int)
    requires
        chain_from(nv, l1),
        chain_from(nv, l2),
        l1[0] == l2[0],
        0 <= k < l1.len(),
        k < l2.len(),
    ensures
        l1[k] == l2[k],
    decreases k,
{
    if k > 0 {
        lemma_chain_from_agree(nv, l1, l2, k - 1);
    }
}

/// A chain list is determined by its first node.
pub proof fn lemma_chain_from_unique(nv: Seq<Seq<i32>>, l1: Seq<int>, l2: Seq<int>)
    requires
        chain_from(nv, l1),
        chain_from(nv, l2),
        l1[0] == l2[0],
    ensures
        l1 == l2,
{
    if l1.len() < l2.len() {
        lemma_chain_from_agree(nv, l1, l2, l1.len() - 1);
        assert(nv[l2[l1.len() - 1]][1] == l2[l1.len() as int] + 1);
    } else if l2.len() < l1.len() {
        lemma_chain_from_agree(nv, l1, l2, l2.len() - 1);
        assert(nv[l1[l2.len() - 1]][1] == l1[l2.len() as int] + 1);
    }
    assert forall|k: int| 0 <= k < l1.len() implies l1[k] == l2[k] by {
        lemma_chain_from_agree(nv, l1, l2, k);
    }
    assert(l1 =~= l2);
}

} // verus!
