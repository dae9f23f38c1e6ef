use crate::constants::{NODE_STRIDE, SYNAPSE_STRIDE};
use crate::errors::slot_allocator_error::SlotAllocatorError;
use crate::primitives::entry_store_writer::{EntryStoreWriter, lemma_disjoint_frame, lemma_frame_trans, set_cell, zeros};
use crate::primitives::slot::{SlotId, decodes, encode_slot, norm_slot};
use crate::primitives::triple_buffer_writer::{TripleBufferWriter, tb_base, tb_in_region, tb_inv};
use crate::primitives::types::{AtomicBuffer, lemma_unchanged_trans, lemma_unchanged_widen, unchanged_outside};
use crate::topology::network::list_shape::{
    chain_from, chain_ok, dir_node_ok, lemma_chain_from_prev, lemma_chain_from_unique, dir_syn_ok, ranked_lists, lemma_chain_after, lemma_chain_before, lemma_chain_drop, lemma_chain_empty,
    lemma_chain_frame, lemma_chain_neighbours, lemma_chain_new, lemma_extend, lemma_lists_connect, lemma_lists_empty, lemma_lists_detach, lemma_lists_drop_node, lemma_lists_heads, lemma_lists_new_node, lemma_lists_no_member, lists_ok,
    rows8,
};
use crate::topology::network::network_config::NetworkConfig;
use crate::topology::network::network_reader::NetworkReader;
use crate::topology::network::synapse_handle::SynapseView;
use crate::topology::network::synapse_writer::SynapseWriter;
use crate::topology::node::node_handle::NodeHandle;
use crate::topology::node::node_store_writer::{NodeStoreWriter, linked_after, linked_before, node_init, unlinked};
use crate::topology::node::node_writer::{NodeWriter, with_kind};
use vstd::prelude::*;

verus! {

/// The cell value `v` names no synapse, or one whose source and target are set.
pub open spec fn syn_ref_ok(sv: Seq<Seq<i32>>, v: i32) -> bool {
    v > 0 ==> sv[v - 1][1] > 0 && sv[v - 1][2] > 0
}

/// A node's pointers stay in range, and the synapses it names are connected.
pub open spec fn node_links_ok(c: Seq<i32>, sv: Seq<Seq<i32>>, nc: int, sc: int) -> bool {
    &&& c.len() == NODE_STRIDE
    &&& c[1] <= nc
    &&& c[2] <= nc
    &&& c[3] <= sc && syn_ref_ok(sv, c[3])
    &&& c[4] <= sc && syn_ref_ok(sv, c[4])
    &&& c[5] <= sc && syn_ref_ok(sv, c[5])
    &&& c[6] <= sc && syn_ref_ok(sv, c[6])
}

/// A synapse's pointers stay in range, and the synapses it names are connected.
pub open spec fn syn_links_ok(c: Seq<i32>, sv: Seq<Seq<i32>>, nc: int, sc: int) -> bool {
    &&& c.len() == SYNAPSE_STRIDE
    &&& c[1] <= nc
    &&& c[2] <= nc
    &&& c[3] <= sc && syn_ref_ok(sv, c[3])
    &&& c[4] <= sc && syn_ref_ok(sv, c[4])
    &&& c[5] <= sc && syn_ref_ok(sv, c[5])
    &&& c[6] <= sc && syn_ref_ok(sv, c[6])
}

/// Every pointer cell of every node and synapse slot is in range, and every
/// synapse that a pointer names has its source and target set.
pub open spec fn links_ok(nv: Seq<Seq<i32>>, sv: Seq<Seq<i32>>, nc: int, sc: int) -> bool {
    &&& nv.len() == nc
    &&& sv.len() == sc
    &&& forall|i: int| 0 <= i < nc ==> node_links_ok(#[trigger] nv[i], sv, nc, sc)
    &&& forall|j: int| 0 <= j < sc ==> syn_links_ok(#[trigger] sv[j], sv, nc, sc)
}

/// The core cells of a freshly connected synapse.
pub open spec fn syn_init(kind: i32, source: i32, target: i32, out_prev: i32, in_prev: i32) -> Seq<i32> {
    seq![with_kind(0i32, kind), source, target, 0i32, out_prev, 0i32, in_prev, 0i32]
}

/// The synapse views after `connect()` put synapse index `n` behind the tails
/// `stail` (of the source's outgoing list) and `ttail` (of the target's
/// incoming list); `s` and `t` are node indices.
pub open spec fn connected_syns(sv: Seq<Seq<i32>>, n: int, kind: i32, s: int, t: int, stail: i32, ttail: i32) -> Seq<Seq<i32>> {
    let s1 = sv.update(n, syn_init(kind, (s + 1) as i32, (t + 1) as i32, norm_slot(stail), norm_slot(ttail)));
    let s2 = if stail > 0 {
        set_cell(s1, stail - 1, 3, (n + 1) as i32)
    } else {
        s1
    };
    if ttail > 0 {
        set_cell(s2, ttail - 1, 5, (n + 1) as i32)
    } else {
        s2
    }
}

/// The node views after `connect()` appended synapse index `n` to the
/// outgoing list of node `s` and the incoming list of node `t`.
pub open spec fn connected_nodes(nv: Seq<Seq<i32>>, n: int, s: int, t: int) -> Seq<Seq<i32>> {
    let n1 = if nv[s][3] <= 0 {
        set_cell(nv, s, 3, (n + 1) as i32)
    } else {
        nv
    };
    let n2 = if n1[t][5] <= 0 {
        set_cell(n1, t, 5, (n + 1) as i32)
    } else {
        n1
    };
    let n3 = set_cell(n2, s, 4, (n + 1) as i32);
    set_cell(n3, t, 6, (n + 1) as i32)
}

/// The synapse views after `disconnect_synapse()` unhooked synapse index `x`
/// from its neighbours in both lists.
pub open spec fn detached_syns(sv: Seq<Seq<i32>>, x: int) -> Seq<Seq<i32>> {
    let on = sv[x][3];
    let op = sv[x][4];
    let inn = sv[x][5];
    let ip = sv[x][6];
    let s1 = if op > 0 {
        set_cell(sv, op - 1, 3, norm_slot(on))
    } else {
        sv
    };
    let s2 = if on > 0 {
        set_cell(s1, on - 1, 4, norm_slot(op))
    } else {
        s1
    };
    let s3 = if ip > 0 {
        set_cell(s2, ip - 1, 5, norm_slot(inn))
    } else {
        s2
    };
    if inn > 0 {
        set_cell(s3, inn - 1, 6, norm_slot(ip))
    } else {
        s3
    }
}

/// The node views after `disconnect_synapse()` unhooked synapse index `x`:
/// where the synapse was first or last in a list, its source's or target's
/// head or tail moves on.
pub open spec fn detached_nodes(nv: Seq<Seq<i32>>, sv: Seq<Seq<i32>>, x: int) -> Seq<Seq<i32>> {
    let src = sv[x][1] - 1;
    let tgt = sv[x][2] - 1;
    let on = sv[x][3];
    let op = sv[x][4];
    let inn = sv[x][5];
    let ip = sv[x][6];
    let n1 = if op > 0 {
        nv
    } else {
        set_cell(nv, src, 3, norm_slot(on))
    };
    let n2 = if on > 0 {
        n1
    } else {
        set_cell(n1, src, 4, norm_slot(op))
    };
    let n3 = if ip > 0 {
        n2
    } else {
        set_cell(n2, tgt, 5, norm_slot(inn))
    };
    if inn > 0 {
        n3
    } else {
        set_cell(n3, tgt, 6, norm_slot(ip))
    }
}

/// `l` lists, in order, the synapse indices of the outgoing list of node
/// slot `s`: linked forward through cell 3 and backward through cell 4.
pub open spec fn out_list(nv: Seq<Seq<i32>>, sv: Seq<Seq<i32>>, s: int, l: Seq<int>) -> bool {
    &&& l.no_duplicates()
    &&& forall|k: int| 0 <= k < l.len() ==> 0 <= #[trigger] l[k] < sv.len()
    &&& (l.len() == 0 ==> nv[s - 1][3] <= 0)
    &&& (l.len() > 0 ==> nv[s - 1][3] == l[0] + 1 && sv[l[0]][4] <= 0 && sv[l[l.len() - 1]][3] <= 0)
    &&& forall|k: int| 0 <= k < l.len() - 1 ==> sv[#[trigger] l[k]][3] == l[k + 1] + 1
    &&& forall|k: int| 0 < k < l.len() ==> sv[#[trigger] l[k]][4] == l[k - 1] + 1
}

/// On well-formed lists, the outgoing list of a live node holds live
/// synapses that leave it.
pub proof fn lemma_out_list_live(nv: Seq<Seq<i32>>, sv: Seq<Seq<i32>>, an: Seq<bool>, al: Seq<bool>, s: int, l: Seq<int>)
    requires
        lists_ok(nv, sv, an, al),
        1 <= s <= nv.len(),
        an[s - 1],
        out_list(nv, sv, s, l),
    ensures
        forall|k: int| 0 <= k < l.len() ==> al[#[trigger] l[k]] && sv[l[k]][1] == s,
{
    let (ro, ri) = choose|ro: spec_fn(int) -> nat, ri: spec_fn(int) -> nat| #[trigger] ranked_lists(nv, sv, an, al, ro, ri);
    assert forall|k: int| 0 <= k < l.len() implies al[#[trigger] l[k]] && sv[l[k]][1] == s by {
        lemma_out_list_live_at(nv, sv, an, al, ro, ri, s, l, k);
    }
}

proof fn lemma_out_list_live_at(
    nv: Seq<Seq<i32>>,
    sv: Seq<Seq<i32>>,
    an: Seq<bool>,
    al: Seq<bool>,
    ro: spec_fn(int) -> nat,
    ri: spec_fn(int) -> nat,
    s: int,
    l: Seq<int>,
    k: int,
)
    requires
        ranked_lists(nv, sv, an, al, ro, ri),
        1 <= s <= nv.len(),
        an[s - 1],
        out_list(nv, sv, s, l),
        0 <= k < l.len(),
    ensures
        al[l[k]] && sv[l[k]][1] == s,
    decreases k,
{
    if k == 0 {
        assert(dir_node_ok(nv, sv, al, s - 1, 1, 3, 4, 3, 4));
    } else {
        lemma_out_list_live_at(nv, sv, an, al, ro, ri, s, l, k - 1);
        assert(dir_syn_ok(nv, sv, al, ro, l[k - 1], 1, 3, 4, 3, 4));
    }
}

/// Walking back from live synapse `j` of node `s`'s outgoing list along the
/// previous pointers reaches the head: the list up to `j`, in order, with
/// ranks growing along it.
proof fn lemma_back_walk(
    nv: Seq<Seq<i32>>,
    sv: Seq<Seq<i32>>,
    an: Seq<bool>,
    al: Seq<bool>,
    ro: spec_fn(int) -> nat,
    ri: spec_fn(int) -> nat,
    s: int,
    j: int,
) -> (l: Seq<int>)
    requires
        ranked_lists(nv, sv, an, al, ro, ri),
        1 <= s <= nv.len(),
        0 <= j < sv.len(),
        al[j],
        sv[j][1] == s,
    ensures
        l.len() > 0,
        l[l.len() - 1] == j,
        nv[s - 1][3] == l[0] + 1,
        sv[l[0]][4] <= 0,
        forall|k: int| 0 <= k < l.len() ==> 0 <= #[trigger] l[k] < sv.len() && al[l[k]] && sv[l[k]][1] == s,
        forall|k: int| 0 <= k < l.len() - 1 ==> sv[#[trigger] l[k]][3] == l[k + 1] + 1,
        forall|k: int| 0 < k < l.len() ==> sv[#[trigger] l[k]][4] == l[k - 1] + 1,
        forall|a: int, b: int| 0 <= a < b < l.len() ==> ro(#[trigger] l[a]) < ro(#[trigger] l[b]),
    decreases ro(j),
{
    assert(dir_syn_ok(nv, sv, al, ro, j, 1, 3, 4, 3, 4));
    if sv[j][4] <= 0 {
        seq![j]
    } else {
        let p = sv[j][4] - 1;
        let l0 = lemma_back_walk(nv, sv, an, al, ro, ri, s, p);
        let l = l0.push(j);
        assert forall|a: int, b: int| 0 <= a < b < l.len() implies ro(#[trigger] l[a]) < ro(#[trigger] l[b]) by {
            if b == l.len() - 1 {
                if a < l0.len() - 1 {
                    assert(ro(l0[a]) < ro(l0[l0.len() - 1]));
                }
            } else {
                assert(l[a] == l0[a] && l[b] == l0[b]);
            }
        }
        assert forall|k: int| 0 <= k < l.len() - 1 implies sv[#[trigger] l[k]][3] == l[k + 1] + 1 by {
            if k < l0.len() - 1 {
                assert(l[k] == l0[k] && l[k + 1] == l0[k + 1]);
            } else {
                assert(dir_syn_ok(nv, sv, al, ro, j, 1, 3, 4, 3, 4));
            }
        }
        assert forall|k: int| 0 < k < l.len() implies sv[#[trigger] l[k]][4] == l[k - 1] + 1 by {
            if k < l0.len() {
                assert(l[k] == l0[k] && l[k - 1] == l0[k - 1]);
            }
        }
        assert forall|k: int| 0 <= k < l.len() implies 0 <= #[trigger] l[k] < sv.len() && al[l[k]] && sv[l[k]][1] == s by {
            if k < l0.len() {
                assert(l[k] == l0[k]);
            }
        }
        l
    }
}

/// On well-formed lists every live node has an outgoing list.
pub proof fn lemma_out_list_exists(nv: Seq<Seq<i32>>, sv: Seq<Seq<i32>>, an: Seq<bool>, al: Seq<bool>, s: int)
    requires
        lists_ok(nv, sv, an, al),
        1 <= s <= nv.len(),
        an[s - 1],
    ensures
        exists|l: Seq<int>| #[trigger] out_list(nv, sv, s, l),
{
    let (ro, ri) = choose|ro: spec_fn(int) -> nat, ri: spec_fn(int) -> nat| #[trigger] ranked_lists(nv, sv, an, al, ro, ri);
    assert(dir_node_ok(nv, sv, al, s - 1, 1, 3, 4, 3, 4));
    let t = nv[s - 1][4];
    if t > 0 {
        let l = lemma_back_walk(nv, sv, an, al, ro, ri, s, t - 1);
        assert(l.no_duplicates()) by {
            assert forall|a: int, b: int| 0 <= a < l.len() && 0 <= b < l.len() && a != b implies l[a] != l[b] by {
                if a < b {
                    assert(ro(l[a]) < ro(l[b]));
                } else {
                    assert(ro(l[b]) < ro(l[a]));
                }
            }
        }
        assert(out_list(nv, sv, s, l));
    } else {
        let l = Seq::<int>::empty();
        assert(out_list(nv, sv, s, l));
    }
}

/// Unhooking synapse `l[a]` of node `s`'s outgoing list `l` leaves the
/// list with that one synapse taken out, the others in their order.
pub proof fn lemma_out_list_remove(nv: Seq<Seq<i32>>, sv: Seq<Seq<i32>>, nc: int, sc: int, s: int, l: Seq<int>, a: int)
    requires
        links_ok(nv, sv, nc, sc),
        1 <= s <= nc,
        out_list(nv, sv, s, l),
        0 <= a < l.len(),
        sv[l[a]][1] == s,
        sv[l[a]][2] > 0,
    ensures
        out_list(detached_nodes(nv, sv, l[a]), detached_syns(sv, l[a]), s, l.remove(a)),
{
    lemma_detached_cells(nv, sv, nc, sc, l[a]);
    lemma_out_list_unhook(nv, sv, detached_nodes(nv, sv, l[a]), detached_syns(sv, l[a]), s, l, a);
}

#[verifier::spinoff_prover]
#[verifier::rlimit(40)]
proof fn lemma_out_list_unhook(nv: Seq<Seq<i32>>, sv: Seq<Seq<i32>>, nv2: Seq<Seq<i32>>, sv2: Seq<Seq<i32>>, s: int, l: Seq<int>, a: int)
    requires
        1 <= s <= nv.len(),
        out_list(nv, sv, s, l),
        0 <= a < l.len(),
        sv2.len() == sv.len(),
        nv2.len() == nv.len(),
        forall|k: int, c: int|
            0 <= k < sv.len() && (c == 3 || c == 4) ==> #[trigger] sv2[k][c] == (if sv[l[a]][4] > 0 && k == sv[l[a]][4] - 1
                && c == 3 {
                norm_slot(sv[l[a]][3])
            } else if sv[l[a]][3] > 0 && k == sv[l[a]][3] - 1 && c == 4 {
                norm_slot(sv[l[a]][4])
            } else {
                sv[k][c]
            }),
        nv2[s - 1][3] == (if sv[l[a]][4] <= 0 { norm_slot(sv[l[a]][3]) } else { nv[s - 1][3] }),
    ensures
        out_list(nv2, sv2, s, l.remove(a)),
{
    let x = l[a];
    let l2 = l.remove(a);
    let n = l.len();
    assert forall|k: int| 0 <= k < l2.len() implies #[trigger] l2[k] == (if k < a { l[k] } else { l[k + 1] }) by {}
    if a > 0 {
        assert(sv[x][4] == l[a - 1] + 1);
    } else {
        assert(sv[x][4] <= 0);
    }
    if a < n - 1 {
        assert(sv[x][3] == l[a + 1] + 1);
    } else {
        assert(sv[x][3] <= 0);
    }
    assert(l2.no_duplicates()) by {
        assert forall|i: int, j: int| 0 <= i < l2.len() && 0 <= j < l2.len() && i != j implies l2[i] != l2[j] by {
            let ii = if i < a { i } else { i + 1 };
            let jj = if j < a { j } else { j + 1 };
            assert(l[ii] != l[jj]);
        }
    }
    assert forall|k: int| 0 <= k < l2.len() - 1 implies sv2[#[trigger] l2[k]][3] == l2[k + 1] + 1 by {
        let kk = if k < a { k } else { k + 1 };
        if k == a - 1 {
            assert(l2[k] == l[a - 1]);
            assert(l2[k + 1] == l[a + 1]);
        } else {
            assert(l[kk] != l[a - 1] || a == 0);
            assert(sv[l[kk]][3] == l[kk + 1] + 1);
            assert(l2[k + 1] == l[kk + 1]);
        }
    }
    assert forall|k: int| 0 < k < l2.len() implies sv2[#[trigger] l2[k]][4] == l2[k - 1] + 1 by {
        let kk = if k < a { k } else { k + 1 };
        if k == a {
            assert(l2[k] == l[a + 1]);
            assert(l2[k - 1] == l[a - 1]);
        } else {
            assert(l[kk] != l[a + 1] || a == n - 1);
            assert(sv[l[kk]][4] == l[kk - 1] + 1);
            assert(l2[k - 1] == l[kk - 1]);
        }
    }
    if l2.len() > 0 {
        if a == 0 {
            assert(l2[0] == l[1]);
        } else {
            assert(l2[0] == l[0]);
            assert(l[0] != l[a + 1] || a == n - 1);
        }
        if a == n - 1 {
            assert(l2[l2.len() - 1] == l[a - 1]);
        } else {
            assert(l2[l2.len() - 1] == l[n - 1]);
            assert(l[n - 1] != l[a - 1] || a == 0);
        }
    }
}

/// The synapse indices of `l` whose target cell (in `sv`) is not node slot
/// `t`, in their order.
pub open spec fn kept(l: Seq<int>, sv: Seq<Seq<i32>>, t: int) -> Seq<int>
    decreases l.len(),
{
    if l.len() == 0 {
        Seq::<int>::empty()
    } else {
        let p = kept(l.drop_last(), sv, t);
        if sv[l.last()][2] != t {
            p.push(l.last())
        } else {
            p
        }
    }
}

/// One step of the walk of `disconnect()`: the list seen so far keeps the
/// synapses that were passed over, the rest is still ahead.
proof fn lemma_kept_step(l: Seq<int>, sv0: Seq<Seq<i32>>, t: int, idx: int)
    requires
        0 <= idx < l.len(),
    ensures
        sv0[l[idx]][2] != t ==> kept(l.take(idx + 1), sv0, t) + l.skip(idx + 1) == kept(l.take(idx), sv0, t) + l.skip(idx),
        sv0[l[idx]][2] == t ==> kept(l.take(idx + 1), sv0, t) + l.skip(idx + 1) == (kept(l.take(idx), sv0, t) + l.skip(
            idx,
        )).remove(kept(l.take(idx), sv0, t).len() as int),
        (kept(l.take(idx), sv0, t) + l.skip(idx))[kept(l.take(idx), sv0, t).len() as int] == l[idx],
{
    assert(l.take(idx + 1).drop_last() =~= l.take(idx));
    assert(l.take(idx + 1).last() == l[idx]);
    let k = kept(l.take(idx), sv0, t);
    let cur = k + l.skip(idx);
    if sv0[l[idx]][2] != t {
        assert(k.push(l[idx]) + l.skip(idx + 1) =~= cur);
    } else {
        assert(k + l.skip(idx + 1) =~= cur.remove(k.len() as int));
    }
}

proof fn lemma_out_list_agree(nv: Seq<Seq<i32>>, sv: Seq<Seq<i32>>, s: int, l1: Seq<int>, l2: Seq<int>, k: int)
    requires
        out_list(nv, sv, s, l1),
        out_list(nv, sv, s, l2),
        0 <= k < l1.len(),
        k < l2.len(),
    ensures
        l1[k] == l2[k],
    decreases k,
{
    if k > 0 {
        lemma_out_list_agree(nv, sv, s, l1, l2, k - 1);
        assert(sv[l1[k - 1]][3] == l1[k] + 1);
        assert(sv[l2[k - 1]][3] == l2[k] + 1);
    }
}

/// A node's outgoing list is determined by the pointers.
pub proof fn lemma_out_list_unique(nv: Seq<Seq<i32>>, sv: Seq<Seq<i32>>, s: int, l1: Seq<int>, l2: Seq<int>)
    requires
        out_list(nv, sv, s, l1),
        out_list(nv, sv, s, l2),
    ensures
        l1 == l2,
{
    if l1.len() < l2.len() {
        let m = l1.len() as int;
        if m > 0 {
            lemma_out_list_agree(nv, sv, s, l1, l2, m - 1);
            assert(sv[l2[m - 1]][3] == l2[m] + 1);
            assert(0 <= l2[m]);
        } else {
            assert(0 <= l2[0]);
        }
    } else if l2.len() < l1.len() {
        let m = l2.len() as int;
        if m > 0 {
            lemma_out_list_agree(nv, sv, s, l1, l2, m - 1);
            assert(sv[l1[m - 1]][3] == l1[m] + 1);
            assert(0 <= l1[m]);
        } else {
            assert(0 <= l1[0]);
        }
    }
    assert forall|k: int| 0 <= k < l1.len() implies l1[k] == l2[k] by {
        lemma_out_list_agree(nv, sv, s, l1, l2, k);
    }
    assert(l1 =~= l2);
}

/// Under `links_ok` every node and synapse row has eight cells.
pub proof fn lemma_links_rows(nv: Seq<Seq<i32>>, sv: Seq<Seq<i32>>, nc: int, sc: int)
    requires
        links_ok(nv, sv, nc, sc),
    ensures
        rows8(nv),
        rows8(sv),
{
    assert forall|i: int| 0 <= i < nv.len() implies (#[trigger] nv[i]).len() == 8 by {
        assert(node_links_ok(nv[i], sv, nc, sc));
    }
    assert forall|j: int| 0 <= j < sv.len() implies (#[trigger] sv[j]).len() == 8 by {
        assert(syn_links_ok(sv[j], sv, nc, sc));
    }
}

/// Cell by cell, what `detached_syns` and `detached_nodes` change.
pub proof fn lemma_detached_cells(nv: Seq<Seq<i32>>, sv: Seq<Seq<i32>>, nc: int, sc: int, x: int)
    requires
        links_ok(nv, sv, nc, sc),
        0 <= x < sc,
        sv[x][1] > 0,
        sv[x][2] > 0,
    ensures
        detached_syns(sv, x).len() == sv.len(),
        detached_nodes(nv, sv, x).len() == nv.len(),
        rows8(detached_syns(sv, x)),
        rows8(detached_nodes(nv, sv, x)),
        forall|k: int, c: int|
            0 <= k < sv.len() && 0 <= c < 8 ==> #[trigger] detached_syns(sv, x)[k][c] == (if sv[x][4] > 0 && k == sv[x][4]
                - 1 && c == 3 {
                norm_slot(sv[x][3])
            } else if sv[x][3] > 0 && k == sv[x][3] - 1 && c == 4 {
                norm_slot(sv[x][4])
            } else if sv[x][6] > 0 && k == sv[x][6] - 1 && c == 5 {
                norm_slot(sv[x][5])
            } else if sv[x][5] > 0 && k == sv[x][5] - 1 && c == 6 {
                norm_slot(sv[x][6])
            } else {
                sv[k][c]
            }),
        forall|i: int, c: int|
            0 <= i < nv.len() && 0 <= c < 8 ==> #[trigger] detached_nodes(nv, sv, x)[i][c] == (if sv[x][4] <= 0 && i == sv[x][1]
                - 1 && c == 3 {
                norm_slot(sv[x][3])
            } else if sv[x][3] <= 0 && i == sv[x][1] - 1 && c == 4 {
                norm_slot(sv[x][4])
            } else if sv[x][6] <= 0 && i == sv[x][2] - 1 && c == 5 {
                norm_slot(sv[x][5])
            } else if sv[x][5] <= 0 && i == sv[x][2] - 1 && c == 6 {
                norm_slot(sv[x][6])
            } else {
                nv[i][c]
            }),
{
    lemma_links_rows(nv, sv, nc, sc);
    assert(syn_links_ok(sv[x], sv, nc, sc));
    let sv2 = detached_syns(sv, x);
    let nv2 = detached_nodes(nv, sv, x);
    assert forall|k: int| 0 <= k < sv2.len() implies (#[trigger] sv2[k]).len() == 8 by {}
    assert forall|i: int| 0 <= i < nv2.len() implies (#[trigger] nv2[i]).len() == 8 by {}
}

/// Cell by cell, what `unlinked` changes.
pub proof fn lemma_unlinked_cells(nv: Seq<Seq<i32>>, i: int)
    requires
        rows8(nv),
        0 <= i < nv.len(),
        nv[i][1] <= nv.len(),
        nv[i][2] <= nv.len(),
    ensures
        unlinked(nv, i).len() == nv.len(),
        rows8(unlinked(nv, i)),
        forall|k: int, c: int|
            0 <= k < nv.len() && 0 <= c < 8 ==> #[trigger] unlinked(nv, i)[k][c] == (if nv[i][2] > 0 && k == nv[i][2] - 1 && c
                == 1 {
                norm_slot(nv[i][1])
            } else if nv[i][1] > 0 && k == nv[i][1] - 1 && c == 2 {
                norm_slot(nv[i][2])
            } else {
                nv[k][c]
            }),
{
    let u = unlinked(nv, i);
    assert forall|k: int| 0 <= k < u.len() implies (#[trigger] u[k]).len() == 8 by {}
}

/// A value that may go into cell `k` of a node without breaking `links_ok`.
pub open spec fn node_cell_ok(k: int, v: i32, sv: Seq<Seq<i32>>, nc: int, sc: int) -> bool {
    ||| k == 0
    ||| k == 7
    ||| ((k == 1 || k == 2) && v <= nc)
    ||| (3 <= k <= 6 && v <= sc && syn_ref_ok(sv, v))
}

/// Writing a node cell with a fitting value keeps `links_ok`.
pub proof fn lemma_links_node_set(nv: Seq<Seq<i32>>, sv: Seq<Seq<i32>>, nc: int, sc: int, i: int, k: int, v: i32)
    requires
        links_ok(nv, sv, nc, sc),
        0 <= i < nc,
        0 <= k < NODE_STRIDE,
        node_cell_ok(k, v, sv, nc, sc),
    ensures
        links_ok(set_cell(nv, i, k, v), sv, nc, sc),
{
    let n2 = set_cell(nv, i, k, v);
    assert forall|x: int| 0 <= x < nc implies node_links_ok(#[trigger] n2[x], sv, nc, sc) by {
        assert(node_links_ok(nv[x], sv, nc, sc));
    }
}

/// Writing a pointer cell (3 to 6, or an unchecked one) of a synapse with a
/// fitting value keeps `links_ok`: sources and targets do not move.
pub proof fn lemma_links_syn_set(nv: Seq<Seq<i32>>, sv: Seq<Seq<i32>>, nc: int, sc: int, j: int, k: int, v: i32)
    requires
        links_ok(nv, sv, nc, sc),
        0 <= j < sc,
        k == 0 || k == 7 || (3 <= k <= 6 && v <= sc && syn_ref_ok(sv, v)),
    ensures
        links_ok(nv, set_cell(sv, j, k, v), nc, sc),
        forall|w: i32| w <= sc && syn_ref_ok(sv, w) ==> #[trigger] syn_ref_ok(set_cell(sv, j, k, v), w),
{
    let s2 = set_cell(sv, j, k, v);
    assert(sv[j].len() == SYNAPSE_STRIDE) by {
        assert(syn_links_ok(sv[j], sv, nc, sc));
    }
    assert forall|w: i32| w <= sc && syn_ref_ok(sv, w) implies #[trigger] syn_ref_ok(s2, w) by {
    }
    assert forall|x: int| 0 <= x < nc implies node_links_ok(#[trigger] nv[x], s2, nc, sc) by {
        assert(node_links_ok(nv[x], sv, nc, sc));
        assert(syn_ref_ok(s2, nv[x][3]));
        assert(syn_ref_ok(s2, nv[x][4]));
        assert(syn_ref_ok(s2, nv[x][5]));
        assert(syn_ref_ok(s2, nv[x][6]));
    }
    assert forall|x: int| 0 <= x < sc implies syn_links_ok(#[trigger] s2[x], s2, nc, sc) by {
        assert(syn_links_ok(sv[x], sv, nc, sc));
        assert(syn_ref_ok(s2, sv[x][3]));
        assert(syn_ref_ok(s2, sv[x][4]));
        assert(syn_ref_ok(s2, sv[x][5]));
        assert(syn_ref_ok(s2, sv[x][6]));
    }
}

/// Replacing a synapse row by a connected row whose pointers fit keeps `links_ok`.
pub proof fn lemma_links_syn_row(nv: Seq<Seq<i32>>, sv: Seq<Seq<i32>>, nc: int, sc: int, j: int, row: Seq<i32>)
    requires
        links_ok(nv, sv, nc, sc),
        0 <= j < sc,
        row.len() == SYNAPSE_STRIDE,
        0 < row[1] <= nc,
        0 < row[2] <= nc,
        syn_links_ok(row, sv.update(j, row), nc, sc),
    ensures
        links_ok(nv, sv.update(j, row), nc, sc),
{
    let s2 = sv.update(j, row);
    assert forall|w: i32| w <= sc && syn_ref_ok(sv, w) implies #[trigger] syn_ref_ok(s2, w) by {
    }
    assert forall|x: int| 0 <= x < nc implies node_links_ok(#[trigger] nv[x], s2, nc, sc) by {
        assert(node_links_ok(nv[x], sv, nc, sc));
        assert(syn_ref_ok(s2, nv[x][3]));
        assert(syn_ref_ok(s2, nv[x][4]));
        assert(syn_ref_ok(s2, nv[x][5]));
        assert(syn_ref_ok(s2, nv[x][6]));
    }
    assert forall|x: int| 0 <= x < sc implies syn_links_ok(#[trigger] s2[x], s2, nc, sc) by {
        if x != j {
            assert(syn_links_ok(sv[x], sv, nc, sc));
            assert(syn_ref_ok(s2, sv[x][3]));
            assert(syn_ref_ok(s2, sv[x][4]));
            assert(syn_ref_ok(s2, sv[x][5]));
            assert(syn_ref_ok(s2, sv[x][6]));
        }
    }
}

/// Replacing a node row by a row whose pointers fit keeps `links_ok`.
pub proof fn lemma_links_node_row(nv: Seq<Seq<i32>>, sv: Seq<Seq<i32>>, nc: int, sc: int, i: int, row: Seq<i32>)
    requires
        links_ok(nv, sv, nc, sc),
        0 <= i < nc,
        node_links_ok(row, sv, nc, sc),
    ensures
        links_ok(nv.update(i, row), sv, nc, sc),
{
    let n2 = nv.update(i, row);
    assert forall|x: int| 0 <= x < nc implies node_links_ok(#[trigger] n2[x], sv, nc, sc) by {
        assert(node_links_ok(nv[x], sv, nc, sc));
    }
}

/// Views whose every cell is zero satisfy `links_ok`.
pub proof fn lemma_links_zero(nv: Seq<Seq<i32>>, sv: Seq<Seq<i32>>, nc: int, sc: int)
    requires
        nv.len() == nc,
        sv.len() == sc,
        0 <= nc,
        0 <= sc,
        forall|i: int| 0 <= i < nc ==> #[trigger] nv[i] == zeros(NODE_STRIDE as int),
        forall|j: int| 0 <= j < sc ==> #[trigger] sv[j] == zeros(SYNAPSE_STRIDE as int),
    ensures
        links_ok(nv, sv, nc, sc),
{
}


/// Views that agree with `nv` and `sv` on their first `nc` and `sc` slots
/// and are zero past them keep `links_ok` at the larger counts.
pub proof fn lemma_links_extend(
    nv: Seq<Seq<i32>>,
    sv: Seq<Seq<i32>>,
    nc: int,
    sc: int,
    nv2: Seq<Seq<i32>>,
    sv2: Seq<Seq<i32>>,
    nc2: int,
    sc2: int,
)
    requires
        links_ok(nv, sv, nc, sc),
        0 <= nc <= nc2,
        0 <= sc <= sc2,
        nv2.len() == nc2,
        sv2.len() == sc2,
        forall|i: int| 0 <= i < nc ==> #[trigger] nv2[i] == nv[i],
        forall|i: int| nc <= i < nc2 ==> #[trigger] nv2[i] == zeros(NODE_STRIDE as int),
        forall|j: int| 0 <= j < sc ==> #[trigger] sv2[j] == sv[j],
        forall|j: int| sc <= j < sc2 ==> #[trigger] sv2[j] == zeros(SYNAPSE_STRIDE as int),
    ensures
        links_ok(nv2, sv2, nc2, sc2),
{
    assert forall|v: i32| #![trigger syn_ref_ok(sv2, v)] v <= sc && syn_ref_ok(sv, v) implies syn_ref_ok(sv2, v) by {
        if v > 0 {
            assert(sv2[v - 1] == sv[v - 1]);
        }
    }
    assert forall|i: int| 0 <= i < nc2 implies node_links_ok(#[trigger] nv2[i], sv2, nc2, sc2) by {
        if i < nc {
            assert(node_links_ok(nv[i], sv, nc, sc));
            assert(syn_ref_ok(sv2, nv[i][3]));
            assert(syn_ref_ok(sv2, nv[i][4]));
            assert(syn_ref_ok(sv2, nv[i][5]));
            assert(syn_ref_ok(sv2, nv[i][6]));
        }
    }
    assert forall|j: int| 0 <= j < sc2 implies syn_links_ok(#[trigger] sv2[j], sv2, nc2, sc2) by {
        if j < sc {
            assert(syn_links_ok(sv[j], sv, nc, sc));
            assert(syn_ref_ok(sv2, sv[j][3]));
            assert(syn_ref_ok(sv2, sv[j][4]));
            assert(syn_ref_ok(sv2, sv[j][5]));
            assert(syn_ref_ok(sv2, sv[j][6]));
        }
    }
}

/// Producer-side orchestrator for node and synapse topology.
///
/// Owns a node store (doubly-linked chains of nodes) and a flat synapse store.
/// Every live synapse sits in two doubly-linked lists at once: its source
/// node's outgoing list and its target node's incoming list. Removing a node
/// first disconnects all its synapses. Removals retire slots, which are not
/// reallocated before the consumer has acknowledged the following `publish()`.
///
/// # Memory Layout
/// Memory plane: node store, then synapse store. Triple buffer plane: node
/// blocks, then synapse blocks.
#[derive(Clone, Copy)]
pub struct NetworkWriter {
    node_chain: NodeStoreWriter,
    pub(crate) synapses: EntryStoreWriter,
}

impl NetworkWriter {
    pub closed spec fn node_store(&self) -> NodeStoreWriter {
        self.node_chain
    }

    pub closed spec fn synapse_store(&self) -> EntryStoreWriter {
        self.synapses
    }

    /// The node store's entry store.
    pub open spec fn ns(&self) -> EntryStoreWriter {
        self.node_store().store()
    }

    pub open spec fn nc(&self) -> int {
        self.ns().cap()
    }

    pub open spec fn sc(&self) -> int {
        self.synapse_store().cap()
    }

    /// Core cells of every node slot.
    pub open spec fn nodes(&self, mem: Seq<i32>) -> Seq<Seq<i32>> {
        self.ns().core_view(mem)
    }

    /// Core cells of every synapse slot.
    pub open spec fn syns(&self, mem: Seq<i32>) -> Seq<Seq<i32>> {
        self.synapse_store().core_view(mem)
    }

    pub open spec fn valid(&self, mem: Seq<i32>) -> bool {
        &&& self.node_store().valid(mem)
        &&& self.synapse_store().valid(mem)
        &&& self.synapse_store().cfg().core_stride == SYNAPSE_STRIDE
        &&& self.ns().disjoint(self.synapse_store())
        &&& self.synapse_store().start() == self.ns().end()
        &&& self.synapse_store().tb_start() == self.ns().tb_end()
    }

    pub open spec fn inv(&self, mem: Seq<i32>) -> bool {
        &&& self.ns().inv(mem)
        &&& self.synapse_store().inv(mem)
    }

    /// Pointers are in range and every named synapse is connected.
    pub open spec fn linked(&self, mem: Seq<i32>) -> bool {
        links_ok(self.nodes(mem), self.syns(mem), self.nc(), self.sc())
    }

    /// Which node slots are live (index `i` for slot `i + 1`).
    pub open spec fn live_nodes(&self, mem: Seq<i32>) -> Seq<bool> {
        Seq::new(self.nc() as nat, |i: int| self.ns().active(mem, i + 1))
    }

    /// Which synapse slots are live (index `j` for slot `j + 1`).
    pub open spec fn live_syns(&self, mem: Seq<i32>) -> Seq<bool> {
        Seq::new(self.sc() as nat, |j: int| self.synapse_store().active(mem, j + 1))
    }

    /// The synapse lists are well formed: each live node's outgoing and
    /// incoming lists hold exactly the live synapses that leave or enter it,
    /// linked both ways and without cycles.
    pub open spec fn shaped(&self, mem: Seq<i32>) -> bool {
        lists_ok(self.nodes(mem), self.syns(mem), self.live_nodes(mem), self.live_syns(mem))
    }

    /// The node chains are well formed: each live node's next and previous
    /// nodes are live and point back at it, and no chain runs in a cycle.
    pub open spec fn chained(&self, mem: Seq<i32>) -> bool {
        chain_ok(self.nodes(mem), self.live_nodes(mem))
    }

    /// Cells outside both stores' memory regions and outside their blocks in
    /// the writer buffer are unchanged, and so are the buffer's control cells.
    pub open spec fn frame(&self, old: Seq<i32>, new: Seq<i32>) -> bool {
        let wb = self.ns().buffer().writer_base(old);
        &&& new.len() == old.len()
        &&& forall|j: int|
            0 <= j < old.len() && !(self.ns().start() <= j < self.synapse_store().end()) && !(wb
                + self.ns().tb_start() <= j < wb + self.synapse_store().tb_end()) ==> #[trigger] new[j] == old[j]
        &&& forall|j: int| self.ns().buffer().start() <= j < self.ns().buffer().start() + 4 ==> #[trigger] new[j] == old[j]
    }

    /// The node store's allocator, metadata and attributes are as in `old`.
    pub open spec fn nodes_same(&self, old: Seq<i32>, new: Seq<i32>) -> bool {
        &&& self.ns().meta_view(new) == self.ns().meta_view(old)
        &&& self.ns().attr_view(new) == self.ns().attr_view(old)
        &&& self.ns().slots().allocated(new) == self.ns().slots().allocated(old)
        &&& self.ns().slots().deferred(new) == self.ns().slots().deferred(old)
        &&& self.ns().slots().free_order(new) == self.ns().slots().free_order(old)
        &&& self.ns().slots().entries(new) == self.ns().slots().entries(old)
        &&& self.ns().slots().writer_gen(new) == self.ns().slots().writer_gen(old)
        &&& self.ns().slots().ack_gen(new) == self.ns().slots().ack_gen(old)
    }

    /// The synapse store's allocator, metadata and attributes are as in `old`.
    pub open spec fn syns_same(&self, old: Seq<i32>, new: Seq<i32>) -> bool {
        &&& self.synapse_store().meta_view(new) == self.synapse_store().meta_view(old)
        &&& self.synapse_store().attr_view(new) == self.synapse_store().attr_view(old)
        &&& self.synapse_store().slots().allocated(new) == self.synapse_store().slots().allocated(old)
        &&& self.synapse_store().slots().deferred(new) == self.synapse_store().slots().deferred(old)
        &&& self.synapse_store().slots().free_order(new) == self.synapse_store().slots().free_order(old)
        &&& self.synapse_store().slots().entries(new) == self.synapse_store().slots().entries(old)
        &&& self.synapse_store().slots().writer_gen(new) == self.synapse_store().slots().writer_gen(old)
        &&& self.synapse_store().slots().ack_gen(new) == self.synapse_store().slots().ack_gen(old)
    }

    /// A step that keeps either store's frame keeps the network's.
    pub proof fn lemma_frame_from_store(&self, m1: Seq<i32>, m2: Seq<i32>)
        requires
            self.valid(m1),
            tb_inv(m1, self.ns().buffer().start()),
            self.ns().frame(m1, m2) || self.synapse_store().frame(m1, m2),
        ensures
            self.frame(m1, m2),
    {
        self.ns().lemma_wf();
        self.synapse_store().lemma_wf();
    }

    /// The network frame composes.
    pub proof fn lemma_frame_trans(&self, m1: Seq<i32>, m2: Seq<i32>, m3: Seq<i32>)
        requires
            self.frame(m1, m2),
            self.frame(m2, m3),
            self.ns().buffer().writer_base(m2) == self.ns().buffer().writer_base(m1),
        ensures
            self.frame(m1, m3),
    {
        let wb = self.ns().buffer().writer_base(m1);
        assert forall|j: int|
            0 <= j < m1.len() && !(self.ns().start() <= j < self.synapse_store().end()) && !(wb
                + self.ns().tb_start() <= j < wb + self.synapse_store().tb_end()) implies #[trigger] m3[j] == m1[j] by {
            assert(m2[j] == m1[j]);
            assert(m3[j] == m2[j]);
        }
    }

    /// Writes cell `k` of node `slot`.
    fn set_node_cell(&self, mem: &mut AtomicBuffer, slot: SlotId, k: usize, v: i32)
        requires
            self.valid(old(mem)@),
            self.inv(old(mem)@),
            slot.raw() <= self.nc(),
            k < NODE_STRIDE,
        ensures
            self.valid(final(mem)@),
            self.inv(final(mem)@),
            self.nodes(final(mem)@) == set_cell(self.nodes(old(mem)@), slot.raw() - 1, k as int, v),
            self.syns(final(mem)@) == self.syns(old(mem)@),
            self.nodes_same(old(mem)@, final(mem)@),
            self.syns_same(old(mem)@, final(mem)@),
            self.ns().buffer().writer_base(final(mem)@) == self.ns().buffer().writer_base(old(mem)@),
            self.frame(old(mem)@, final(mem)@),
    {
        self.node_chain.entries().set_core_cell(mem, slot, k, v);
        proof {
            lemma_disjoint_frame(self.ns(), self.synapse_store(), old(mem)@, mem@);
            self.lemma_frame_from_store(old(mem)@, mem@);
        }
    }

    /// Writes cell `k` of synapse `slot`.
    fn set_syn_cell(&self, mem: &mut AtomicBuffer, slot: SlotId, k: usize, v: i32)
        requires
            self.valid(old(mem)@),
            self.inv(old(mem)@),
            slot.raw() <= self.sc(),
            k < SYNAPSE_STRIDE,
        ensures
            self.valid(final(mem)@),
            self.inv(final(mem)@),
            self.syns(final(mem)@) == set_cell(self.syns(old(mem)@), slot.raw() - 1, k as int, v),
            self.nodes(final(mem)@) == self.nodes(old(mem)@),
            self.nodes_same(old(mem)@, final(mem)@),
            self.syns_same(old(mem)@, final(mem)@),
            self.ns().buffer().writer_base(final(mem)@) == self.ns().buffer().writer_base(old(mem)@),
            self.frame(old(mem)@, final(mem)@),
    {
        self.synapses.set_core_cell(mem, slot, k, v);
        proof {
            lemma_disjoint_frame(self.synapse_store(), self.ns(), old(mem)@, mem@);
            self.lemma_frame_from_store(old(mem)@, mem@);
        }
    }

    /// Reads cell `k` of node `slot`.
    fn node_cell(&self, mem: &AtomicBuffer, slot: SlotId, k: usize) -> (r: i32)
        requires
            self.valid(mem@),
            self.inv(mem@),
            slot.raw() <= self.nc(),
            k < NODE_STRIDE,
        ensures
            r == self.nodes(mem@)[slot.raw() - 1][k as int],
    {
        self.node_chain.entries().core_cell(mem, slot, k)
    }

    /// Reads cell `k` of synapse `slot`.
    fn syn_cell(&self, mem: &AtomicBuffer, slot: SlotId, k: usize) -> (r: i32)
        requires
            self.valid(mem@),
            self.inv(mem@),
            slot.raw() <= self.sc(),
            k < SYNAPSE_STRIDE,
        ensures
            r == self.syns(mem@)[slot.raw() - 1][k as int],
    {
        self.synapses.core_cell(mem, slot, k)
    }
}


impl NetworkWriter {
    /// Where `create()` may lay the network out: the node store at the given
    /// offsets, the synapse store right behind it on both planes.
    pub open spec fn layout_ok(
        mem: Seq<i32>,
        tb: TripleBufferWriter,
        config: NetworkConfig,
        mem_start_offset: int,
        tb_start_offset: int,
    ) -> bool {
        &&& EntryStoreWriter::layout_ok(mem, tb, config.node_config().entry_config(), mem_start_offset, tb_start_offset)
        &&& EntryStoreWriter::layout_ok(
            mem,
            tb,
            config.synapse_config(),
            mem_start_offset + config.node_config().entry_config().mem_size(),
            tb_start_offset + config.node_config().entry_config().tb_size(),
        )
    }

    pub fn new(
        mem: &mut AtomicBuffer,
        tb: TripleBufferWriter,
        config: NetworkConfig,
        mem_start_offset: usize,
        tb_start_offset: usize,
    ) -> (w: Self)
        requires
            Self::layout_ok(old(mem)@, tb, config, mem_start_offset as int, tb_start_offset as int),
        ensures
            w.valid(final(mem)@),
            w.ns().buffer() == tb,
            w.ns().cfg() == config.node_config().entry_config(),
            w.synapse_store().cfg() == config.synapse_config(),
            w.ns().start() == mem_start_offset,
            w.ns().tb_start() == tb_start_offset,
            w.ns().empty_slots(final(mem)@),
            w.synapse_store().empty_slots(final(mem)@),
            unchanged_outside(old(mem)@, final(mem)@, w.ns().start(), w.synapse_store().attrs_start()),
    {
        Self::create(mem, tb, config, mem_start_offset, tb_start_offset, false)
    }

    pub fn bind(
        mem: &mut AtomicBuffer,
        tb: TripleBufferWriter,
        config: NetworkConfig,
        mem_start_offset: usize,
        tb_start_offset: usize,
    ) -> (w: Self)
        requires
            Self::layout_ok(old(mem)@, tb, config, mem_start_offset as int, tb_start_offset as int),
        ensures
            w.valid(final(mem)@),
            w.ns().buffer() == tb,
            w.ns().cfg() == config.node_config().entry_config(),
            w.synapse_store().cfg() == config.synapse_config(),
            w.ns().start() == mem_start_offset,
            w.ns().tb_start() == tb_start_offset,
            final(mem)@ == old(mem)@,
    {
        Self::create(mem, tb, config, mem_start_offset, tb_start_offset, true)
    }

    pub fn create(
        mem: &mut AtomicBuffer,
        tb: TripleBufferWriter,
        config: NetworkConfig,
        mem_start_offset: usize,
        tb_start_offset: usize,
        bind: bool,
    ) -> (w: Self)
        requires
            Self::layout_ok(old(mem)@, tb, config, mem_start_offset as int, tb_start_offset as int),
        ensures
            w.valid(final(mem)@),
            w.ns().buffer() == tb,
            w.ns().cfg() == config.node_config().entry_config(),
            w.synapse_store().cfg() == config.synapse_config(),
            w.ns().start() == mem_start_offset,
            w.ns().tb_start() == tb_start_offset,
            bind ==> final(mem)@ == old(mem)@,
            !bind ==> {
                &&& w.ns().empty_slots(final(mem)@)
                &&& w.synapse_store().empty_slots(final(mem)@)
                &&& unchanged_outside(old(mem)@, final(mem)@, w.ns().start(), w.synapse_store().attrs_start())
            },
    {
        let ghost m0 = mem@;
        let node_chain = NodeStoreWriter::create(mem, tb, config.to_node_store_config(), mem_start_offset, tb_start_offset, bind);
        let ghost m1 = mem@;
        proof {
            node_chain.store().lemma_wf();
            node_chain.store().slots().lemma_wf();
            assert(m1.len() == m0.len());
            assert(node_chain.store().end() == mem_start_offset + config.node_config().entry_config().mem_size());
            assert(node_chain.store().tb_end() == tb_start_offset + config.node_config().entry_config().tb_size());
        }
        let synapses = EntryStoreWriter::create(
            mem,
            tb,
            config.to_synapse_entry_store_config(),
            node_chain.mem_end_offset(),
            node_chain.tb_end_offset(),
            bind,
        );
        proof {
            synapses.lemma_wf();
            if !bind {
                node_chain.store().slots().lemma_frame(m1, mem@);
                lemma_unchanged_trans(m0, m1, mem@, mem_start_offset as int, synapses.attrs_start());
            }
        }
        NetworkWriter { node_chain, synapses }
    }
}


impl NetworkWriter {
    /// A step confined to the node store leaves the synapse store as it was.
    pub proof fn lemma_node_step(&self, m1: Seq<i32>, m2: Seq<i32>)
        requires
            self.valid(m1),
            self.inv(m1),
            self.ns().valid(m2),
            self.ns().frame(m1, m2),
            self.ns().buffer().writer_base(m2) == self.ns().buffer().writer_base(m1),
        ensures
            self.synapse_store().valid(m2),
            self.synapse_store().inv(m2),
            self.syns(m2) == self.syns(m1),
            self.syns_same(m1, m2),
            self.frame(m1, m2),
    {
        lemma_disjoint_frame(self.ns(), self.synapse_store(), m1, m2);
        self.lemma_frame_from_store(m1, m2);
    }

    /// A step confined to the synapse store leaves the node store as it was.
    pub proof fn lemma_syn_step(&self, m1: Seq<i32>, m2: Seq<i32>)
        requires
            self.valid(m1),
            self.inv(m1),
            self.synapse_store().valid(m2),
            self.synapse_store().frame(m1, m2),
            self.ns().buffer().writer_base(m2) == self.ns().buffer().writer_base(m1),
        ensures
            self.ns().valid(m2),
            self.ns().inv(m2),
            self.nodes(m2) == self.nodes(m1),
            self.nodes_same(m1, m2),
            self.frame(m1, m2),
    {
        lemma_disjoint_frame(self.synapse_store(), self.ns(), m1, m2);
        self.lemma_frame_from_store(m1, m2);
    }

    pub fn calculate_size_on_mem(config: &NetworkConfig) -> (r: usize)
        requires
            config.node_config().entry_config().mem_size() + config.synapse_config().mem_size() <= usize::MAX,
        ensures
            r == config.node_config().entry_config().mem_size() + config.synapse_config().mem_size(),
    {
        proof {
            assert(0 <= config.node_capacity * config.node_attr_stride) by (nonlinear_arith);
            assert(0 <= config.synapse_capacity * config.synapse_attr_stride) by (nonlinear_arith);
        }
        NodeStoreWriter::calculate_size_on_mem(&config.to_node_store_config())
            + EntryStoreWriter::calculate_size_on_mem(&config.to_synapse_entry_store_config())
    }

    pub fn calculate_size_on_tb(config: &NetworkConfig) -> (r: usize)
        requires
            NODE_STRIDE + config.node_meta_stride <= usize::MAX,
            SYNAPSE_STRIDE + config.synapse_meta_stride <= usize::MAX,
            config.node_config().entry_config().tb_size() + config.synapse_config().tb_size() <= usize::MAX,
        ensures
            r == config.node_config().entry_config().tb_size() + config.synapse_config().tb_size(),
    {
        proof {
            assert(0 <= config.node_capacity * (NODE_STRIDE + config.node_meta_stride)) by (nonlinear_arith);
            assert(0 <= config.synapse_capacity * (SYNAPSE_STRIDE + config.synapse_meta_stride)) by (nonlinear_arith);
        }
        NodeStoreWriter::calculate_size_on_tb(&config.to_node_store_config()) + config.synapse_capacity as usize
            * (SYNAPSE_STRIDE + config.synapse_meta_stride)
    }

    pub fn to_reader(&self, mem: &AtomicBuffer) -> (r: NetworkReader)
        requires
            self.valid(mem@),
        ensures
            r.node_store().store().cfg() == self.ns().cfg(),
            r.node_store().store().start() == self.ns().start(),
            r.node_store().store().attrs_start() == self.ns().attrs_start(),
            r.node_store().store().end() == self.ns().end(),
            r.node_store().store().tb_start() == self.ns().tb_start(),
            r.node_store().store().tb_end() == self.ns().tb_end(),
            r.node_store().store().staging().start() == self.ns().slots().staging().start(),
            r.node_store().store().staging().cap() == self.ns().cap(),
            r.node_store().store().staging().wf(),
            r.node_store().store().buffer().start() == self.ns().buffer().start(),
            r.node_store().store().consistent(),
            r.synapse_store().cfg() == self.synapse_store().cfg(),
            r.synapse_store().start() == self.synapse_store().start(),
            r.synapse_store().attrs_start() == self.synapse_store().attrs_start(),
            r.synapse_store().end() == self.synapse_store().end(),
            r.synapse_store().tb_start() == self.synapse_store().tb_start(),
            r.synapse_store().tb_end() == self.synapse_store().tb_end(),
            r.synapse_store().staging().start() == self.synapse_store().slots().staging().start(),
            r.synapse_store().staging().cap() == self.synapse_store().cap(),
            r.synapse_store().staging().wf(),
            r.synapse_store().buffer().start() == self.synapse_store().buffer().start(),
            r.synapse_store().consistent(),
    {
        NetworkReader::bind(self.node_chain.to_reader(mem), self.synapses.to_reader(mem))
    }

    pub fn mem_start_offset(&self) -> (r: usize)
        ensures
            r == self.ns().start(),
    {
        self.node_chain.mem_start_offset()
    }

    pub fn mem_end_offset(&self) -> (r: usize)
        ensures
            r == self.synapse_store().end(),
    {
        self.synapses.mem_end_offset()
    }

    pub fn tb_start_offset(&self) -> (r: usize)
        ensures
            r == self.ns().tb_start(),
    {
        self.node_chain.tb_start_offset()
    }

    pub fn tb_end_offset(&self) -> (r: usize)
        ensures
            r == self.synapse_store().tb_end(),
    {
        self.synapses.tb_end_offset()
    }

    pub fn node_capacity(&self) -> (r: usize)
        ensures
            r == self.nc(),
    {
        self.node_chain.capacity()
    }

    /// Node slots taken (live or retired).
    pub fn node_count(&self, mem: &AtomicBuffer) -> (r: usize)
        requires
            self.valid(mem@),
            self.inv(mem@),
        ensures
            r == self.nc() - self.ns().slots().free_order(mem@).len(),
    {
        self.node_chain.len(mem)
    }

    pub fn synapse_capacity(&self) -> (r: usize)
        ensures
            r == self.sc(),
    {
        self.synapses.capacity()
    }

    /// Synapse slots taken (live or retired).
    pub fn synapse_count(&self, mem: &AtomicBuffer) -> (r: usize)
        requires
            self.valid(mem@),
            self.inv(mem@),
        ensures
            r == self.sc() - self.synapse_store().slots().free_order(mem@).len(),
    {
        self.synapses.len(mem)
    }

    #[inline]
    pub fn get_node(&'_ self, mem: &AtomicBuffer, slot: SlotId) -> (r: NodeWriter<'_>)
        requires
            self.valid(mem@),
            self.inv(mem@),
            slot.raw() <= self.nc(),
            self.ns().active(mem@, slot.raw() as int),
        ensures
            r.valid(mem@),
            r.cells(mem@) == self.nodes(mem@)[slot.raw() - 1],
    {
        self.node_chain.get_node(mem, slot)
    }

    pub fn get_synapse(&'_ self, mem: &AtomicBuffer, slot: SlotId) -> (r: SynapseWriter<'_>)
        requires
            self.valid(mem@),
            self.inv(mem@),
            slot.raw() <= self.sc(),
            self.synapse_store().active(mem@, slot.raw() as int),
        ensures
            r.valid(mem@),
            r.cells(mem@) == self.syns(mem@)[slot.raw() - 1],
            r.entry().meta_zone().view(mem@) == self.synapse_store().meta_view(mem@)[slot.raw() - 1],
            r.entry().attr_zone().view(mem@) == self.synapse_store().attr_view(mem@)[slot.raw() - 1],
    {
        SynapseWriter::new(self.synapses.get(mem, slot))
    }

    #[inline]
    pub fn get_node_handle(&'_ self, mem: &AtomicBuffer, slot: SlotId) -> (r: NodeHandle<'_>)
        requires
            self.valid(mem@),
            self.inv(mem@),
            slot.raw() <= self.nc(),
            self.ns().active(mem@, slot.raw() as int),
        ensures
            r.valid(mem@),
            r.cells(mem@) == self.nodes(mem@)[slot.raw() - 1],
    {
        self.node_chain.get_node_handle(mem, slot)
    }

    pub fn get_synapse_handle(&'_ self, mem: &AtomicBuffer, slot: SlotId) -> (r: SynapseView<'_>)
        requires
            self.valid(mem@),
            self.inv(mem@),
            slot.raw() <= self.sc(),
            self.synapse_store().active(mem@, slot.raw() as int),
        ensures
            r.valid(mem@),
            r.cells(mem@) == self.syns(mem@)[slot.raw() - 1],
            r.entry().meta_zone().view(mem@) == self.synapse_store().meta_view(mem@)[slot.raw() - 1],
            r.entry().attr_zone().view(mem@) == self.synapse_store().attr_view(mem@)[slot.raw() - 1],
    {
        SynapseView::new(self.synapses.get_handle(mem, slot))
    }
}


impl NetworkWriter {
    /// Inserts an unlinked node.
    pub fn insert_node(&self, mem: &mut AtomicBuffer, kind: i32) -> (r: Option<SlotId>)
        requires
            self.valid(old(mem)@),
            self.inv(old(mem)@),
            self.linked(old(mem)@),
            0 <= kind < 256,
        ensures
            self.valid(final(mem)@),
            self.inv(final(mem)@),
            self.linked(final(mem)@),
            self.ns().insert_result(old(mem)@, final(mem)@, r),
            r matches Some(s) ==> self.nodes(final(mem)@) == self.nodes(old(mem)@).update(
                s.raw() - 1,
                node_init(kind, 0, 0),
            ),
            self.syns(final(mem)@) == self.syns(old(mem)@),
            self.syns_same(old(mem)@, final(mem)@),
            self.frame(old(mem)@, final(mem)@),
            self.shaped(old(mem)@) ==> self.shaped(final(mem)@),
            self.chained(old(mem)@) ==> self.chained(final(mem)@),
    {
        let r = self.node_chain.insert_node(mem, kind);
        proof {
            self.lemma_node_step(old(mem)@, mem@);
            if let Some(s) = r {
                lemma_links_node_row(self.nodes(old(mem)@), self.syns(old(mem)@), self.nc(), self.sc(), s.raw() - 1, node_init(kind, 0, 0));
            }
        }
        proof {
            if self.shaped(old(mem)@) {
                self.lemma_insert_shape(old(mem)@, mem@, r);
            }
            if self.chained(old(mem)@) {
                if let Some(x) = r {
                    let n = x.raw() - 1;
                    self.ns().lemma_wf();
                    self.ns().slots().lemma_inv_order(old(mem)@);
                    lemma_links_rows(self.nodes(mem@), self.syns(mem@), self.nc(), self.sc());
                    assert(self.live_nodes(mem@) =~= self.live_nodes(old(mem)@).update(n, true));
                    lemma_chain_new(self.nodes(old(mem)@), self.nodes(mem@), self.live_nodes(old(mem)@), n);
                }
            }
        }
        r
    }

    /// Inserts a node right after `prev_slot` in its chain.
    pub fn insert_node_after(&self, mem: &mut AtomicBuffer, prev_slot: SlotId, kind: i32) -> (r: Option<SlotId>)
        requires
            self.valid(old(mem)@),
            self.inv(old(mem)@),
            self.linked(old(mem)@),
            0 <= kind < 256,
            prev_slot.raw() <= self.nc(),
        ensures
            self.valid(final(mem)@),
            self.inv(final(mem)@),
            self.linked(final(mem)@),
            self.ns().insert_result(old(mem)@, final(mem)@, r),
            r matches Some(s) ==> self.nodes(final(mem)@) == linked_after(
                self.nodes(old(mem)@),
                prev_slot.raw() - 1,
                s.raw() - 1,
                kind,
            ),
            self.syns(final(mem)@) == self.syns(old(mem)@),
            self.syns_same(old(mem)@, final(mem)@),
            self.frame(old(mem)@, final(mem)@),
            self.shaped(old(mem)@) ==> self.shaped(final(mem)@),
            self.chained(old(mem)@) && self.ns().active(old(mem)@, prev_slot.raw() as int) ==> self.chained(final(mem)@),
    {
        let _p = prev_slot.get();
        proof {
            assert(node_links_ok(self.nodes(old(mem)@)[prev_slot.raw() - 1], self.syns(old(mem)@), self.nc(), self.sc()));
        }
        let r = self.node_chain.insert_node_after(mem, prev_slot, kind);
        proof {
            self.lemma_node_step(old(mem)@, mem@);
            if let Some(s) = r {
                let nv = self.nodes(old(mem)@);
                let sv = self.syns(old(mem)@);
                let p = prev_slot.raw() - 1;
                let n = s.raw() - 1;
                let nx = nv[p][1];
                let c1 = nv.update(n, node_init(kind, norm_slot(nx), (p + 1) as i32));
                lemma_links_node_row(nv, sv, self.nc(), self.sc(), n, node_init(kind, norm_slot(nx), (p + 1) as i32));
                let c2 = set_cell(c1, p, 1, (n + 1) as i32);
                lemma_links_node_set(c1, sv, self.nc(), self.sc(), p, 1, (n + 1) as i32);
                if nx > 0 {
                    lemma_links_node_set(c2, sv, self.nc(), self.sc(), nx - 1, 2, (n + 1) as i32);
                }
            }
        }
        proof {
            if self.shaped(old(mem)@) {
                self.lemma_insert_shape(old(mem)@, mem@, r);
            }
            if self.chained(old(mem)@) && self.ns().active(old(mem)@, prev_slot.raw() as int) {
                if let Some(x) = r {
                    let n = x.raw() - 1;
                    let a = prev_slot.raw() - 1;
                    self.ns().lemma_wf();
                    self.ns().slots().lemma_inv_order(old(mem)@);
                    lemma_links_rows(self.nodes(old(mem)@), self.syns(old(mem)@), self.nc(), self.sc());
                    lemma_links_rows(self.nodes(mem@), self.syns(mem@), self.nc(), self.sc());
                    assert(self.live_nodes(old(mem)@)[a]);
                    assert(!self.live_nodes(old(mem)@)[n]);
                    lemma_chain_neighbours(self.nodes(old(mem)@), self.live_nodes(old(mem)@), a);
                    assert(self.live_nodes(mem@) =~= self.live_nodes(old(mem)@).update(n, true));
                    lemma_chain_after(self.nodes(old(mem)@), self.nodes(mem@), self.live_nodes(old(mem)@), a, n);
                }
            }
        }
        r
    }

    /// Inserts a node right before `next_slot` in its chain.
    pub fn insert_node_before(&self, mem: &mut AtomicBuffer, next_slot: SlotId, kind: i32) -> (r: Option<SlotId>)
        requires
            self.valid(old(mem)@),
            self.inv(old(mem)@),
            self.linked(old(mem)@),
            0 <= kind < 256,
            next_slot.raw() <= self.nc(),
        ensures
            self.valid(final(mem)@),
            self.inv(final(mem)@),
            self.linked(final(mem)@),
            self.ns().insert_result(old(mem)@, final(mem)@, r),
            r matches Some(s) ==> self.nodes(final(mem)@) == linked_before(
                self.nodes(old(mem)@),
                next_slot.raw() - 1,
                s.raw() - 1,
                kind,
            ),
            self.syns(final(mem)@) == self.syns(old(mem)@),
            self.syns_same(old(mem)@, final(mem)@),
            self.frame(old(mem)@, final(mem)@),
            self.shaped(old(mem)@) ==> self.shaped(final(mem)@),
            self.chained(old(mem)@) && self.ns().active(old(mem)@, next_slot.raw() as int) ==> self.chained(final(mem)@),
    {
        let _q = next_slot.get();
        proof {
            assert(node_links_ok(self.nodes(old(mem)@)[next_slot.raw() - 1], self.syns(old(mem)@), self.nc(), self.sc()));
        }
        let r = self.node_chain.insert_node_before(mem, next_slot, kind);
        proof {
            self.lemma_node_step(old(mem)@, mem@);
            if let Some(s) = r {
                let nv = self.nodes(old(mem)@);
                let sv = self.syns(old(mem)@);
                let q = next_slot.raw() - 1;
                let n = s.raw() - 1;
                let pv = nv[q][2];
                let c1 = nv.update(n, node_init(kind, (q + 1) as i32, norm_slot(pv)));
                lemma_links_node_row(nv, sv, self.nc(), self.sc(), n, node_init(kind, (q + 1) as i32, norm_slot(pv)));
                let c2 = set_cell(c1, q, 2, (n + 1) as i32);
                lemma_links_node_set(c1, sv, self.nc(), self.sc(), q, 2, (n + 1) as i32);
                if pv > 0 {
                    lemma_links_node_set(c2, sv, self.nc(), self.sc(), pv - 1, 1, (n + 1) as i32);
                }
            }
        }
        proof {
            if self.shaped(old(mem)@) {
                self.lemma_insert_shape(old(mem)@, mem@, r);
            }
            if self.chained(old(mem)@) && self.ns().active(old(mem)@, next_slot.raw() as int) {
                if let Some(x) = r {
                    let n = x.raw() - 1;
                    let a = next_slot.raw() - 1;
                    self.ns().lemma_wf();
                    self.ns().slots().lemma_inv_order(old(mem)@);
                    lemma_links_rows(self.nodes(old(mem)@), self.syns(old(mem)@), self.nc(), self.sc());
                    lemma_links_rows(self.nodes(mem@), self.syns(mem@), self.nc(), self.sc());
                    assert(self.live_nodes(old(mem)@)[a]);
                    assert(!self.live_nodes(old(mem)@)[n]);
                    lemma_chain_neighbours(self.nodes(old(mem)@), self.live_nodes(old(mem)@), a);
                    assert(self.live_nodes(mem@) =~= self.live_nodes(old(mem)@).update(n, true));
                    lemma_chain_before(self.nodes(old(mem)@), self.nodes(mem@), self.live_nodes(old(mem)@), a, n);
                }
            }
        }
        r
    }
}


impl NetworkWriter {
    /// Creates a synapse from `source_slot` to `target_slot`, appended to the
    /// source's outgoing list and the target's incoming list.
    pub fn connect(&self, mem: &mut AtomicBuffer, source_slot: SlotId, target_slot: SlotId, kind: i32) -> (r: Option<SlotId>)
        requires
            self.valid(old(mem)@),
            self.inv(old(mem)@),
            self.linked(old(mem)@),
            source_slot.raw() <= self.nc(),
            target_slot.raw() <= self.nc(),
            0 <= kind < 256,
        ensures
            self.valid(final(mem)@),
            self.inv(final(mem)@),
            self.linked(final(mem)@),
            self.synapse_store().insert_effect(old(mem)@, final(mem)@, r),
            r matches Some(x) ==> {
                let nv = self.nodes(old(mem)@);
                let s = source_slot.raw() - 1;
                let t = target_slot.raw() - 1;
                &&& self.syns(final(mem)@) == connected_syns(
                    self.syns(old(mem)@),
                    x.raw() - 1,
                    kind,
                    s,
                    t,
                    nv[s][4],
                    nv[t][6],
                )
                &&& self.nodes(final(mem)@) == connected_nodes(nv, x.raw() - 1, s, t)
            },
            self.nodes_same(old(mem)@, final(mem)@),
            self.ns().buffer().writer_base(final(mem)@) == self.ns().buffer().writer_base(old(mem)@),
            self.frame(old(mem)@, final(mem)@),
            self.shaped(old(mem)@) && self.ns().active(old(mem)@, source_slot.raw() as int) && self.ns().active(
                old(mem)@,
                target_slot.raw() as int,
            ) ==> self.shaped(final(mem)@),
            self.chained(old(mem)@) ==> self.chained(final(mem)@),
    {
        let _s = source_slot.get();
        let _t = target_slot.get();
        let ghost m0 = mem@;
        let ghost nv = self.nodes(m0);
        let ghost sv = self.syns(m0);
        let ghost s = source_slot.raw() - 1;
        let ghost t = target_slot.raw() - 1;
        proof {
            assert(node_links_ok(nv[s], sv, self.nc(), self.sc()));
            assert(node_links_ok(nv[t], sv, self.nc(), self.sc()));
        }
        let stail = self.node_cell(mem, source_slot, 4);
        let ttail = self.node_cell(mem, target_slot, 6);
        let source_tail = SlotId::from_i32(stail);
        let target_tail = SlotId::from_i32(ttail);
        let result = self.synapses.insert(mem);
        let new_slot = match result {
            None => {
                return None;
            },
            Some(x) => x,
        };
        let ghost m1 = mem@;
        proof {
            self.lemma_syn_step(m0, m1);
        }
        let c = self.syn_cell(mem, new_slot, 0);
        self.set_syn_cell(mem, new_slot, 0, (c & 0xFF_FFFFi32) | (kind << 24u32));
        let ghost m2 = mem@;
        self.set_syn_cell(mem, new_slot, 1, source_slot.to_i32());
        let ghost m3 = mem@;
        self.set_syn_cell(mem, new_slot, 2, target_slot.to_i32());
        let ghost m4 = mem@;
        self.set_syn_cell(mem, new_slot, 3, 0);
        let ghost m5 = mem@;
        self.set_syn_cell(mem, new_slot, 4, SlotId::option_to_i32(source_tail));
        let ghost m6 = mem@;
        self.set_syn_cell(mem, new_slot, 5, 0);
        let ghost m7 = mem@;
        self.set_syn_cell(mem, new_slot, 6, SlotId::option_to_i32(target_tail));
        let ghost m8 = mem@;
        let ghost n = new_slot.raw() - 1;
        let ghost row = syn_init(kind, (s + 1) as i32, (t + 1) as i32, norm_slot(stail), norm_slot(ttail));
        proof {
            assert(self.syns(m8)[n] =~= row);
            assert(self.syns(m8) =~= sv.update(n, row));
            assert(self.nodes(m8) == nv);
        }
        let sh = self.node_cell(mem, source_slot, 3);
        if sh <= 0 {
            self.set_node_cell(mem, source_slot, 3, new_slot.to_i32());
        }
        let ghost m9 = mem@;
        let th = self.node_cell(mem, target_slot, 5);
        if th <= 0 {
            self.set_node_cell(mem, target_slot, 5, new_slot.to_i32());
        }
        let ghost m10 = mem@;
        match source_tail {
            Some(st) => {
                self.set_syn_cell(mem, st, 3, new_slot.to_i32());
            },
            None => {},
        }
        let ghost m11 = mem@;
        match target_tail {
            Some(tt) => {
                self.set_syn_cell(mem, tt, 5, new_slot.to_i32());
            },
            None => {},
        }
        let ghost m12 = mem@;
        self.set_node_cell(mem, source_slot, 4, new_slot.to_i32());
        let ghost m13 = mem@;
        self.set_node_cell(mem, target_slot, 6, new_slot.to_i32());
        proof {
            let m14 = mem@;
            self.ns().lemma_wf();
            self.synapse_store().lemma_wf();
            self.lemma_frame_trans(m0, m1, m2);
            self.lemma_frame_trans(m0, m2, m3);
            self.lemma_frame_trans(m0, m3, m4);
            self.lemma_frame_trans(m0, m4, m5);
            self.lemma_frame_trans(m0, m5, m6);
            self.lemma_frame_trans(m0, m6, m7);
            self.lemma_frame_trans(m0, m7, m8);
            self.lemma_frame_trans(m0, m8, m9);
            self.lemma_frame_trans(m0, m9, m10);
            self.lemma_frame_trans(m0, m10, m11);
            self.lemma_frame_trans(m0, m11, m12);
            self.lemma_frame_trans(m0, m12, m13);
            self.lemma_frame_trans(m0, m13, m14);
            let svf = connected_syns(sv, n, kind, s, t, stail, ttail);
            let nvf = connected_nodes(nv, n, s, t);
            assert(self.syns(m14) =~= svf);
            assert(self.nodes(m14) =~= nvf);
            let nc = self.nc();
            let sc = self.sc();
            let sb = sv.update(n, row);
            assert(syn_ref_ok(sv, stail));
            assert(syn_ref_ok(sv, ttail));
            assert(syn_ref_ok(sb, norm_slot(stail)));
            assert(syn_ref_ok(sb, norm_slot(ttail)));
            lemma_links_syn_row(nv, sv, nc, sc, n, row);
            let s2 = if stail > 0 {
                set_cell(sb, stail - 1, 3, (n + 1) as i32)
            } else {
                sb
            };
            if stail > 0 {
                lemma_links_syn_set(nv, sb, nc, sc, stail - 1, 3, (n + 1) as i32);
            }
            assert(s2[n][1] > 0 && s2[n][2] > 0);
            if ttail > 0 {
                lemma_links_syn_set(nv, s2, nc, sc, ttail - 1, 5, (n + 1) as i32);
            }
            assert(svf[n][1] > 0 && svf[n][2] > 0);
            assert(syn_ref_ok(svf, (n + 1) as i32));
            let n1 = if nv[s][3] <= 0 {
                set_cell(nv, s, 3, (n + 1) as i32)
            } else {
                nv
            };
            if nv[s][3] <= 0 {
                lemma_links_node_set(nv, svf, nc, sc, s, 3, (n + 1) as i32);
            }
            let n2 = if n1[t][5] <= 0 {
                set_cell(n1, t, 5, (n + 1) as i32)
            } else {
                n1
            };
            if n1[t][5] <= 0 {
                lemma_links_node_set(n1, svf, nc, sc, t, 5, (n + 1) as i32);
            }
            lemma_links_node_set(n2, svf, nc, sc, s, 4, (n + 1) as i32);
            lemma_links_node_set(set_cell(n2, s, 4, (n + 1) as i32), svf, nc, sc, t, 6, (n + 1) as i32);
        }
        proof {
            if self.shaped(m0) && self.ns().active(m0, s + 1) && self.ns().active(m0, t + 1) {
                self.lemma_connect_shape(m0, mem@, new_slot, s, t, kind);
            }
            assert forall|k: int, c: int| 0 <= k < self.nc() && (c == 1 || c == 2) implies #[trigger] self.nodes(mem@)[k][c]
                == nv[k][c] by {
                lemma_links_rows(nv, sv, self.nc(), self.sc());
            }
            self.lemma_chain_keep(m0, mem@);
        }
        Some(new_slot)
    }
}


impl NetworkWriter {
    /// Retires a synapse and unhooks it from its source's outgoing list and
    /// its target's incoming list.
    pub fn disconnect_synapse(&self, mem: &mut AtomicBuffer, synapse_slot: SlotId) -> (r: Result<(), SlotAllocatorError>)
        requires
            self.valid(old(mem)@),
            self.inv(old(mem)@),
            self.linked(old(mem)@),
            synapse_slot.raw() <= self.sc(),
            self.syns(old(mem)@)[synapse_slot.raw() - 1][1] > 0,
            self.syns(old(mem)@)[synapse_slot.raw() - 1][2] > 0,
        ensures
            self.valid(final(mem)@),
            self.inv(final(mem)@),
            self.linked(final(mem)@),
            self.synapse_store().remove_effect(old(mem)@, final(mem)@, synapse_slot, r),
            self.shaped(old(mem)@) ==> self.shaped(final(mem)@),
            self.chained(old(mem)@) ==> self.chained(final(mem)@),
            r is Ok ==> {
                &&& self.syns(final(mem)@) == detached_syns(self.syns(old(mem)@), synapse_slot.raw() - 1)
                &&& self.nodes(final(mem)@) == detached_nodes(
                    self.nodes(old(mem)@),
                    self.syns(old(mem)@),
                    synapse_slot.raw() - 1,
                )
            },
            self.nodes_same(old(mem)@, final(mem)@),
            self.ns().buffer().writer_base(final(mem)@) == self.ns().buffer().writer_base(old(mem)@),
            self.frame(old(mem)@, final(mem)@),
    {
        let _x = synapse_slot.get();
        let ghost m0 = mem@;
        let ghost nv = self.nodes(m0);
        let ghost sv = self.syns(m0);
        let ghost x = synapse_slot.raw() - 1;
        proof {
            assert(syn_links_ok(sv[x], sv, self.nc(), self.sc()));
        }
        let src = self.syn_cell(mem, synapse_slot, 1);
        let tgt = self.syn_cell(mem, synapse_slot, 2);
        let source = SlotId::from_i32(src).unwrap();
        let target = SlotId::from_i32(tgt).unwrap();
        let out_next = SlotId::from_i32(self.syn_cell(mem, synapse_slot, 3));
        let out_prev = SlotId::from_i32(self.syn_cell(mem, synapse_slot, 4));
        let in_next = SlotId::from_i32(self.syn_cell(mem, synapse_slot, 5));
        let in_prev = SlotId::from_i32(self.syn_cell(mem, synapse_slot, 6));
        match self.synapses.remove(mem, synapse_slot) {
            Err(e) => {
                return Err(e);
            },
            Ok(()) => {},
        }
        let ghost m1 = mem@;
        proof {
            self.lemma_syn_step(m0, m1);
        }
        match out_prev {
            Some(p) => {
                self.set_syn_cell(mem, p, 3, SlotId::option_to_i32(out_next));
            },
            None => {
                self.set_node_cell(mem, source, 3, SlotId::option_to_i32(out_next));
            },
        }
        let ghost m2 = mem@;
        match out_next {
            Some(q) => {
                self.set_syn_cell(mem, q, 4, SlotId::option_to_i32(out_prev));
            },
            None => {
                self.set_node_cell(mem, source, 4, SlotId::option_to_i32(out_prev));
            },
        }
        let ghost m3 = mem@;
        match in_prev {
            Some(p) => {
                self.set_syn_cell(mem, p, 5, SlotId::option_to_i32(in_next));
            },
            None => {
                self.set_node_cell(mem, target, 5, SlotId::option_to_i32(in_next));
            },
        }
        let ghost m4 = mem@;
        match in_next {
            Some(q) => {
                self.set_syn_cell(mem, q, 6, SlotId::option_to_i32(in_prev));
            },
            None => {
                self.set_node_cell(mem, target, 6, SlotId::option_to_i32(in_prev));
            },
        }
        proof {
            let m5 = mem@;
            self.lemma_frame_trans(m0, m1, m2);
            self.lemma_frame_trans(m0, m2, m3);
            self.lemma_frame_trans(m0, m3, m4);
            self.lemma_frame_trans(m0, m4, m5);
            let nc = self.nc();
            let sc = self.sc();
            let c = sv[x];
            let on = c[3];
            let op = c[4];
            let inn = c[5];
            let ip = c[6];
            let s1 = if op > 0 { set_cell(sv, op - 1, 3, norm_slot(on)) } else { sv };
            let s2 = if on > 0 { set_cell(s1, on - 1, 4, norm_slot(op)) } else { s1 };
            let s3 = if ip > 0 { set_cell(s2, ip - 1, 5, norm_slot(inn)) } else { s2 };
            let s4 = detached_syns(sv, x);
            assert(self.syns(m5) =~= s4);
            assert(self.nodes(m5) =~= detached_nodes(nv, sv, x));
            if op > 0 {
                lemma_links_syn_set(nv, sv, nc, sc, op - 1, 3, norm_slot(on));
            }
            assert(syn_ref_ok(s1, norm_slot(op)));
            if on > 0 {
                lemma_links_syn_set(nv, s1, nc, sc, on - 1, 4, norm_slot(op));
            }
            assert(syn_ref_ok(s2, norm_slot(inn)));
            if ip > 0 {
                lemma_links_syn_set(nv, s2, nc, sc, ip - 1, 5, norm_slot(inn));
            }
            assert(syn_ref_ok(s3, norm_slot(ip)));
            if inn > 0 {
                lemma_links_syn_set(nv, s3, nc, sc, inn - 1, 6, norm_slot(ip));
            }
            assert(links_ok(nv, s4, nc, sc));
            assert(syn_ref_ok(s4, norm_slot(on)));
            assert(syn_ref_ok(s4, norm_slot(op)));
            assert(syn_ref_ok(s4, norm_slot(inn)));
            assert(syn_ref_ok(s4, norm_slot(ip)));
            let src_i = c[1] - 1;
            let tgt_i = c[2] - 1;
            let n1 = if op > 0 { nv } else { set_cell(nv, src_i, 3, norm_slot(on)) };
            if op <= 0 {
                lemma_links_node_set(nv, s4, nc, sc, src_i, 3, norm_slot(on));
            }
            let n2 = if on > 0 { n1 } else { set_cell(n1, src_i, 4, norm_slot(op)) };
            if on <= 0 {
                lemma_links_node_set(n1, s4, nc, sc, src_i, 4, norm_slot(op));
            }
            let n3 = if ip > 0 { n2 } else { set_cell(n2, tgt_i, 5, norm_slot(inn)) };
            if ip <= 0 {
                lemma_links_node_set(n2, s4, nc, sc, tgt_i, 5, norm_slot(inn));
            }
            if inn <= 0 {
                lemma_links_node_set(n3, s4, nc, sc, tgt_i, 6, norm_slot(ip));
            }
        }
        proof {
            let m5 = mem@;
            lemma_detached_cells(nv, sv, self.nc(), self.sc(), x);
            assert(self.live_nodes(m5) =~= self.live_nodes(m0));
            self.synapse_store().lemma_wf();
            self.synapse_store().slots().lemma_inv_order(m0);
            assert(self.synapse_store().slots().deferred(m5) == self.synapse_store().slots().deferred(m0).update(x, true));
            assert(self.synapse_store().slots().allocated(m5) == self.synapse_store().slots().allocated(m0));
            assert(self.live_syns(m5) =~= self.live_syns(m0).update(x, false));
            if self.shaped(m0) {
                lemma_lists_detach(nv, sv, self.nodes(m5), self.syns(m5), self.live_nodes(m0), self.live_syns(m0), x);
            }
            self.lemma_chain_keep(m0, m5);
        }
        Ok(())
    }
}


impl NetworkWriter {
    /// The allocators only move forward: nothing is allocated or freed,
    /// retired slots stay retired, and retirement entries are only appended.
    pub open spec fn retire_only(&self, old: Seq<i32>, new: Seq<i32>) -> bool {
        &&& self.ns().slots().allocated(new) == self.ns().slots().allocated(old)
        &&& self.ns().slots().free_order(new) == self.ns().slots().free_order(old)
        &&& self.ns().slots().writer_gen(new) == self.ns().slots().writer_gen(old)
        &&& self.ns().slots().ack_gen(new) == self.ns().slots().ack_gen(old)
        &&& self.ns().slots().entries(old).is_prefix_of(self.ns().slots().entries(new))
        &&& (forall|i: int| 0 <= i < self.nc() && #[trigger] self.ns().slots().deferred(old)[i] ==> self.ns().slots().deferred(new)[i])
        &&& self.synapse_store().slots().allocated(new) == self.synapse_store().slots().allocated(old)
        &&& self.synapse_store().slots().free_order(new) == self.synapse_store().slots().free_order(old)
        &&& self.synapse_store().slots().writer_gen(new) == self.synapse_store().slots().writer_gen(old)
        &&& self.synapse_store().slots().ack_gen(new) == self.synapse_store().slots().ack_gen(old)
        &&& self.synapse_store().slots().entries(old).is_prefix_of(self.synapse_store().slots().entries(new))
        &&& (forall|j: int|
            0 <= j < self.sc() && #[trigger] self.synapse_store().slots().deferred(old)[j] ==> self.synapse_store().slots().deferred(new)[j])
        &&& self.ns().meta_view(new) == self.ns().meta_view(old)
        &&& self.ns().attr_view(new) == self.ns().attr_view(old)
        &&& self.synapse_store().meta_view(new) == self.synapse_store().meta_view(old)
        &&& self.synapse_store().attr_view(new) == self.synapse_store().attr_view(old)
        &&& self.ns().buffer().writer_base(new) == self.ns().buffer().writer_base(old)
        &&& self.frame(old, new)
    }

    /// `retire_only` composes.
    pub proof fn lemma_retire_only_trans(&self, m1: Seq<i32>, m2: Seq<i32>, m3: Seq<i32>)
        requires
            self.retire_only(m1, m2),
            self.retire_only(m2, m3),
        ensures
            self.retire_only(m1, m3),
    {
        self.lemma_frame_trans(m1, m2, m3);
        let e1 = self.ns().slots().entries(m1);
        let e2 = self.ns().slots().entries(m2);
        let e3 = self.ns().slots().entries(m3);
        assert(e1.is_prefix_of(e3)) by {
            assert forall|k: int| 0 <= k < e1.len() implies e1[k] == e3[k] by {
                assert(e1[k] == e2[k]);
            }
        }
        let f1 = self.synapse_store().slots().entries(m1);
        let f2 = self.synapse_store().slots().entries(m2);
        let f3 = self.synapse_store().slots().entries(m3);
        assert(f1.is_prefix_of(f3)) by {
            assert forall|k: int| 0 <= k < f1.len() implies f1[k] == f3[k] by {
                assert(f1[k] == f2[k]);
            }
        }
    }

    /// Disconnects every synapse leaving and entering the node, then unlinks
    /// the node from its chain and retires its slot.
    ///
    /// On well-formed lists (`shaped`) this succeeds exactly for a live node:
    /// every live synapse that leaves or enters it is retired and unhooked
    /// from the other endpoint's list, and the lists stay well formed.
    pub fn remove_node(&self, mem: &mut AtomicBuffer, slot: SlotId) -> (r: Result<(), SlotAllocatorError>)
        requires
            self.valid(old(mem)@),
            self.inv(old(mem)@),
            self.linked(old(mem)@),
            slot.raw() <= self.nc(),
        ensures
            self.valid(final(mem)@),
            self.inv(final(mem)@),
            self.linked(final(mem)@),
            self.retire_only(old(mem)@, final(mem)@),
            r is Ok ==> {
                let i = slot.raw() - 1;
                &&& self.ns().active(old(mem)@, slot.raw() as int)
                &&& self.ns().slots().deferred(final(mem)@)[i]
                &&& self.ns().slots().entries(final(mem)@) == self.ns().slots().entries(old(mem)@).push(
                    seq![slot.raw() as i32, self.ns().slots().writer_gen(old(mem)@)],
                )
                &&& self.nodes(final(mem)@)[i][5] <= 0
                &&& forall|j: int, k: int|
                    0 <= j < self.nc() && (k == 0 || k == 1 || k == 2 || k == 7) ==> #[trigger] self.nodes(
                        final(mem)@,
                    )[j][k] == unlinked(self.nodes(old(mem)@), i)[j][k]
            },
            !self.ns().active(old(mem)@, slot.raw() as int) ==> r is Err,
            r is Err ==> r == Err::<(), SlotAllocatorError>(SlotAllocatorError::InvalidSlot) || r == Err::<
                (),
                SlotAllocatorError,
            >(SlotAllocatorError::DoubleFree),
            self.nodes(old(mem)@)[slot.raw() - 1][3] <= 0 && self.nodes(old(mem)@)[slot.raw() - 1][5] <= 0 ==> (r is Ok
                <==> self.ns().active(old(mem)@, slot.raw() as int)),
            self.shaped(old(mem)@) ==> self.shaped(final(mem)@),
            self.shaped(old(mem)@) ==> (r is Ok <==> self.ns().active(old(mem)@, slot.raw() as int)),
            self.shaped(old(mem)@) && r is Ok ==> self.nodes(final(mem)@)[slot.raw() - 1][3] <= 0,
            self.shaped(old(mem)@) && r is Ok ==> forall|j: int|
                0 <= j < self.sc() && self.synapse_store().active(old(mem)@, j + 1) && (self.syns(old(mem)@)[j][1]
                    == slot.raw() || self.syns(old(mem)@)[j][2] == slot.raw()) ==> #[trigger] self.synapse_store().slots().deferred(
                    final(mem)@,
                )[j],
            self.chained(old(mem)@) ==> self.chained(final(mem)@),
            self.chained(old(mem)@) && r is Ok && self.nodes(old(mem)@)[slot.raw() - 1][1] > 0 ==> self.ns().active(
                final(mem)@,
                self.nodes(old(mem)@)[slot.raw() - 1][1] as int,
            ),
    {
        let _s = slot.get();
        let ghost m0 = mem@;
        let ghost i = slot.raw() - 1;
        let ghost live = self.shaped(m0) && self.ns().active(m0, slot.raw() as int);
        proof {
            self.synapse_store().lemma_wf();
            self.synapse_store().slots().lemma_inv_order(m0);
            self.lemma_retire_only_refl(m0);
        }
        loop
            invariant
                self.valid(mem@),
                self.inv(mem@),
                self.linked(mem@),
                slot.raw() <= self.nc(),
                1 <= slot.raw(),
                i == slot.raw() - 1,
                m0 == old(mem)@,
                live == (self.shaped(m0) && self.ns().active(m0, slot.raw() as int)),
                self.retire_only(m0, mem@),
                self.nodes_same(m0, mem@),
                forall|j: int, k: int|
                    0 <= j < self.nc() && (k == 0 || k == 1 || k == 2 || k == 7) ==> #[trigger] self.nodes(mem@)[j][k]
                        == self.nodes(m0)[j][k],
                forall|j: int, k: int| 0 <= j < self.sc() && (k == 1 || k == 2) ==> #[trigger] self.syns(mem@)[j][k] == self.syns(m0)[j][k],
                self.synapse_store().slots().entries(mem@).len() <= self.sc(),
                self.nodes(m0)[slot.raw() - 1][3] <= 0 ==> mem@ == m0,
                self.shaped(m0) ==> self.shaped(mem@),
                self.chained(m0) ==> self.chained(mem@),
            ensures
                self.nodes(mem@)[slot.raw() - 1][3] <= 0,
            decreases self.sc() - self.synapse_store().slots().entries(mem@).len(),
        {
            let ghost ma = mem@;
            proof {
                self.synapse_store().lemma_wf();
                self.synapse_store().slots().lemma_inv_order(ma);
            }
            let head = self.node_cell(mem, slot, 3);
            match SlotId::from_i32(head) {
                None => {
                    break;
                },
                Some(h) => {
                    proof {
                        assert(node_links_ok(self.nodes(ma)[slot.raw() - 1], self.syns(ma), self.nc(), self.sc()));
                        if live {
                            assert(self.live_nodes(ma)[i]);
                            lemma_lists_heads(self.nodes(ma), self.syns(ma), self.live_nodes(ma), self.live_syns(ma), i);
                            assert(self.live_syns(ma)[h.raw() - 1]);
                        }
                    }
                    match self.disconnect_synapse(mem, h) {
                        Err(e) => {
                            proof {
                                assert(mem@ == ma);
                                assert(!live);
                            }
                            return Err(e);
                        },
                        Ok(()) => {},
                    }
                    proof {
                        self.synapse_store().lemma_wf();
                        self.synapse_store().slots().lemma_inv_order(mem@);
                        self.lemma_disconnect_step(ma, mem@, h);
                        self.lemma_retire_only_trans(m0, ma, mem@);
                        lemma_detached_cells(self.nodes(ma), self.syns(ma), self.nc(), self.sc(), h.raw() - 1);
                    }
                },
            }
        }
        loop
            invariant
                self.valid(mem@),
                self.inv(mem@),
                self.linked(mem@),
                slot.raw() <= self.nc(),
                1 <= slot.raw(),
                i == slot.raw() - 1,
                m0 == old(mem)@,
                live == (self.shaped(m0) && self.ns().active(m0, slot.raw() as int)),
                self.retire_only(m0, mem@),
                self.nodes_same(m0, mem@),
                forall|j: int, k: int|
                    0 <= j < self.nc() && (k == 0 || k == 1 || k == 2 || k == 7) ==> #[trigger] self.nodes(mem@)[j][k]
                        == self.nodes(m0)[j][k],
                forall|j: int, k: int| 0 <= j < self.sc() && (k == 1 || k == 2) ==> #[trigger] self.syns(mem@)[j][k] == self.syns(m0)[j][k],
                self.synapse_store().slots().entries(mem@).len() <= self.sc(),
                self.nodes(m0)[slot.raw() - 1][3] <= 0 && self.nodes(m0)[slot.raw() - 1][5] <= 0 ==> mem@ == m0,
                self.shaped(m0) ==> self.shaped(mem@),
                live ==> self.nodes(mem@)[slot.raw() - 1][3] <= 0,
                self.chained(m0) ==> self.chained(mem@),
            ensures
                self.nodes(mem@)[slot.raw() - 1][5] <= 0,
                self.nodes(m0)[slot.raw() - 1][3] <= 0 && self.nodes(m0)[slot.raw() - 1][5] <= 0 ==> mem@ == m0,
            decreases self.sc() - self.synapse_store().slots().entries(mem@).len(),
        {
            let ghost ma = mem@;
            proof {
                self.synapse_store().lemma_wf();
                self.synapse_store().slots().lemma_inv_order(ma);
            }
            let head = self.node_cell(mem, slot, 5);
            match SlotId::from_i32(head) {
                None => {
                    break;
                },
                Some(h) => {
                    proof {
                        assert(node_links_ok(self.nodes(ma)[slot.raw() - 1], self.syns(ma), self.nc(), self.sc()));
                        if live {
                            assert(self.live_nodes(ma)[i]);
                            lemma_lists_heads(self.nodes(ma), self.syns(ma), self.live_nodes(ma), self.live_syns(ma), i);
                            assert(self.live_syns(ma)[h.raw() - 1]);
                            lemma_lists_no_member(self.nodes(ma), self.syns(ma), self.live_nodes(ma), self.live_syns(ma), i);
                            assert(self.syns(ma)[h.raw() - 1][1] != slot.raw());
                        }
                    }
                    match self.disconnect_synapse(mem, h) {
                        Err(e) => {
                            proof {
                                assert(mem@ == ma);
                                assert(!live);
                            }
                            return Err(e);
                        },
                        Ok(()) => {},
                    }
                    proof {
                        self.synapse_store().lemma_wf();
                        self.synapse_store().slots().lemma_inv_order(mem@);
                        self.lemma_disconnect_step(ma, mem@, h);
                        self.lemma_retire_only_trans(m0, ma, mem@);
                        lemma_detached_cells(self.nodes(ma), self.syns(ma), self.nc(), self.sc(), h.raw() - 1);
                        if live {
                            assert(self.nodes(mem@)[i][3] == self.nodes(ma)[i][3]);
                        }
                    }
                },
            }
        }
        let ghost mb = mem@;
        proof {
            assert(node_links_ok(self.nodes(mb)[i], self.syns(mb), self.nc(), self.sc()));
            self.ns().lemma_wf();
            self.ns().slots().lemma_inv_order(mb);
        }
        let r = self.node_chain.remove_node(mem, slot);
        proof {
            let mc = mem@;
            self.lemma_node_step(mb, mc);
            let nc = self.nc();
            let sc = self.sc();
            let nv = self.nodes(mb);
            let sv = self.syns(mb);
            if r is Ok {
                let nx = nv[i][1];
                let pv = nv[i][2];
                let c1 = if pv > 0 { set_cell(nv, pv - 1, 1, norm_slot(nx)) } else { nv };
                if pv > 0 {
                    lemma_links_node_set(nv, sv, nc, sc, pv - 1, 1, norm_slot(nx));
                }
                if nx > 0 {
                    lemma_links_node_set(c1, sv, nc, sc, nx - 1, 2, norm_slot(pv));
                }
                let u0 = unlinked(self.nodes(m0), i);
                let u1 = unlinked(nv, i);
                if pv > 0 {
                    assert(node_links_ok(nv[pv - 1], sv, nc, sc));
                }
                if nx > 0 {
                    assert(node_links_ok(nv[nx - 1], sv, nc, sc));
                }
                assert(self.nodes(mc)[i][5] == nv[i][5]);
                assert forall|j: int, k: int|
                    0 <= j < nc && (k == 0 || k == 1 || k == 2 || k == 7) implies #[trigger] self.nodes(mc)[j][k] == u0[j][k] by {
                    assert(node_links_ok(nv[j], sv, nc, sc));
                    assert(nv[j][k] == self.nodes(m0)[j][k]);
                    assert(nv[i][1] == self.nodes(m0)[i][1]);
                    assert(nv[i][2] == self.nodes(m0)[i][2]);
                    assert(node_links_ok(self.nodes(m0)[j], self.syns(m0), nc, sc));
                }
            }
            self.lemma_node_remove_retire(mb, mc, slot, r);
            self.lemma_retire_only_trans(m0, mb, mc);
            self.lemma_remove_node_chain(mb, mc, slot, r);
            if self.shaped(m0) {
                self.lemma_remove_node_shape(mb, mc, slot, r);
                if r is Ok {
                    assert(self.live_nodes(mb)[i]);
                    lemma_lists_no_member(nv, sv, self.live_nodes(mb), self.live_syns(mb), i);
                    self.synapse_store().lemma_wf();
                    self.synapse_store().slots().lemma_inv_order(m0);
                    assert forall|j: int|
                        0 <= j < self.sc() && self.synapse_store().active(m0, j + 1) && (self.syns(m0)[j][1] == slot.raw()
                            || self.syns(m0)[j][2] == slot.raw()) implies #[trigger] self.synapse_store().slots().deferred(mc)[j] by {
                        assert(sv[j][1] == self.syns(m0)[j][1]);
                        assert(sv[j][2] == self.syns(m0)[j][2]);
                        assert(!self.live_syns(mb)[j]);
                        assert(self.synapse_store().slots().allocated(mc)[j]);
                    }
                }
            }
        }
        r
    }

    /// A step that leaves the node allocator and every node's chain cells
    /// alone keeps the chains well formed.
    pub proof fn lemma_chain_keep(&self, m0: Seq<i32>, m1: Seq<i32>)
        requires
            self.linked(m1),
            self.nodes(m1).len() == self.nodes(m0).len(),
            forall|k: int, c: int| 0 <= k < self.nc() && (c == 1 || c == 2) ==> #[trigger] self.nodes(m1)[k][c] == self.nodes(m0)[k][c],
            self.nodes_same(m0, m1),
        ensures
            self.chained(m0) ==> self.chained(m1),
    {
        if self.chained(m0) {
            lemma_links_rows(self.nodes(m1), self.syns(m1), self.nc(), self.sc());
            assert(self.live_nodes(m1) =~= self.live_nodes(m0));
            lemma_chain_frame(self.nodes(m0), self.nodes(m1), self.live_nodes(m0));
        }
    }

    /// Taking over `source`'s nodes and synapses into larger stores keeps
    /// well-formed lists and chains well formed.
    pub proof fn lemma_grow_shape(&self, source: &NetworkWriter, sm: Seq<i32>, new: Seq<i32>)
        requires
            self.linked(new),
            source.valid(sm),
            self.valid(new),
            self.can_take(source),
            forall|i: int| 0 <= i < source.nc() ==> #[trigger] self.nodes(new)[i] == source.nodes(sm)[i],
            forall|i: int| 0 <= i < source.sc() ==> #[trigger] self.syns(new)[i] == source.syns(sm)[i],
            self.ns().slots().holds_copy_of(&source.ns().slots(), sm, new),
            self.synapse_store().slots().holds_copy_of(&source.synapse_store().slots(), sm, new),
        ensures
            source.shaped(sm) ==> self.shaped(new),
            source.chained(sm) ==> self.chained(new),
    {
        lemma_links_rows(self.nodes(new), self.syns(new), self.nc(), self.sc());
        self.ns().lemma_wf();
        self.synapse_store().lemma_wf();
        source.ns().lemma_wf();
        source.synapse_store().lemma_wf();
        let an2 = self.live_nodes(new);
        let al2 = self.live_syns(new);
        assert forall|i: int| 0 <= i < an2.len() implies #[trigger] an2[i] == (i < source.nc() && source.live_nodes(sm)[i]) by {}
        assert forall|j: int| 0 <= j < al2.len() implies #[trigger] al2[j] == (j < source.sc() && source.live_syns(sm)[j]) by {}
        lemma_extend(
            source.nodes(sm),
            source.syns(sm),
            source.live_nodes(sm),
            source.live_syns(sm),
            self.nodes(new),
            self.syns(new),
            an2,
            al2,
        );
    }

    /// On well-formed lists a live node has an outgoing list, as
    /// `disconnect()` asks.
    pub proof fn lemma_live_out_list(&self, mem: Seq<i32>, s: int)
        requires
            self.shaped(mem),
            1 <= s <= self.nc(),
            self.ns().active(mem, s),
        ensures
            exists|l: Seq<int>| #[trigger] out_list(self.nodes(mem), self.syns(mem), s, l),
    {
        assert(self.live_nodes(mem)[s - 1]);
        lemma_out_list_exists(self.nodes(mem), self.syns(mem), self.live_nodes(mem), self.live_syns(mem), s);
    }

    /// A publish step keeps well-formed lists well formed: it reclaims only
    /// retired slots and leaves the cells alone.
    pub proof fn lemma_publish_shape(&self, m0: Seq<i32>, m1: Seq<i32>)
        requires
            self.valid(m0),
            self.inv(m0),
            self.ns().slots().publish_result(m0, m1),
            self.synapse_store().slots().publish_result(m0, m1),
            self.nodes(m1) == self.nodes(m0),
            self.syns(m1) == self.syns(m0),
        ensures
            self.shaped(m0) ==> self.shaped(m1),
            self.chained(m0) ==> self.chained(m1),
    {
        self.ns().lemma_wf();
        self.synapse_store().lemma_wf();
        self.ns().slots().lemma_publish_keeps_live(m0, m1);
        self.synapse_store().slots().lemma_publish_keeps_live(m0, m1);
        assert(self.live_nodes(m1) =~= self.live_nodes(m0));
        assert(self.live_syns(m1) =~= self.live_syns(m0));
    }

    /// With nothing allocated, the lists are well formed.
    pub proof fn lemma_empty_shape(&self, m: Seq<i32>)
        requires
            self.linked(m),
            self.ns().empty_slots(m),
            self.synapse_store().empty_slots(m),
        ensures
            self.shaped(m),
            self.chained(m),
    {
        lemma_links_rows(self.nodes(m), self.syns(m), self.nc(), self.sc());
        lemma_lists_empty(self.nodes(m), self.syns(m), self.live_nodes(m), self.live_syns(m));
        lemma_chain_empty(self.nodes(m), self.live_nodes(m));
    }

    /// A node-store insertion that gives the new node empty lists and leaves
    /// the other nodes' list cells alone keeps the lists well formed.
    proof fn lemma_insert_shape(&self, m0: Seq<i32>, m1: Seq<i32>, r: Option<SlotId>)
        requires
            self.valid(m0),
            self.inv(m0),
            self.linked(m0),
            self.linked(m1),
            self.shaped(m0),
            self.ns().insert_result(m0, m1, r),
            self.syns(m1) == self.syns(m0),
            self.syns_same(m0, m1),
            r matches Some(x) ==> {
                &&& forall|c: int| 3 <= c <= 6 ==> #[trigger] self.nodes(m1)[x.raw() - 1][c] == 0
                &&& forall|k: int, c: int|
                    0 <= k < self.nc() && k != x.raw() - 1 && 3 <= c <= 6 ==> #[trigger] self.nodes(m1)[k][c]
                        == self.nodes(m0)[k][c]
            },
        ensures
            self.shaped(m1),
    {
        if let Some(x) = r {
            let i = x.raw() - 1;
            self.ns().lemma_wf();
            self.ns().slots().lemma_inv_order(m0);
            lemma_links_rows(self.nodes(m1), self.syns(m1), self.nc(), self.sc());
            assert(self.live_nodes(m1) =~= self.live_nodes(m0).update(i, true));
            assert(self.live_syns(m1) =~= self.live_syns(m0));
            lemma_lists_new_node(self.nodes(m0), self.syns(m0), self.nodes(m1), self.live_nodes(m0), self.live_syns(m0), i);
        }
    }

    /// `connect()` between two live nodes keeps the lists well formed.
    proof fn lemma_connect_shape(&self, m0: Seq<i32>, m1: Seq<i32>, x: SlotId, s: int, t: int, kind: i32)
        requires
            self.valid(m0),
            self.inv(m0),
            self.linked(m0),
            self.linked(m1),
            self.shaped(m0),
            0 <= s < self.nc(),
            0 <= t < self.nc(),
            self.ns().active(m0, s + 1),
            self.ns().active(m0, t + 1),
            self.synapse_store().insert_effect(m0, m1, Some(x)),
            self.syns(m1) == connected_syns(self.syns(m0), x.raw() - 1, kind, s, t, self.nodes(m0)[s][4], self.nodes(m0)[t][6]),
            self.nodes(m1) == connected_nodes(self.nodes(m0), x.raw() - 1, s, t),
            self.nodes_same(m0, m1),
        ensures
            self.shaped(m1),
    {
        let n = x.raw() - 1;
        let nv = self.nodes(m0);
        let sv = self.syns(m0);
        let nc = self.nc();
        let sc = self.sc();
        self.synapse_store().lemma_wf();
        self.ns().lemma_wf();
        self.synapse_store().slots().lemma_inv_order(m0);
        lemma_links_rows(nv, sv, nc, sc);
        lemma_links_rows(self.nodes(m1), self.syns(m1), nc, sc);
        assert(node_links_ok(nv[s], sv, nc, sc));
        assert(node_links_ok(nv[t], sv, nc, sc));
        assert(self.live_nodes(m1) =~= self.live_nodes(m0));
        assert(self.live_syns(m1) =~= self.live_syns(m0).update(n, true));
        assert(!self.live_syns(m0)[n]);
        assert(self.live_nodes(m0)[s]);
        assert(self.live_nodes(m0)[t]);
        lemma_lists_heads(nv, sv, self.live_nodes(m0), self.live_syns(m0), s);
        lemma_lists_heads(nv, sv, self.live_nodes(m0), self.live_syns(m0), t);
        let stail = nv[s][4];
        let ttail = nv[t][6];
        let sv2 = self.syns(m1);
        let nv2 = self.nodes(m1);
        if stail > 0 {
            assert(stail - 1 != n);
        }
        if ttail > 0 {
            assert(ttail - 1 != n);
        }
        assert(sv2[n][1] == s + 1);
        assert(sv2[n][2] == t + 1);
        assert(sv2[n][3] == 0);
        assert(sv2[n][5] == 0);
        assert(sv2[n][4] == norm_slot(stail));
        assert(sv2[n][6] == norm_slot(ttail));
        assert forall|k: int, c: int|
            0 <= k < sv.len() && k != n && 1 <= c <= 6 implies #[trigger] sv2[k][c] == (if stail > 0 && k == stail - 1 && c == 3 {
                (n + 1) as i32
            } else if ttail > 0 && k == ttail - 1 && c == 5 {
                (n + 1) as i32
            } else {
                sv[k][c]
            }) by {}
        assert forall|i: int, c: int|
            0 <= i < nv.len() && 3 <= c <= 6 implies #[trigger] nv2[i][c] == (if i == s && c == 4 {
                (n + 1) as i32
            } else if i == s && c == 3 && nv[s][3] <= 0 {
                (n + 1) as i32
            } else if i == t && c == 6 {
                (n + 1) as i32
            } else if i == t && c == 5 && nv[t][5] <= 0 {
                (n + 1) as i32
            } else {
                nv[i][c]
            }) by {}
        lemma_lists_connect(nv, sv, self.nodes(m1), self.syns(m1), self.live_nodes(m0), self.live_syns(m0), n, s, t);
    }

    /// Retiring node `slot` keeps well-formed chains well formed, and its
    /// successor stays live.
    proof fn lemma_remove_node_chain(&self, mb: Seq<i32>, mc: Seq<i32>, slot: SlotId, r: Result<(), SlotAllocatorError>)
        requires
            self.valid(mb),
            self.inv(mb),
            self.linked(mb),
            1 <= slot.raw() <= self.nc(),
            self.ns().remove_result(mb, mc, slot, r),
            r is Ok ==> self.nodes(mc) == unlinked(self.nodes(mb), slot.raw() - 1),
            self.linked(mc),
        ensures
            self.chained(mb) ==> self.chained(mc),
            self.chained(mb) && r is Ok && self.nodes(mb)[slot.raw() - 1][1] > 0 ==> self.ns().active(
                mc,
                self.nodes(mb)[slot.raw() - 1][1] as int,
            ),
    {
        let i = slot.raw() - 1;
        if r is Ok && self.chained(mb) {
            let nv = self.nodes(mb);
            let sv = self.syns(mb);
            lemma_links_rows(nv, sv, self.nc(), self.sc());
            lemma_links_rows(self.nodes(mc), self.syns(mc), self.nc(), self.sc());
            assert(node_links_ok(nv[i], sv, self.nc(), self.sc()));
            lemma_unlinked_cells(nv, i);
            self.ns().lemma_wf();
            self.ns().slots().lemma_inv_order(mb);
            assert(self.live_nodes(mc) =~= self.live_nodes(mb).update(i, false));
            assert(self.live_nodes(mb)[i]);
            lemma_chain_drop(nv, self.nodes(mc), self.live_nodes(mb), i);
            if nv[i][1] > 0 {
                assert(self.live_nodes(mc)[nv[i][1] - 1]);
            }
        }
    }

    /// Retiring node `slot` from a state whose lists are well formed and
    /// whose list heads for that node are unset keeps the lists well formed.
    proof fn lemma_remove_node_shape(&self, mb: Seq<i32>, mc: Seq<i32>, slot: SlotId, r: Result<(), SlotAllocatorError>)
        requires
            self.valid(mb),
            self.inv(mb),
            self.linked(mb),
            self.shaped(mb),
            1 <= slot.raw() <= self.nc(),
            self.ns().remove_result(mb, mc, slot, r),
            r is Ok ==> self.nodes(mc) == unlinked(self.nodes(mb), slot.raw() - 1),
            r is Ok ==> self.nodes(mb)[slot.raw() - 1][3] <= 0 && self.nodes(mb)[slot.raw() - 1][5] <= 0,
            self.syns(mc) == self.syns(mb),
            self.syns_same(mb, mc),
            self.linked(mc),
        ensures
            self.shaped(mc),
    {
        let i = slot.raw() - 1;
        if r is Ok {
            let nv = self.nodes(mb);
            let sv = self.syns(mb);
            lemma_links_rows(self.nodes(mc), sv, self.nc(), self.sc());
            assert(node_links_ok(nv[i], sv, self.nc(), self.sc()));
            assert forall|k: int, c: int| 0 <= k < nv.len() && 3 <= c <= 6 implies #[trigger] self.nodes(mc)[k][c] == nv[k][c] by {
                lemma_links_rows(nv, sv, self.nc(), self.sc());
            }
            self.ns().lemma_wf();
            self.ns().slots().lemma_inv_order(mb);
            assert(self.live_nodes(mc) =~= self.live_nodes(mb).update(i, false));
            assert(self.live_syns(mc) =~= self.live_syns(mb));
            lemma_lists_drop_node(nv, sv, self.nodes(mc), self.live_nodes(mb), self.live_syns(mb), i);
        }
    }

    /// `retire_only` holds of a state and itself.
    pub proof fn lemma_retire_only_refl(&self, m: Seq<i32>)
        ensures
            self.retire_only(m, m),
    {
        assert(self.ns().slots().entries(m).is_prefix_of(self.ns().slots().entries(m)));
        assert(self.synapse_store().slots().entries(m).is_prefix_of(self.synapse_store().slots().entries(m)));
    }

    /// A node-store removal step keeps `retire_only`.
    proof fn lemma_node_remove_retire(&self, m1: Seq<i32>, m2: Seq<i32>, slot: SlotId, r: Result<(), SlotAllocatorError>)
        requires
            self.valid(m1),
            self.ns().remove_result(m1, m2, slot, r),
            self.syns_same(m1, m2),
            self.frame(m1, m2),
            1 <= slot.raw() <= self.nc(),
            self.ns().slots().deferred(m1).len() == self.nc(),
        ensures
            self.retire_only(m1, m2),
    {
        let e1 = self.ns().slots().entries(m1);
        let e2 = self.ns().slots().entries(m2);
        assert(e1.is_prefix_of(e2));
        assert(self.synapse_store().slots().entries(m1).is_prefix_of(self.synapse_store().slots().entries(m2)));
    }

    /// What one successful `disconnect_synapse()` step keeps.
    proof fn lemma_disconnect_step(&self, m1: Seq<i32>, m2: Seq<i32>, h: SlotId)
        requires
            self.valid(m1),
            self.linked(m1),
            1 <= h.raw() <= self.sc(),
            self.syns(m1)[h.raw() - 1][1] > 0,
            self.syns(m1)[h.raw() - 1][2] > 0,
            self.synapse_store().remove_effect(m1, m2, h, Ok(())),
            self.nodes(m2) == detached_nodes(self.nodes(m1), self.syns(m1), h.raw() - 1),
            self.nodes_same(m1, m2),
            self.ns().buffer().writer_base(m2) == self.ns().buffer().writer_base(m1),
            self.frame(m1, m2),
            self.synapse_store().slots().deferred(m1).len() == self.sc(),
        ensures
            self.retire_only(m1, m2),
            forall|j: int, k: int|
                0 <= j < self.nc() && (k == 0 || k == 1 || k == 2 || k == 7) ==> #[trigger] self.nodes(m2)[j][k]
                    == self.nodes(m1)[j][k],
    {
        let nc = self.nc();
        let sc = self.sc();
        let nv = self.nodes(m1);
        let sv = self.syns(m1);
        let x = h.raw() - 1;
        assert(self.ns().slots().entries(m1).is_prefix_of(self.ns().slots().entries(m2)));
        assert(self.synapse_store().slots().entries(m1).is_prefix_of(self.synapse_store().slots().entries(m2)));
        assert(syn_links_ok(sv[x], sv, nc, sc));
        assert forall|j: int, k: int|
            0 <= j < nc && (k == 0 || k == 1 || k == 2 || k == 7) implies #[trigger] self.nodes(m2)[j][k] == nv[j][k] by {
            assert(node_links_ok(nv[j], sv, nc, sc));
            assert(node_links_ok(nv[sv[x][1] - 1], sv, nc, sc));
            assert(node_links_ok(nv[sv[x][2] - 1], sv, nc, sc));
        }
    }
}


impl NetworkWriter {
    /// Removes `head_slot` and every node after it along the next pointers,
    /// each with its synapses.
    pub fn remove_chain(&self, mem: &mut AtomicBuffer, head_slot: SlotId) -> (r: Result<(), SlotAllocatorError>)
        requires
            self.valid(old(mem)@),
            self.inv(old(mem)@),
            self.linked(old(mem)@),
            head_slot.raw() <= self.nc(),
        ensures
            self.valid(final(mem)@),
            self.inv(final(mem)@),
            self.linked(final(mem)@),
            self.retire_only(old(mem)@, final(mem)@),
            !self.ns().active(old(mem)@, head_slot.raw() as int) ==> r is Err,
            r is Err ==> r == Err::<(), SlotAllocatorError>(SlotAllocatorError::InvalidSlot) || r == Err::<
                (),
                SlotAllocatorError,
            >(SlotAllocatorError::DoubleFree),
            r is Ok ==> self.ns().active(old(mem)@, head_slot.raw() as int) && self.ns().slots().deferred(final(mem)@)[head_slot.raw()
                - 1],
            self.shaped(old(mem)@) ==> self.shaped(final(mem)@),
            self.nodes(old(mem)@)[head_slot.raw() - 1][1] <= 0 && self.nodes(old(mem)@)[head_slot.raw() - 1][3] <= 0
                && self.nodes(old(mem)@)[head_slot.raw() - 1][5] <= 0 ==> (r is Ok <==> self.ns().active(
                old(mem)@,
                head_slot.raw() as int,
            )),
            self.chained(old(mem)@) ==> self.chained(final(mem)@),
            self.shaped(old(mem)@) && self.chained(old(mem)@) ==> (r is Ok <==> self.ns().active(old(mem)@, head_slot.raw() as int)),
            self.shaped(old(mem)@) && self.chained(old(mem)@) && r is Ok ==> forall|l: Seq<int>|
                #[trigger] chain_from(self.nodes(old(mem)@), l) && l[0] == head_slot.raw() - 1 ==> forall|k: int|
                    0 <= k < l.len() ==> #[trigger] self.ns().slots().deferred(final(mem)@)[l[k]],
    {
        let _hs = head_slot.get();
        let ghost m0 = mem@;
        let ghost h = head_slot.raw() - 1;
        proof {
            self.ns().lemma_wf();
            self.ns().slots().lemma_inv_order(m0);
            self.lemma_retire_only_refl(m0);
        }
        let mut current_slot = Some(head_slot);
        let ghost mut started = false;
        let ghost good = self.shaped(m0) && self.chained(m0) && self.ns().active(m0, head_slot.raw() as int);
        let ghost lc = choose|l: Seq<int>| #[trigger] chain_from(self.nodes(m0), l) && l[0] == h;
        let ghost gl = good && chain_from(self.nodes(m0), lc) && lc[0] == h;
        let ghost p0 = self.nodes(m0)[h][2];
        let ghost mut idx: int = 0;
        proof {
            if gl {
                assert(self.live_nodes(m0)[h]);
                lemma_chain_from_prev(self.nodes(m0), self.live_nodes(m0), lc);
            }
        }
        loop
            invariant
                self.valid(mem@),
                self.inv(mem@),
                self.linked(mem@),
                m0 == old(mem)@,
                h == head_slot.raw() - 1,
                1 <= head_slot.raw() <= self.nc(),
                self.retire_only(m0, mem@),
                current_slot matches Some(c) ==> c.raw() <= self.nc(),
                self.ns().slots().entries(mem@).len() <= self.nc(),
                !started ==> current_slot == Some(head_slot) && mem@ == m0,
                started ==> self.ns().active(m0, head_slot.raw() as int) && self.ns().slots().deferred(mem@)[h],
                started && self.nodes(m0)[h][1] <= 0 ==> current_slot is None,
                self.shaped(m0) ==> self.shaped(mem@),
                self.chained(m0) ==> self.chained(mem@),
                good == (self.shaped(m0) && self.chained(m0) && self.ns().active(m0, head_slot.raw() as int)),
                good ==> (current_slot matches Some(c) ==> self.ns().active(mem@, c.raw() as int)),
                gl == (good && chain_from(self.nodes(m0), lc) && lc[0] == h),
                p0 == self.nodes(m0)[h][2],
                gl ==> 0 <= idx <= lc.len(),
                gl ==> (current_slot is None <==> idx == lc.len()),
                gl ==> (current_slot matches Some(c) ==> c.raw() == lc[idx] + 1),
                gl ==> (!started <==> idx == 0),
                gl ==> forall|k: int| 0 <= k < idx ==> #[trigger] self.ns().slots().deferred(mem@)[lc[k]],
                gl ==> forall|k: int| idx <= k < lc.len() ==> #[trigger] self.nodes(mem@)[lc[k]][1] == self.nodes(m0)[lc[k]][1],
                gl ==> (idx < lc.len() ==> norm_slot(self.nodes(mem@)[lc[idx]][2]) == norm_slot(p0)),
                gl ==> (p0 > 0 ==> forall|k: int| 0 <= k < lc.len() ==> #[trigger] lc[k] != p0 - 1),
            ensures
                self.valid(mem@),
                self.inv(mem@),
                self.linked(mem@),
                self.retire_only(m0, mem@),
                self.ns().active(m0, head_slot.raw() as int),
                self.ns().slots().deferred(mem@)[h],
                self.shaped(m0) ==> self.shaped(mem@),
                self.chained(m0) ==> self.chained(mem@),
                gl ==> forall|k: int| 0 <= k < lc.len() ==> #[trigger] self.ns().slots().deferred(mem@)[lc[k]],
            decreases self.nc() - self.ns().slots().entries(mem@).len(),
        {
            let ghost ma = mem@;
            match current_slot {
                None => {
                    break;
                },
                Some(c) => {
                    let _c = c.get();
                    proof {
                        assert(node_links_ok(self.nodes(ma)[c.raw() - 1], self.syns(ma), self.nc(), self.sc()));
                    }
                    let next = self.node_cell(mem, c, 1);
                    match self.remove_node(mem, c) {
                        Err(e) => {
                            proof {
                                self.lemma_retire_only_trans(m0, ma, mem@);
                                assert(!good);
                            }
                            return Err(e);
                        },
                        Ok(()) => {},
                    }
                    proof {
                        self.lemma_retire_only_trans(m0, ma, mem@);
                        self.ns().lemma_wf();
                        self.ns().slots().lemma_inv_order(mem@);
                        if started {
                            assert(self.retire_only(ma, mem@));
                            assert(0 <= h < self.nc());
                            assert(self.ns().slots().deferred(ma)[h]);
                            assert(self.ns().slots().deferred(mem@)[h]);
                        } else {
                            assert(c == head_slot);
                            assert(ma == m0);
                            assert(self.ns().active(m0, head_slot.raw() as int));
                            assert(self.ns().slots().deferred(mem@)[c.raw() - 1]);
                        }
                        started = true;
                        if gl {
                            self.lemma_chain_walk_step(m0, ma, mem@, lc, idx, c, p0);
                        }
                        idx = idx + 1;
                    }
                    current_slot = SlotId::from_i32(next);
                },
            }
        }
        proof {
            assert forall|l: Seq<int>|
                #[trigger] chain_from(self.nodes(m0), l) && l[0] == h && good implies forall|k: int|
                    0 <= k < l.len() ==> #[trigger] self.ns().slots().deferred(mem@)[l[k]] by {
                lemma_chain_from_unique(self.nodes(m0), lc, l);
            }
        }
        Ok(())
    }

    /// One step of `remove_chain()` along the chain list `lc`: node `lc[idx]`
    /// retired, the rest of the list still linked as before.
    proof fn lemma_chain_walk_step(&self, m0: Seq<i32>, ma: Seq<i32>, mb: Seq<i32>, lc: Seq<int>, idx: int, c: SlotId, p0: i32)
        requires
            self.valid(ma),
            self.linked(ma),
            self.retire_only(ma, mb),
            chain_from(self.nodes(m0), lc),
            self.nodes(m0).len() == self.nc(),
            0 <= idx < lc.len(),
            c.raw() == lc[idx] + 1,
            self.ns().slots().deferred(mb)[lc[idx]],
            forall|k: int| 0 <= k < idx ==> #[trigger] self.ns().slots().deferred(ma)[lc[k]],
            forall|k: int| idx <= k < lc.len() ==> #[trigger] self.nodes(ma)[lc[k]][1] == self.nodes(m0)[lc[k]][1],
            norm_slot(self.nodes(ma)[lc[idx]][2]) == norm_slot(p0),
            p0 > 0 ==> forall|k: int| 0 <= k < lc.len() ==> #[trigger] lc[k] != p0 - 1,
            forall|j: int, k: int|
                0 <= j < self.nc() && (k == 0 || k == 1 || k == 2 || k == 7) ==> #[trigger] self.nodes(mb)[j][k] == unlinked(
                    self.nodes(ma),
                    lc[idx],
                )[j][k],
        ensures
            forall|k: int| 0 <= k < idx + 1 ==> #[trigger] self.ns().slots().deferred(mb)[lc[k]],
            forall|k: int| idx + 1 <= k < lc.len() ==> #[trigger] self.nodes(mb)[lc[k]][1] == self.nodes(m0)[lc[k]][1],
            idx + 1 < lc.len() ==> norm_slot(self.nodes(mb)[lc[idx + 1]][2]) == norm_slot(p0),
    {
        let nv = self.nodes(ma);
        let i = lc[idx];
        lemma_links_rows(nv, self.syns(ma), self.nc(), self.sc());
        assert(node_links_ok(nv[i], self.syns(ma), self.nc(), self.sc()));
        lemma_unlinked_cells(nv, i);
        self.ns().lemma_wf();
        assert forall|k: int| 0 <= k < idx + 1 implies #[trigger] self.ns().slots().deferred(mb)[lc[k]] by {
            if k < idx {
                assert(self.ns().slots().deferred(ma)[lc[k]]);
            }
        }
        assert forall|k: int| idx + 1 <= k < lc.len() implies #[trigger] self.nodes(mb)[lc[k]][1] == self.nodes(m0)[lc[k]][1] by {
            assert(self.nodes(mb)[lc[k]][1] == unlinked(nv, i)[lc[k]][1]);
            assert(lc[k] != i);
        }
        if idx + 1 < lc.len() {
            assert(nv[i][1] == lc[idx + 1] + 1);
            assert(self.nodes(mb)[lc[idx + 1]][2] == unlinked(nv, i)[lc[idx + 1]][2]);
        }
    }

    /// Reclaims acknowledged retired node and synapse slots and advances both
    /// generations.
    pub fn publish(&self, mem: &mut AtomicBuffer)
        requires
            self.valid(old(mem)@),
            self.inv(old(mem)@),
        ensures
            self.valid(final(mem)@),
            self.inv(final(mem)@),
            self.ns().slots().publish_result(old(mem)@, final(mem)@),
            self.synapse_store().slots().publish_result(old(mem)@, final(mem)@),
            self.nodes(final(mem)@) == self.nodes(old(mem)@),
            self.syns(final(mem)@) == self.syns(old(mem)@),
            self.ns().meta_view(final(mem)@) == self.ns().meta_view(old(mem)@),
            self.ns().attr_view(final(mem)@) == self.ns().attr_view(old(mem)@),
            self.synapse_store().meta_view(final(mem)@) == self.synapse_store().meta_view(old(mem)@),
            self.synapse_store().attr_view(final(mem)@) == self.synapse_store().attr_view(old(mem)@),
            self.ns().buffer().writer_base(final(mem)@) == self.ns().buffer().writer_base(old(mem)@),
            self.frame(old(mem)@, final(mem)@),
            unchanged_outside(old(mem)@, final(mem)@, self.ns().start(), self.synapse_store().end()),
            self.shaped(old(mem)@) ==> self.shaped(final(mem)@),
            self.chained(old(mem)@) ==> self.chained(final(mem)@),
    {
        let ghost m0 = mem@;
        self.node_chain.publish(mem);
        let ghost m1 = mem@;
        proof {
            self.lemma_node_step(m0, m1);
        }
        self.synapses.publish(mem);
        proof {
            self.lemma_syn_step(m1, mem@);
            self.lemma_frame_trans(m0, m1, mem@);
            lemma_disjoint_frame(self.synapse_store(), self.ns(), m1, mem@);
            lemma_disjoint_frame(self.ns(), self.synapse_store(), m0, m1);
            self.ns().lemma_wf();
            self.synapse_store().lemma_wf();
            lemma_unchanged_widen(m0, m1, self.ns().start(), self.ns().attrs_start(), self.ns().start(), self.synapse_store().end());
            lemma_unchanged_widen(m1, mem@, self.synapse_store().start(), self.synapse_store().attrs_start(), self.ns().start(), self.synapse_store().end());
            lemma_unchanged_trans(m0, m1, mem@, self.ns().start(), self.synapse_store().end());
            self.lemma_publish_shape(m0, mem@);
        }
    }
}


impl NetworkWriter {
    /// `source` fits into this network: capacities do not shrink, and its
    /// blocks and attribute cells fit the regions here.
    pub open spec fn can_take(&self, source: &NetworkWriter) -> bool {
        &&& source.nc() <= self.nc()
        &&& source.sc() <= self.sc()
        &&& source.ns().buffer().cap() <= self.ns().buffer().cap()
        &&& source.nc() * source.ns().block() <= self.nc() * self.ns().block()
        &&& source.sc() * source.synapse_store().block() <= self.sc() * self.synapse_store().block()
        &&& source.nc() * source.ns().cfg().attr_stride <= self.nc() * self.ns().cfg().attr_stride
        &&& source.sc() * source.synapse_store().cfg().attr_stride <= self.sc() * self.synapse_store().cfg().attr_stride
    }

    /// Takes over the nodes and synapses of `source`: allocator state, blocks
    /// in all three buffers, and attribute cells.
    pub fn copy_from(&self, mem: &mut AtomicBuffer, source: &Self, source_mem: &AtomicBuffer)
        requires
            self.valid(old(mem)@),
            source.valid(source_mem@),
            source.inv(source_mem@),
            self.can_take(source),
        ensures
            self.valid(final(mem)@),
            final(mem)@.len() == old(mem)@.len(),
            self.ns().slots().copy_result(&source.ns().slots(), source_mem@, old(mem)@, final(mem)@),
            self.synapse_store().slots().copy_result(
                &source.synapse_store().slots(),
                source_mem@,
                old(mem)@,
                final(mem)@,
            ),
            forall|k: int, t: int|
                0 <= k < 3 && 0 <= t < source.nc() * source.ns().block() ==> #[trigger] final(mem)@[tb_base(
                    self.ns().buffer().start(),
                    self.ns().buffer().cap(),
                    k,
                ) + self.ns().tb_start() + t] == source_mem@[tb_base(
                    source.ns().buffer().start(),
                    source.ns().buffer().cap(),
                    k,
                ) + source.ns().tb_start() + t],
            forall|k: int, t: int|
                0 <= k < 3 && 0 <= t < source.sc() * source.synapse_store().block() ==> #[trigger] final(mem)@[tb_base(
                    self.ns().buffer().start(),
                    self.ns().buffer().cap(),
                    k,
                ) + self.synapse_store().tb_start() + t] == source_mem@[tb_base(
                    source.ns().buffer().start(),
                    source.ns().buffer().cap(),
                    k,
                ) + source.synapse_store().tb_start() + t],
            forall|t: int|
                0 <= t < source.nc() * source.ns().cfg().attr_stride ==> #[trigger] final(mem)@[self.ns().attrs_start()
                    + t] == source_mem@[source.ns().attrs_start() + t],
            forall|t: int|
                0 <= t < source.sc() * source.synapse_store().cfg().attr_stride ==> #[trigger] final(mem)@[self.synapse_store().attrs_start()
                    + t] == source_mem@[source.synapse_store().attrs_start() + t],
            forall|x: int|
                0 <= x < old(mem)@.len() && !(self.ns().start() <= x < self.synapse_store().end()) && !(
                self.ns().buffer().start() + 4 <= x < self.ns().buffer().end()) ==> #[trigger] final(mem)@[x]
                    == old(mem)@[x],
            forall|x: int|
                0 <= x < old(mem)@.len() && !(self.ns().start() <= x < self.synapse_store().end()) && !tb_in_region(
                    x,
                    self.ns().buffer().start(),
                    self.ns().buffer().cap(),
                    self.ns().tb_start(),
                    source.nc() * source.ns().block(),
                ) && !tb_in_region(
                    x,
                    self.ns().buffer().start(),
                    self.ns().buffer().cap(),
                    self.synapse_store().tb_start(),
                    source.sc() * source.synapse_store().block(),
                ) ==> #[trigger] final(mem)@[x] == old(mem)@[x],
    {
        proof {
            self.ns().lemma_wf();
            self.synapse_store().lemma_wf();
            source.ns().lemma_wf();
            source.synapse_store().lemma_wf();
            self.ns().buffer().lemma_layout();
        }
        let ghost m0 = mem@;
        self.node_chain.copy_from(mem, &source.node_chain, source_mem);
        let ghost m1 = mem@;
        proof {
            assert forall|j: int| self.synapse_store().slots().start() <= j < self.synapse_store().slots().end() implies #[trigger] m1[j] == m0[j] by {
            }
            self.synapse_store().slots().lemma_frame(m0, m1);
        }
        self.synapses.copy_from(mem, &source.synapses, source_mem);
        proof {
            let m2 = mem@;
            assert forall|j: int| self.ns().slots().start() <= j < self.ns().slots().end() implies #[trigger] m2[j] == m1[j] by {
            }
            self.ns().slots().lemma_frame(m1, m2);
            let bs = self.ns().buffer().start();
            let bc = self.ns().buffer().cap();
            assert forall|k: int, t: int|
                0 <= k < 3 && 0 <= t < source.nc() * source.ns().block() implies #[trigger] m2[tb_base(bs, bc, k)
                    + self.ns().tb_start() + t] == source_mem@[tb_base(
                    source.ns().buffer().start(),
                    source.ns().buffer().cap(),
                    k,
                ) + source.ns().tb_start() + t] by {
                let j = tb_base(bs, bc, k) + self.ns().tb_start() + t;
                assert(m1[j] == source_mem@[tb_base(source.ns().buffer().start(), source.ns().buffer().cap(), k)
                    + source.ns().tb_start() + t]);
                assert(!tb_in_region(j, bs, bc, self.synapse_store().tb_start(), source.sc() * source.synapse_store().block()));
            }
            assert forall|t: int|
                0 <= t < source.nc() * source.ns().cfg().attr_stride implies #[trigger] m2[self.ns().attrs_start() + t]
                    == source_mem@[source.ns().attrs_start() + t] by {
                let j = self.ns().attrs_start() + t;
                assert(!tb_in_region(j, bs, bc, self.synapse_store().tb_start(), source.sc() * source.synapse_store().block()));
            }
            assert(0 <= source.nc() * source.ns().block()) by (nonlinear_arith)
                requires
                    0 <= source.nc(),
                    0 <= source.ns().block(),
            ;
            assert(0 <= source.sc() * source.synapse_store().block()) by (nonlinear_arith)
                requires
                    0 <= source.sc(),
                    0 <= source.synapse_store().block(),
            ;
            assert forall|x: int|
                0 <= x < m0.len() && !(self.ns().start() <= x < self.synapse_store().end()) && !(bs + 4 <= x
                    < self.ns().buffer().end()) implies #[trigger] m2[x] == m0[x] by {
                assert(!tb_in_region(x, bs, bc, self.synapse_store().tb_start(), source.sc() * source.synapse_store().block()));
                assert(!tb_in_region(x, bs, bc, self.ns().tb_start(), source.nc() * source.ns().block()));
                assert(m1[x] == m0[x]);
            }
            assert forall|x: int|
                0 <= x < m0.len() && !(self.ns().start() <= x < self.synapse_store().end()) && !tb_in_region(
                    x,
                    bs,
                    bc,
                    self.ns().tb_start(),
                    source.nc() * source.ns().block(),
                ) && !tb_in_region(x, bs, bc, self.synapse_store().tb_start(), source.sc() * source.synapse_store().block())
                    implies #[trigger] m2[x] == m0[x] by {
                assert(m1[x] == m0[x]);
            }
        }
    }
}


impl NetworkWriter {
    /// Disconnects every synapse from `source_slot` to `target_slot`, walking
    /// the source's outgoing list once.
    #[verifier::rlimit(30)]
    pub fn disconnect(&self, mem: &mut AtomicBuffer, source_slot: SlotId, target_slot: SlotId) -> (r: Result<(), SlotAllocatorError>)
        requires
            self.valid(old(mem)@),
            self.inv(old(mem)@),
            self.linked(old(mem)@),
            source_slot.raw() <= self.nc(),
            exists|l: Seq<int>| #[trigger] out_list(self.nodes(old(mem)@), self.syns(old(mem)@), source_slot.raw() as int, l),
        ensures
            self.valid(final(mem)@),
            self.inv(final(mem)@),
            self.linked(final(mem)@),
            self.retire_only(old(mem)@, final(mem)@),
            r is Ok ==> forall|l: Seq<int>, j: int|
                #[trigger] out_list(self.nodes(old(mem)@), self.syns(old(mem)@), source_slot.raw() as int, l) && 0 <= j < self.sc()
                    ==> #[trigger] self.synapse_store().slots().deferred(final(mem)@)[j] == (
                    self.synapse_store().slots().deferred(old(mem)@)[j] || (l.contains(j) && #[trigger] self.syns(
                        old(mem)@,
                    )[j][2] == target_slot.raw())),
            forall|l: Seq<int>|
                #[trigger] out_list(self.nodes(old(mem)@), self.syns(old(mem)@), source_slot.raw() as int, l) ==> (r is Ok
                    <==> self.matching_live(old(mem)@, l, target_slot.raw() as int)),
            r is Err ==> r == Err::<(), SlotAllocatorError>(SlotAllocatorError::InvalidSlot) || r == Err::<
                (),
                SlotAllocatorError,
            >(SlotAllocatorError::DoubleFree),
            self.shaped(old(mem)@) ==> self.shaped(final(mem)@),
            self.shaped(old(mem)@) && self.ns().active(old(mem)@, source_slot.raw() as int) ==> r is Ok,
            self.chained(old(mem)@) ==> self.chained(final(mem)@),
            self.shaped(old(mem)@) && self.ns().active(old(mem)@, source_slot.raw() as int) ==> forall|l: Seq<int>|
                #[trigger] out_list(self.nodes(old(mem)@), self.syns(old(mem)@), source_slot.raw() as int, l) ==> out_list(
                    self.nodes(final(mem)@),
                    self.syns(final(mem)@),
                    source_slot.raw() as int,
                    kept(l, self.syns(old(mem)@), target_slot.raw() as int),
                ),
    {
        let _s = source_slot.get();
        let ghost m0 = mem@;
        let ghost nv0 = self.nodes(m0);
        let ghost sv0 = self.syns(m0);
        let ghost src = source_slot.raw() - 1;
        let ghost sl = source_slot.raw() as int;
        let ghost l = choose|l: Seq<int>| #[trigger] out_list(nv0, sv0, sl, l);
        let ghost len = l.len() as int;
        let ghost sc = self.sc();
        let ghost nc = self.nc();
        proof {
            self.lemma_retire_only_refl(m0);
            self.synapse_store().lemma_wf();
            self.synapse_store().slots().lemma_inv_order(m0);
            assert(node_links_ok(nv0[src], sv0, nc, sc));
            assert forall|k: int| 0 <= k < len implies #[trigger] sv0[l[k]][1] > 0 && sv0[l[k]][2] > 0 by {
                if k == 0 {
                    assert(syn_ref_ok(sv0, nv0[src][3]));
                } else {
                    assert(syn_links_ok(sv0[l[k - 1]], sv0, nc, sc));
                    assert(syn_ref_ok(sv0, sv0[l[k - 1]][3]));
                }
            }
        }
        let mut synapse = SlotId::from_i32(self.node_cell(mem, source_slot, 3));
        let ghost mut idx: int = 0;
        let ghost good = self.shaped(m0) && self.ns().active(m0, sl);
        proof {
            if good {
                assert(self.live_nodes(m0)[src]);
                lemma_out_list_live(nv0, sv0, self.live_nodes(m0), self.live_syns(m0), sl, l);
            }
            assert(kept(l.take(0), sv0, target_slot.raw() as int) + l.skip(0) =~= l);
        }
        loop
            invariant
                self.valid(mem@),
                self.inv(mem@),
                self.linked(mem@),
                m0 == old(mem)@,
                nv0 == self.nodes(m0),
                sv0 == self.syns(m0),
                sc == self.sc(),
                nc == self.nc(),
                src == source_slot.raw() - 1,
                out_list(nv0, sv0, sl, l),
                sl == src + 1,
                1 <= sl <= nc,
                len == l.len(),
                self.retire_only(m0, mem@),
                0 <= idx <= len,
                synapse is None <==> idx == len,
                synapse matches Some(y) ==> y.raw() == l[idx] + 1,
                forall|k: int| 0 <= k < len ==> #[trigger] sv0[l[k]][1] > 0 && sv0[l[k]][2] > 0,
                forall|j: int| 0 <= j < sc ==> #[trigger] self.syns(mem@)[j][1] == sv0[j][1] && self.syns(mem@)[j][2] == sv0[j][2],
                forall|k: int| idx <= k < len - 1 ==> self.syns(mem@)[#[trigger] l[k]][3] == l[k + 1] + 1,
                idx < len ==> self.syns(mem@)[l[len - 1]][3] <= 0,
                forall|k: int| idx < k < len ==> self.syns(mem@)[#[trigger] l[k]][4] == l[k - 1] + 1,
                idx < len ==> (self.syns(mem@)[l[idx]][4] <= 0 || !l.subrange(idx, len).contains(
                    self.syns(mem@)[l[idx]][4] - 1,
                )),
                forall|j: int|
                    0 <= j < sc ==> #[trigger] self.synapse_store().slots().deferred(mem@)[j] == (
                    self.synapse_store().slots().deferred(m0)[j] || (l.take(idx).contains(j) && sv0[j][2]
                        == target_slot.raw())),
                forall|k: int|
                    0 <= k < idx && sv0[#[trigger] l[k]][2] == target_slot.raw() ==> self.synapse_store().active(m0, l[k] + 1),
                self.shaped(m0) ==> self.shaped(mem@),
                self.chained(m0) ==> self.chained(mem@),
                good == (self.shaped(m0) && self.ns().active(m0, sl)),
                good ==> forall|k: int| 0 <= k < len ==> #[trigger] sv0[l[k]][1] == sl,
                good ==> out_list(
                    self.nodes(mem@),
                    self.syns(mem@),
                    sl,
                    kept(l.take(idx), sv0, target_slot.raw() as int) + l.skip(idx),
                ),
            ensures
                idx == len,
            decreases len - idx,
        {
            let ghost ma = mem@;
            match synapse {
                None => {
                    break;
                },
                Some(y) => {
                    let _y = y.get();
                    let ghost x = l[idx];
                    proof {
                        assert(syn_links_ok(self.syns(ma)[x], self.syns(ma), nc, sc));
                        self.synapse_store().lemma_wf();
                        self.synapse_store().slots().lemma_inv_order(ma);
                    }
                    let next_v = self.syn_cell(mem, y, 3);
                    let tgt = self.syn_cell(mem, y, 2);
                    let next = SlotId::from_i32(next_v);
                    if tgt > 0 && tgt as u32 == target_slot.get() {
                        let ghost live_ma = self.synapse_store().active(ma, x + 1);
                        proof {
                            assert(!l.take(idx).contains(x)) by {
                                if l.take(idx).contains(x) {
                                    let k = choose|k: int| 0 <= k < l.take(idx).len() && #[trigger] l.take(idx)[k] == x;
                                    assert(l[k] == l[idx]);
                                }
                            }
                            assert(self.synapse_store().slots().deferred(ma)[x] == self.synapse_store().slots().deferred(m0)[x]);
                            assert(live_ma == self.synapse_store().active(m0, x + 1));
                            assert(sv0[l[idx]][2] == target_slot.raw());
                        }
                        match self.disconnect_synapse(mem, y) {
                            Err(e) => {
                                proof {
                                    assert(mem@ == ma);
                                    assert(!self.matching_live(m0, l, target_slot.raw() as int));
                                    self.lemma_walk_live(m0, sl, l, idx);
                                    assert forall|l2: Seq<int>| #[trigger] out_list(nv0, sv0, sl, l2) implies l2 == l by {
                                        lemma_out_list_unique(nv0, sv0, sl, l, l2);
                                    }
                                }
                                return Err(e);
                            },
                            Ok(()) => {},
                        }
                        proof {
                            assert(self.synapse_store().active(m0, l[idx] + 1));
                            self.lemma_disconnect_step(ma, mem@, y);
                            self.lemma_retire_only_trans(m0, ma, mem@);
                            self.lemma_walk_step(ma, mem@, l, idx, sc, nc);
                            self.lemma_walk_keep(ma, l, idx, sv0, sl, target_slot.raw() as int, good);
                            let sv = self.syns(ma);
                            let t1 = l.take(idx + 1);
                            let t0 = l.take(idx);
                            assert forall|j: int| 0 <= j < sc implies #[trigger] self.synapse_store().slots().deferred(mem@)[j] == (
                                self.synapse_store().slots().deferred(m0)[j] || (l.take(idx + 1).contains(j) && sv0[j][2]
                                    == target_slot.raw())) by {
                                if j == x {
                                    assert(t1[idx] == x);
                                } else {
                                    if t1.contains(j) {
                                        let k = choose|k: int| 0 <= k < t1.len() && #[trigger] t1[k] == j;
                                        assert(t0[k] == j);
                                    }
                                    if t0.contains(j) {
                                        let k = choose|k: int| 0 <= k < t0.len() && #[trigger] t0[k] == j;
                                        assert(t1[k] == j);
                                    }
                                }
                            }
                        }
                    } else {
                        proof {
                            lemma_kept_step(l, sv0, target_slot.raw() as int, idx);
                            let t1 = l.take(idx + 1);
                            let t0 = l.take(idx);
                            assert forall|j: int| 0 <= j < sc implies #[trigger] self.synapse_store().slots().deferred(mem@)[j] == (
                                self.synapse_store().slots().deferred(m0)[j] || (l.take(idx + 1).contains(j) && sv0[j][2]
                                    == target_slot.raw())) by {
                                if t1.contains(j) && j != x {
                                    let k = choose|k: int| 0 <= k < t1.len() && #[trigger] t1[k] == j;
                                    assert(t0[k] == j);
                                }
                                if t0.contains(j) {
                                    let k = choose|k: int| 0 <= k < t0.len() && #[trigger] t0[k] == j;
                                    assert(t1[k] == j);
                                }
                            }
                            if idx + 1 < len {
                                let sub = l.subrange(idx + 1, len);
                                assert(!sub.contains(l[idx])) by {
                                    if sub.contains(l[idx]) {
                                        let k = choose|k: int| 0 <= k < sub.len() && #[trigger] sub[k] == l[idx];
                                        assert(l[idx + 1 + k] == l[idx]);
                                    }
                                }
                            }
                        }
                    }
                    synapse = next;
                    proof {
                        idx = idx + 1;
                    }
                },
            }
        }
        proof {
            assert(l.take(len) =~= l);
            assert(kept(l.take(len), sv0, target_slot.raw() as int) + l.skip(len) =~= kept(l, sv0, target_slot.raw() as int));
            assert forall|l2: Seq<int>| #[trigger] out_list(nv0, sv0, sl, l2) implies l2 == l by {
                lemma_out_list_unique(nv0, sv0, sl, l, l2);
            }
            assert(self.matching_live(m0, l, target_slot.raw() as int));
        }
        Ok(())
    }

    /// The list kept so far, after unhooking the matching synapse `l[idx]`.
    proof fn lemma_walk_keep(&self, ma: Seq<i32>, l: Seq<int>, idx: int, sv0: Seq<Seq<i32>>, sl: int, t: int, good: bool)
        requires
            self.valid(ma),
            self.linked(ma),
            1 <= sl <= self.nc(),
            0 <= idx < l.len(),
            sv0[l[idx]][2] == t,
            good ==> self.syns(ma)[l[idx]][1] == sl,
            self.syns(ma)[l[idx]][2] > 0,
            good ==> out_list(self.nodes(ma), self.syns(ma), sl, kept(l.take(idx), sv0, t) + l.skip(idx)),
        ensures
            good ==> out_list(
                detached_nodes(self.nodes(ma), self.syns(ma), l[idx]),
                detached_syns(self.syns(ma), l[idx]),
                sl,
                kept(l.take(idx + 1), sv0, t) + l.skip(idx + 1),
            ),
    {
        lemma_kept_step(l, sv0, t, idx);
        if good {
            let cur = kept(l.take(idx), sv0, t) + l.skip(idx);
            let a = kept(l.take(idx), sv0, t).len() as int;
            lemma_out_list_remove(self.nodes(ma), self.syns(ma), self.nc(), self.sc(), sl, cur, a);
        }
    }

    /// On well-formed lists every synapse on a live node's outgoing list is
    /// live.
    proof fn lemma_walk_live(&self, m0: Seq<i32>, sl: int, l: Seq<int>, idx: int)
        requires
            self.valid(m0),
            1 <= sl <= self.nc(),
            out_list(self.nodes(m0), self.syns(m0), sl, l),
            0 <= idx < l.len(),
        ensures
            self.shaped(m0) && self.ns().active(m0, sl) ==> self.synapse_store().active(m0, l[idx] + 1),
    {
        if self.shaped(m0) && self.ns().active(m0, sl) {
            assert(self.live_nodes(m0)[sl - 1]);
            lemma_out_list_live(self.nodes(m0), self.syns(m0), self.live_nodes(m0), self.live_syns(m0), sl, l);
            assert(self.live_syns(m0)[l[idx]]);
        }
    }

    /// Every synapse on list `l` that ends at node slot `t` is live on `mem`.
    pub open spec fn matching_live(&self, mem: Seq<i32>, l: Seq<int>, t: int) -> bool {
        forall|k: int| 0 <= k < l.len() && self.syns(mem)[#[trigger] l[k]][2] == t ==> self.synapse_store().active(mem, l[k] + 1)
    }

    /// The walk of `disconnect()` stays on course after one synapse of the
    /// list is unhooked.
    proof fn lemma_walk_step(&self, m1: Seq<i32>, m2: Seq<i32>, l: Seq<int>, idx: int, sc: int, nc: int)
        requires
            self.valid(m1),
            self.linked(m1),
            sc == self.sc(),
            nc == self.nc(),
            l.no_duplicates(),
            forall|k: int| 0 <= k < l.len() ==> 0 <= #[trigger] l[k] < sc,
            0 <= idx < l.len(),
            self.syns(m2) == detached_syns(self.syns(m1), l[idx]),
            forall|k: int| idx <= k < l.len() - 1 ==> self.syns(m1)[#[trigger] l[k]][3] == l[k + 1] + 1,
            self.syns(m1)[l[l.len() - 1]][3] <= 0,
            forall|k: int| idx < k < l.len() ==> self.syns(m1)[#[trigger] l[k]][4] == l[k - 1] + 1,
            self.syns(m1)[l[idx]][4] <= 0 || !l.subrange(idx, l.len() as int).contains(self.syns(m1)[l[idx]][4] - 1),
        ensures
            forall|j: int| 0 <= j < sc ==> #[trigger] self.syns(m2)[j][1] == self.syns(m1)[j][1] && self.syns(m2)[j][2] == self.syns(m1)[j][2],
            forall|k: int| idx + 1 <= k < l.len() - 1 ==> self.syns(m2)[#[trigger] l[k]][3] == l[k + 1] + 1,
            idx + 1 < l.len() ==> self.syns(m2)[l[l.len() - 1]][3] <= 0,
            forall|k: int| idx + 1 < k < l.len() ==> self.syns(m2)[#[trigger] l[k]][4] == l[k - 1] + 1,
            idx + 1 < l.len() ==> (self.syns(m2)[l[idx + 1]][4] <= 0 || !l.subrange(idx + 1, l.len() as int).contains(
                self.syns(m2)[l[idx + 1]][4] - 1,
            )),
    {
        let sv = self.syns(m1);
        let len = l.len() as int;
        let x = l[idx];
        let on = sv[x][3];
        let op = sv[x][4];
        let inn = sv[x][5];
        let ip = sv[x][6];
        assert(syn_links_ok(sv[x], sv, nc, sc));
        let s1 = if op > 0 { set_cell(sv, op - 1, 3, norm_slot(on)) } else { sv };
        let s2 = if on > 0 { set_cell(s1, on - 1, 4, norm_slot(op)) } else { s1 };
        let s3 = if ip > 0 { set_cell(s2, ip - 1, 5, norm_slot(inn)) } else { s2 };
        let s4 = detached_syns(sv, x);
        assert forall|a: int, b: int| 0 <= a < sc && 0 <= b < SYNAPSE_STRIDE implies #[trigger] s4[a][b] == (
            if op > 0 && a == op - 1 && b == 3 {
                norm_slot(on)
            } else if on > 0 && a == on - 1 && b == 4 {
                norm_slot(op)
            } else if ip > 0 && a == ip - 1 && b == 5 {
                norm_slot(inn)
            } else if inn > 0 && a == inn - 1 && b == 6 {
                norm_slot(ip)
            } else {
                sv[a][b]
            }) by {
            assert(syn_links_ok(sv[a], sv, nc, sc));
            if op > 0 {
                assert(syn_links_ok(sv[op - 1], sv, nc, sc));
            }
            if on > 0 {
                assert(syn_links_ok(sv[on - 1], sv, nc, sc));
            }
            if ip > 0 {
                assert(syn_links_ok(sv[ip - 1], sv, nc, sc));
            }
            if inn > 0 {
                assert(syn_links_ok(sv[inn - 1], sv, nc, sc));
            }
        }
        assert forall|j: int| 0 <= j < sc implies #[trigger] s4[j][1] == sv[j][1] && s4[j][2] == sv[j][2] by {
            assert(s4[j][1] == sv[j][1]);
            assert(s4[j][2] == sv[j][2]);
        }
        assert forall|k: int| idx <= k < len implies l.subrange(idx, len).contains(#[trigger] l[k]) by {
            assert(l.subrange(idx, len)[k - idx] == l[k]);
        }
        assert forall|k: int| idx + 1 <= k < len - 1 implies s4[#[trigger] l[k]][3] == l[k + 1] + 1 by {
            assert(l.subrange(idx, len).contains(l[k]));
            assert(s4[l[k]][3] == sv[l[k]][3]);
        }
        if idx + 1 < len {
            assert(l.subrange(idx, len).contains(l[len - 1]));
            assert(s4[l[len - 1]][3] == sv[l[len - 1]][3]);
            assert(on == l[idx + 1] + 1);
            assert forall|k: int| idx + 1 < k < len implies s4[#[trigger] l[k]][4] == l[k - 1] + 1 by {
                assert(l[k] != l[idx + 1]);
                assert(s4[l[k]][4] == sv[l[k]][4]);
            }
            assert(s4[l[idx + 1]][4] == norm_slot(op));
            if op > 0 {
                assert(!l.subrange(idx, len).contains(op - 1));
                let sub = l.subrange(idx + 1, len);
                assert(!sub.contains(op - 1)) by {
                    if sub.contains(op - 1) {
                        let k = choose|k: int| 0 <= k < sub.len() && #[trigger] sub[k] == op - 1;
                        assert(l.subrange(idx, len)[k + 1] == op - 1);
                    }
                }
            }
        }
    }
}

} // verus!
