use vstd::prelude::*;
use crate::program::{Chain, Program, names_of};
use crate::plan::{
    step_advance, ChainEdit, EditPlan, DiffStep, identity_steps, lemma_identity_aligned, script_for, is_alignment,
    step_ok, cursor,
};
use crate::engine::{
    edit_fits,
    Effect, all_creates, all_sends, creates_of, deletion_drops, drops, edit_drops, edit_sends,
    new_slot, new_slots, nodes_upto, removal_drops, all_edges, path_edges, handles_below,
    chains_disjoint, lemma_plan_fits, lemma_nodes_upto_mono, lemma_nodes_upto_nonneg, OUTPUT,
};

verus! {

/// `slots` holds one handle list per chain of `p`, as long as the chain.
pub open spec fn slots_match(slots: Seq<Seq<u64>>, p: Program) -> bool {
    &&& slots.len() == p.chains@.len()
    &&& forall|k: int| 0 <= k < slots.len() ==> (#[trigger] slots[k]).len() == p.chains@[k].nodes@.len()
}

proof fn lemma_same_name_same_slot(p: Program, a: int, b: int)
    requires
        p.wf(),
        0 <= a < p.chains@.len(),
        0 <= b < p.chains@.len(),
        p.chains@[a].name@ == p.chains@[b].name@,
    ensures
        a == b,
{
    if a < b {
        assert(p.chains@[a].name@ != p.chains@[b].name@);
    } else if b < a {
        assert(p.chains@[b].name@ != p.chains@[a].name@);
    }
}

/// Identity preservation: when an edit leaves a chain's node names as they
/// were, whatever happened to its parameter clauses, every slot of the chain
/// keeps the node instance it had.
pub proof fn lemma_unchanged_names_keep_nodes(
    slots: Seq<Seq<u64>>,
    old: Program,
    new: Program,
    plan: EditPlan,
    next: int,
    k: int,
    s: int,
)
    requires
        old.wf(),
        new.wf(),
        slots_match(slots, old),
        plan.reconciles(old, new),
        0 <= k < new.chains@.len(),
        0 <= s < old.chains@.len(),
        old.chains@[s].name@ == new.chains@[k].name@,
        names_of(old.chains@[s].nodes@) == names_of(new.chains@[k].nodes@),
        new.chains@[k].nodes@.len() <= usize::MAX,
    ensures
        new_slots(slots, plan.edits@, new.chains@, next)[k] == slots[s],
{
    let e = plan.edits@[k];
    assert(e.reconciles(k, old, new));
    assert(old.has_chain(new.chains@[k].name@));
    let s2 = e.old_slot.unwrap() as int;
    lemma_same_name_same_slot(old, s, s2);
    let names = names_of(new.chains@[k].nodes@);
    lemma_identity_aligned(names);
    assert(script_for(names_of(old.chains@[s].nodes@), names) == identity_steps(names.len()));
    assert(names_of(old.chains@[s].nodes@).len() == old.chains@[s].nodes@.len());
    let r = new_slots(slots, plan.edits@, new.chains@, next)[k];
    assert forall|j: int| 0 <= j < r.len() implies r[j] == slots[s][j] by {
        let ju = j as usize;
        assert(identity_steps(names.len()).contains(DiffStep::Common(Some(ju), Some(ju))));
        assert(e.origin@[j] == Some(ju));
    }
    assert(r =~= slots[s]);
}

/// Structural idempotence: reconciling a program with itself deletes,
/// removes, creates and updates nothing, and leaves every handle in place.
pub proof fn lemma_resubmit_is_noop(slots: Seq<Seq<u64>>, p: Program, plan: EditPlan, next: int)
    requires
        p.wf(),
        slots_match(slots, p),
        plan.reconciles(p, p),
        forall|k: int| 0 <= k < p.chains@.len() ==> (#[trigger] p.chains@[k]).nodes@.len() <= usize::MAX,
    ensures
        plan.deleted@.len() == 0,
        deletion_drops(slots, plan.deleted@) == Seq::<Effect>::empty(),
        removal_drops(slots, plan.edits@) == Seq::<Effect>::empty(),
        all_creates(plan.edits@, p.chains@, next) == Seq::<Effect>::empty(),
        all_sends(slots, plan.edits@, p.chains@) == Seq::<Effect>::empty(),
        new_slots(slots, plan.edits@, p.chains@, next) == slots,
{
    if plan.deleted@.len() > 0 {
        let s = plan.deleted@[0];
        assert(plan.deleted@.contains(s));
        assert(p.has_chain(p.chains@[s as int].name@));
    }
    assert(plan.deleted@ =~= Seq::<usize>::empty());
    assert forall|k: int| 0 <= k < plan.edits@.len() implies #[trigger] keeps_all(
        plan.edits@[k],
        p.chains@[k],
    ) && plan.edits@[k].old_slot is Some && plan.edits@[k].old_slot.unwrap() as int == k by {
        let e = plan.edits@[k];
        let c = p.chains@[k];
        assert(e.reconciles(k, p, p));
        assert(p.has_chain(c.name@));
        let s = e.old_slot.unwrap() as int;
        lemma_same_name_same_slot(p, s, k);
        let names = names_of(c.nodes@);
        lemma_identity_aligned(names);
        assert forall|j: int| 0 <= j < e.origin@.len() implies #[trigger] e.origin@[j] == Some(
            j as usize,
        ) by {
            let ju = j as usize;
            assert(identity_steps(names.len()).contains(DiffStep::Common(Some(ju), Some(ju))));
        }
        assert(e.origin@.len() == c.nodes@.len());
        if e.removed@.len() > 0 {
            assert(e.removed@.contains(e.removed@[0]));
            assert(identity_steps(names.len()).contains(DiffStep::Removed(Some(e.removed@[0]))));
        }
        if e.updates@.len() > 0 {
            let (i, j) = e.updates@[0];
            assert(e.updates@.contains((i, j)));
            assert(e.origin@[j as int] == Some(j));
        }
        assert(keeps_all(e, c));
    }
    lemma_noop_effects(slots, p, plan.edits@, next);
    let r = new_slots(slots, plan.edits@, p.chains@, next);
    assert forall|k: int| 0 <= k < r.len() implies r[k] == slots[k] by {
        let e = plan.edits@[k];
        assert(keeps_all(e, p.chains@[k]));
        assert(e.old_slot.unwrap() as int == k);
        assert(r[k].len() == slots[k].len());
        assert forall|j: int| 0 <= j < r[k].len() implies r[k][j] == slots[k][j] by {
            assert(p.chains@[k].nodes@.len() <= usize::MAX);
            assert(e.origin@[j] == Some(j as usize));
            assert(r[k][j] == new_slot(slots, e, next + nodes_upto(p.chains@, k), j));
        }
        assert(r[k] =~= slots[k]);
    }
    assert(r =~= slots);
}

/// The edit keeps every node of the chain in place and changes nothing.
pub open spec fn keeps_all(e: ChainEdit, c: Chain) -> bool {
    &&& e.origin@.len() == c.nodes@.len()
    &&& forall|j: int| 0 <= j < e.origin@.len() ==> #[trigger] e.origin@[j] == Some(j as usize)
    &&& e.removed@.len() == 0
    &&& e.updates@.len() == 0
}

proof fn lemma_noop_effects(slots: Seq<Seq<u64>>, p: Program, edits: Seq<ChainEdit>, next: int)
    requires
        edits.len() <= p.chains@.len(),
        forall|k: int| 0 <= k < edits.len() ==> #[trigger] keeps_all(edits[k], p.chains@[k]),
    ensures
        removal_drops(slots, edits) == Seq::<Effect>::empty(),
        all_creates(edits, p.chains@, next) == Seq::<Effect>::empty(),
        all_sends(slots, edits, p.chains@) == Seq::<Effect>::empty(),
    decreases edits.len(),
{
    if edits.len() > 0 {
        let k = edits.len() - 1;
        let rest = edits.drop_last();
        assert forall|q: int| 0 <= q < rest.len() implies #[trigger] keeps_all(rest[q], p.chains@[q]) by {
            assert(rest[q] == edits[q]);
        }
        lemma_noop_effects(slots, p, rest, next);
        assert(keeps_all(edits[k], p.chains@[k]));
        assert(edit_drops(slots, edits.last()) =~= Seq::<Effect>::empty());
        assert(edit_sends(slots, edits.last(), p.chains@[k]) =~= Seq::<Effect>::empty());
        lemma_no_creates(edits[k], p.chains@[k], 0, edits[k].origin@.len() as int);
    }
}

proof fn lemma_no_creates(e: ChainEdit, c: Chain, base: int, j: int)
    requires
        j <= e.origin@.len(),
        forall|x: int| 0 <= x < e.origin@.len() ==> #[trigger] e.origin@[x] is Some,
    ensures
        forall|b: int| creates_of(e, c, b, j) == Seq::<Effect>::empty(),
    decreases j,
{
    if j > 0 {
        lemma_no_creates(e, c, base, j - 1);
        assert(e.origin@[j - 1] is Some);
        assert forall|b: int| creates_of(e, c, b, j) == Seq::<Effect>::empty() by {
            assert(creates_of(e, c, b, j) =~= creates_of(e, c, b, j - 1));
        }
    }
}

/// Deletion: a chain that the new program no longer names is deleted, and
/// each of its node instances is dropped.
pub proof fn lemma_deleted_chain_dropped(
    slots: Seq<Seq<u64>>,
    old: Program,
    new: Program,
    plan: EditPlan,
    s: usize,
)
    requires
        old.wf(),
        new.wf(),
        slots_match(slots, old),
        plan.reconciles(old, new),
        0 <= s < old.chains@.len(),
        !new.has_chain(old.chains@[s as int].name@),
    ensures
        plan.deleted@.contains(s),
        forall|j: int|
            0 <= j < slots[s as int].len() ==> deletion_drops(slots, plan.deleted@).contains(
                Effect::Drop(#[trigger] slots[s as int][j]),
            ),
{
    assert(plan.deleted@.contains(s));
    let q = choose|q: int| 0 <= q < plan.deleted@.len() && plan.deleted@[q] == s;
    assert forall|j: int| 0 <= j < slots[s as int].len() implies deletion_drops(slots, plan.deleted@).contains(
        Effect::Drop(#[trigger] slots[s as int][j]),
    ) by {
        lemma_deletion_drops_contains(slots, plan.deleted@, q, j);
    }
}

proof fn lemma_deletion_drops_contains(slots: Seq<Seq<u64>>, deleted: Seq<usize>, q: int, j: int)
    requires
        0 <= q < deleted.len(),
        0 <= j < slots[deleted[q] as int].len(),
    ensures
        deletion_drops(slots, deleted).contains(Effect::Drop(slots[deleted[q] as int][j])),
    decreases deleted.len(),
{
    let x = Effect::Drop(slots[deleted[q] as int][j]);
    let rest = deletion_drops(slots, deleted.drop_last());
    let d = drops(slots[deleted.last() as int]);
    assert(deletion_drops(slots, deleted) == rest + d);
    if q == deleted.len() - 1 {
        assert((rest + d)[rest.len() + j] == x);
    } else {
        lemma_deletion_drops_contains(slots, deleted.drop_last(), q, j);
        let i = choose|i: int| 0 <= i < rest.len() && rest[i] == x;
        assert((rest + d)[i] == x);
    }
}

/// The handle `h` stands somewhere in `index`.
pub open spec fn in_index(index: Seq<Seq<u64>>, h: u64) -> bool {
    exists|k: int, j: int| 0 <= k < index.len() && 0 <= j < index[k].len() && #[trigger] index[k][j] == h
}

/// Every edge leaves a handle of the index and enters a handle of the index
/// or the aggregation node.
pub proof fn lemma_edges_use_index(index: Seq<Seq<u64>>, q: int)
    requires
        0 <= q < all_edges(index).len(),
    ensures
        in_index(index, all_edges(index)[q].0),
        all_edges(index)[q].1 == OUTPUT || in_index(index, all_edges(index)[q].1),
    decreases index.len(),
{
    let rest = index.drop_last();
    let pre = all_edges(rest);
    let last = index.last();
    assert(all_edges(index) == pre + path_edges(last));
    let e = all_edges(index)[q];
    if q < pre.len() {
        lemma_edges_use_index(rest, q);
        assert(e == pre[q]);
        let (k, j) = choose|k: int, j: int|
            0 <= k < rest.len() && 0 <= j < rest[k].len() && #[trigger] rest[k][j] == e.0;
        assert(index[k][j] == e.0);
        if e.1 != OUTPUT {
            let (k2, j2) = choose|k2: int, j2: int|
                0 <= k2 < rest.len() && 0 <= j2 < rest[k2].len() && #[trigger] rest[k2][j2] == e.1;
            assert(index[k2][j2] == e.1);
        }
    } else {
        let i = q - pre.len();
        let k = index.len() - 1;
        assert(e == path_edges(last)[i]);
        assert(index[k][i] == e.0);
        if i + 1 < last.len() {
            assert(index[k][i + 1] == e.1);
        }
    }
}

/// Deletion leaves no edge behind: once a plan has deleted a chain, no edge
/// of the rebuilt graph touches any of its node instances.
pub proof fn lemma_deleted_chain_leaves_no_edges(
    slots: Seq<Seq<u64>>,
    old: Program,
    new: Program,
    plan: EditPlan,
    next: int,
    s: usize,
)
    requires
        old.wf(),
        new.wf(),
        slots_match(slots, old),
        handles_below(slots, next),
        chains_disjoint(slots),
        plan.reconciles(old, new),
        s < old.chains@.len(),
        !new.has_chain(old.chains@[s as int].name@),
        next + nodes_upto(new.chains@, new.chains@.len() as int) <= u64::MAX,
    ensures
        forall|q: int, j: int|
            #![trigger all_edges(new_slots(slots, plan.edits@, new.chains@, next))[q], slots[s as int][j]]
            0 <= q < all_edges(new_slots(slots, plan.edits@, new.chains@, next)).len() && 0 <= j
                < slots[s as int].len() ==> all_edges(new_slots(slots, plan.edits@, new.chains@, next))[q].0
                != slots[s as int][j] && all_edges(new_slots(slots, plan.edits@, new.chains@, next))[q].1
                != slots[s as int][j],
{
    let r = new_slots(slots, plan.edits@, new.chains@, next);
    lemma_plan_fits(slots, old, new, plan);
    assert forall|j: int| 0 <= j < slots[s as int].len() implies !in_index(r, #[trigger] slots[s as int][j]) by {
        let h = slots[s as int][j];
        if in_index(r, h) {
            let (k, x) = choose|k: int, x: int| 0 <= k < r.len() && 0 <= x < r[k].len() && #[trigger] r[k][x] == h;
            let e = plan.edits@[k];
            assert(edit_fits(slots, e, new.chains@[k]));
            assert(e.reconciles(k, old, new));
            lemma_nodes_upto_nonneg(new.chains@, k);
            if e.origin@[x] is Some {
                if e.old_slot is None {
                    assert(e.origin@[x] is None);
                }
                let s2 = e.old_slot.unwrap() as int;
                assert(new.chains@[k].name@ == old.chains@[s2].name@);
                assert(new.has_chain(old.chains@[s2].name@));
                assert(s2 != s);
                assert(slots[s2][e.origin@[x].unwrap() as int] != slots[s as int][j]);
            } else {
                lemma_nodes_upto_mono(new.chains@, k + 1, new.chains@.len() as int);
                assert(h < next);
                assert(r[k][x] == new_slot(slots, e, next + nodes_upto(new.chains@, k), x));
            }
        }
    }
    assert forall|q: int, j: int|
        #![trigger all_edges(r)[q], slots[s as int][j]]
        0 <= q < all_edges(r).len() && 0 <= j < slots[s as int].len() implies all_edges(r)[q].0
            != slots[s as int][j] && all_edges(r)[q].1 != slots[s as int][j] by {
        lemma_edges_use_index(r, q);
        assert(!in_index(r, slots[s as int][j]));
    }
}

/// Connectivity: a chain's path has one edge per node; an empty chain has
/// none, a single node feeds the aggregation node, and longer chains link
/// each node to the next and the last to the aggregation node.
pub proof fn lemma_chain_path_shape(hs: Seq<u64>)
    ensures
        path_edges(hs).len() == hs.len(),
        hs.len() == 0 ==> path_edges(hs) == Seq::<(u64, u64)>::empty(),
        hs.len() == 1 ==> path_edges(hs) == seq![(hs[0], OUTPUT)],
        forall|i: int| 0 <= i < hs.len() - 1 ==> #[trigger] path_edges(hs)[i] == (hs[i], hs[i + 1]),
        hs.len() > 0 ==> path_edges(hs)[hs.len() - 1] == (hs[hs.len() - 1], OUTPUT),
{
    if hs.len() == 0 {
        assert(path_edges(hs) =~= Seq::<(u64, u64)>::empty());
    }
    if hs.len() == 1 {
        assert(path_edges(hs) =~= seq![(hs[0], OUTPUT)]);
    }
}

/// A kept slot keeps a node of its own name: when the plan keeps old node
/// `i` as new node `j` of a chain, the two carry the same node name.
pub proof fn lemma_kept_slot_same_name(old: Program, new: Program, plan: EditPlan, k: int, j: usize)
    requires
        old.wf(),
        new.wf(),
        plan.reconciles(old, new),
        EditPlan::all_aligned(old, new),
        0 <= k < new.chains@.len(),
        j < plan.edits@[k].origin@.len(),
        plan.edits@[k].origin@[j as int] is Some,
    ensures
        plan.edits@[k].old_slot is Some,
        old.chains@[plan.edits@[k].old_slot.unwrap() as int].nodes@[plan.edits@[k].origin@[j as int].unwrap() as int]@
            == new.chains@[k].nodes@[j as int]@,
{
    let e = plan.edits@[k];
    assert(e.reconciles(k, old, new));
    if !old.has_chain(new.chains@[k].name@) {
        assert(e.origin@[j as int] is None);
    }
    let s = e.old_slot.unwrap() as int;
    let i = e.origin@[j as int].unwrap();
    let on = names_of(old.chains@[s].nodes@);
    let nn = names_of(new.chains@[k].nodes@);
    let script = script_for(on, nn);
    assert(is_alignment(script, on, nn));
    let ju = j;
    assert(e.follows(script, old.chains@[s], new.chains@[k]));
    assert(script.contains(DiffStep::Common(Some(i), Some(ju))));
    let p = choose|p: int| 0 <= p < script.len() && script[p] == DiffStep::Common(Some(i), Some(ju));
    assert(step_ok(script[p], cursor(script, p).0, cursor(script, p).1, on, nn));
    assert(on[i as int] == nn[j as int]);
}


proof fn lemma_cursor_old_mono(script: Seq<DiffStep>, a: int, b: int)
    requires
        0 <= a <= b <= script.len(),
    ensures
        cursor(script, a).0 <= cursor(script, b).0,
    decreases b - a,
{
    if a < b {
        lemma_cursor_old_mono(script, a, b - 1);
    }
}

/// An alignment never both keeps and removes the same old element.
#[verifier::rlimit(60)]
proof fn lemma_kept_not_removed(script: Seq<DiffStep>, on: Seq<Seq<char>>, nn: Seq<Seq<char>>, i: usize, j: usize)
    requires
        is_alignment(script, on, nn),
        script.contains(DiffStep::Common(Some(i), Some(j))),
    ensures
        !script.contains(DiffStep::Removed(Some(i))),
{
    if script.contains(DiffStep::Removed(Some(i))) {
        let p1 = choose|p: int| 0 <= p < script.len() && script[p] == DiffStep::Common(Some(i), Some(j));
        let p2 = choose|p: int| 0 <= p < script.len() && script[p] == DiffStep::Removed(Some(i));
        let c1 = cursor(script, p1);
        let c2 = cursor(script, p2);
        assert(step_ok(script[p1], c1.0, c1.1, on, nn));
        assert(step_ok(script[p2], c2.0, c2.1, on, nn));
        assert(c1.0 == i as int);
        assert(c2.0 == i as int);
        if p1 < p2 {
            assert(step_advance(script[p1]).0 == 1);
            assert(cursor(script, p1 + 1).0 == c1.0 + 1);
            lemma_cursor_old_mono(script, p1 + 1, p2);
        } else {
            assert(step_advance(script[p2]).0 == 1);
            assert(cursor(script, p2 + 1).0 == c2.0 + 1);
            lemma_cursor_old_mono(script, p2 + 1, p1);
        }
    }
}

/// No parameter clause goes to a node that the same plan removes: the old
/// position of every update is not among the chain's removed positions.
pub proof fn lemma_no_update_to_removed(old: Program, new: Program, plan: EditPlan, k: int, q: int)
    requires
        old.wf(),
        new.wf(),
        plan.reconciles(old, new),
        EditPlan::all_aligned(old, new),
        0 <= k < new.chains@.len(),
        0 <= q < plan.edits@[k].updates@.len(),
    ensures
        !plan.edits@[k].removed@.contains(plan.edits@[k].updates@[q].0),
{
    let e = plan.edits@[k];
    assert(e.reconciles(k, old, new));
    let (i, j) = e.updates@[q];
    assert(e.updates@.contains((i, j)));
    if old.has_chain(new.chains@[k].name@) {
        let s = e.old_slot.unwrap() as int;
        let on = names_of(old.chains@[s].nodes@);
        let nn = names_of(new.chains@[k].nodes@);
        let script = script_for(on, nn);
        assert(is_alignment(script, on, nn));
        assert(e.follows(script, old.chains@[s], new.chains@[k]));
        assert(script.contains(DiffStep::Common(Some(i), Some(j))));
        lemma_kept_not_removed(script, on, nn, i, j);
    }
}

} // verus!
