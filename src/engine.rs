use vstd::prelude::*;
use crate::program::{Chain, Program};
use crate::plan::{ChainEdit, EditPlan, reconcile};

verus! {

/// Handle of the aggregation node, which sums the last node of every chain.
pub const OUTPUT: u64 = 0;

/// What the audio graph has to do to follow the engine's state.
#[derive(PartialEq, Eq, Clone, Debug)]
pub enum Effect {
    /// Destroy the node instance behind the handle.
    Drop(u64),
    /// Build a node instance from its name and parameter clause under the handle.
    Create { handle: u64, node: String, params: String },
    /// Deliver a parameter clause or control message to the node behind the handle.
    Send { handle: u64, params: String },
}

/// Why an update or a lookup is refused.
#[derive(PartialEq, Eq, Structural, Clone, Copy, Debug)]
pub enum EngineError {
    /// Two chains share a name, or a chain's node and parameter lists differ in length.
    Malformed,
    /// A chain reads from a chain that the program does not hold.
    UnresolvedReference,
    /// The edit script of some chain does not align its old and new node names.
    Misaligned,
    /// No handles are left for the new nodes.
    HandlesExhausted,
    /// No node stands at the named chain and position.
    NotFound,
}

/// The committed program and the node handles of every chain, in the program's
/// order, with the edges that link them.
pub struct Engine {
    pub code: String,
    pub ast: Program,
    pub index: Vec<Vec<u64>>,
    pub next_handle: u64,
    pub edges: Vec<(u64, u64)>,
}

/// The linear path of one chain: each node to the next, the last to the output.
pub open spec fn path_edges(hs: Seq<u64>) -> Seq<(u64, u64)> {
    Seq::new(
        hs.len(),
        |i: int|
            if i + 1 < hs.len() {
                (hs[i], hs[i + 1])
            } else {
                (hs[i], OUTPUT)
            },
    )
}

/// The paths of all chains, one after the other.
pub open spec fn all_edges(index: Seq<Seq<u64>>) -> Seq<(u64, u64)>
    decreases index.len(),
{
    if index.len() == 0 {
        Seq::empty()
    } else {
        all_edges(index.drop_last()) + path_edges(index.last())
    }
}

/// The handle lists of an index.
pub open spec fn index_view(index: Seq<Vec<u64>>) -> Seq<Seq<u64>> {
    index.map_values(|v: Vec<u64>| v@)
}

/// Drops of a list of handles.
pub open spec fn drops(hs: Seq<u64>) -> Seq<Effect> {
    Seq::new(hs.len(), |j: int| Effect::Drop(hs[j]))
}

/// Drops of every node of the deleted chains, chain by chain.
pub open spec fn deletion_drops(slots: Seq<Seq<u64>>, deleted: Seq<usize>) -> Seq<Effect>
    decreases deleted.len(),
{
    if deleted.len() == 0 {
        Seq::empty()
    } else {
        deletion_drops(slots, deleted.drop_last()) + drops(slots[deleted.last() as int])
    }
}

/// Drops of the nodes that one edit removes.
pub open spec fn edit_drops(slots: Seq<Seq<u64>>, e: ChainEdit) -> Seq<Effect> {
    Seq::new(
        e.removed@.len(),
        |q: int| Effect::Drop(slots[e.old_slot.unwrap() as int][e.removed@[q] as int]),
    )
}

/// Drops of the removed nodes of every edit, edit by edit.
pub open spec fn removal_drops(slots: Seq<Seq<u64>>, edits: Seq<ChainEdit>) -> Seq<Effect>
    decreases edits.len(),
{
    if edits.len() == 0 {
        Seq::empty()
    } else {
        removal_drops(slots, edits.drop_last()) + edit_drops(slots, edits.last())
    }
}

/// Number of nodes of the first `k` chains.
pub open spec fn nodes_upto(chains: Seq<Chain>, k: int) -> int
    decreases k,
{
    if k <= 0 {
        0
    } else {
        nodes_upto(chains, k - 1) + chains[k - 1].nodes@.len()
    }
}

/// The handle of new slot `j` of an edited chain whose fresh handles start at `base`.
pub open spec fn new_slot(slots: Seq<Seq<u64>>, e: ChainEdit, base: int, j: int) -> u64 {
    match e.origin@[j] {
        Some(i) => slots[e.old_slot.unwrap() as int][i as int],
        None => (base + j) as u64,
    }
}

/// The index after the edits: kept slots keep their handle, new slots take
/// fresh ones counted from `next`.
pub open spec fn new_slots(slots: Seq<Seq<u64>>, edits: Seq<ChainEdit>, chains: Seq<Chain>, next: int) -> Seq<
    Seq<u64>,
> {
    Seq::new(
        edits.len(),
        |k: int|
            Seq::new(
                edits[k].origin@.len(),
                |j: int| new_slot(slots, edits[k], next + nodes_upto(chains, k), j),
            ),
    )
}

/// Creations of the first `j` slots of chain `c` that keep no old node.
pub open spec fn creates_of(e: ChainEdit, c: Chain, base: int, j: int) -> Seq<Effect>
    decreases j,
{
    if j <= 0 {
        Seq::empty()
    } else {
        creates_of(e, c, base, j - 1) + if e.origin@[j - 1] is None {
            seq![Effect::Create { handle: (base + j - 1) as u64, node: c.nodes@[j - 1], params: c.params@[j - 1] }]
        } else {
            Seq::empty()
        }
    }
}

/// Creations of every edit, edit by edit.
pub open spec fn all_creates(edits: Seq<ChainEdit>, chains: Seq<Chain>, next: int) -> Seq<Effect>
    decreases edits.len(),
{
    if edits.len() == 0 {
        Seq::empty()
    } else {
        let k = edits.len() - 1;
        all_creates(edits.drop_last(), chains, next) + creates_of(
            edits[k],
            chains[k],
            next + nodes_upto(chains, k),
            edits[k].origin@.len() as int,
        )
    }
}

/// Parameter deliveries of one edit.
pub open spec fn edit_sends(slots: Seq<Seq<u64>>, e: ChainEdit, c: Chain) -> Seq<Effect> {
    Seq::new(
        e.updates@.len(),
        |q: int|
            Effect::Send {
                handle: slots[e.old_slot.unwrap() as int][e.updates@[q].0 as int],
                params: c.params@[e.updates@[q].1 as int],
            },
    )
}

/// Parameter deliveries of every edit, edit by edit.
pub open spec fn all_sends(slots: Seq<Seq<u64>>, edits: Seq<ChainEdit>, chains: Seq<Chain>) -> Seq<Effect>
    decreases edits.len(),
{
    if edits.len() == 0 {
        Seq::empty()
    } else {
        all_sends(slots, edits.drop_last(), chains) + edit_sends(
            slots,
            edits.last(),
            chains[edits.len() - 1],
        )
    }
}

/// The positions a plan names lie inside the index it is applied to and the
/// program it leads to.
pub open spec fn plan_fits(slots: Seq<Seq<u64>>, plan: EditPlan, new: Program) -> bool {
    &&& plan.edits@.len() == new.chains@.len()
    &&& forall|q: int| #![auto] 0 <= q < plan.deleted@.len() ==> plan.deleted@[q] < slots.len()
    &&& forall|k: int| #![auto] 0 <= k < plan.edits@.len() ==> edit_fits(slots, plan.edits@[k], new.chains@[k])
}

/// The positions one edit names lie inside the old and new chain.
pub open spec fn edit_fits(slots: Seq<Seq<u64>>, e: ChainEdit, c: Chain) -> bool {
    &&& e.origin@.len() == c.nodes@.len()
    &&& c.wf()
    &&& (e.old_slot is None ==> e.removed@.len() == 0 && e.updates@.len() == 0 && forall|j: int|
        0 <= j < e.origin@.len() ==> #[trigger] e.origin@[j] is None)
    &&& (e.old_slot is Some ==> {
        let s = e.old_slot.unwrap() as int;
        &&& s < slots.len()
        &&& forall|q: int| #![auto] 0 <= q < e.removed@.len() ==> e.removed@[q] < slots[s].len()
        &&& forall|j: int| #![auto]
            0 <= j < e.origin@.len() && e.origin@[j] is Some ==> e.origin@[j].unwrap() < slots[s].len()
        &&& forall|q: int| #![auto]
            0 <= q < e.updates@.len() ==> e.updates@[q].0 < slots[s].len() && e.updates@[q].1
                < c.nodes@.len()
    })
}

/// Counting the nodes of more chains never gives fewer.
pub proof fn lemma_nodes_upto_mono(chains: Seq<Chain>, a: int, b: int)
    requires
        0 <= a <= b,
    ensures
        nodes_upto(chains, a) <= nodes_upto(chains, b),
    decreases b - a,
{
    if a < b {
        lemma_nodes_upto_mono(chains, a, b - 1);
    }
}

/// Every handle of the index is a node handle below `next`.
pub open spec fn handles_below(slots: Seq<Seq<u64>>, next: int) -> bool {
    forall|k: int, j: int|
        0 <= k < slots.len() && 0 <= j < slots[k].len() ==> OUTPUT < #[trigger] slots[k][j] < next
}

/// No handle belongs to two chains.
pub open spec fn chains_disjoint(slots: Seq<Seq<u64>>) -> bool {
    forall|k1: int, j1: int, k2: int, j2: int|
        0 <= k1 < slots.len() && 0 <= k2 < slots.len() && k1 != k2 && 0 <= j1 < slots[k1].len() && 0
            <= j2 < slots[k2].len() ==> #[trigger] slots[k1][j1] != #[trigger] slots[k2][j2]
}

/// No handle stands in two slots of one chain.
pub open spec fn slots_distinct(slots: Seq<Seq<u64>>) -> bool {
    forall|k: int, j1: int, j2: int|
        0 <= k < slots.len() && 0 <= j1 < slots[k].len() && 0 <= j2 < slots[k].len() && j1 != j2
            ==> #[trigger] slots[k][j1] != #[trigger] slots[k][j2]
}

/// The index after a reconciling plan keeps handles below the new counter,
/// apart between chains and apart within each chain.
pub proof fn lemma_new_slots_handles(slots: Seq<Seq<u64>>, old: Program, new: Program, plan: EditPlan, next: int)
    requires
        old.wf(),
        new.wf(),
        slots.len() == old.chains@.len(),
        plan_fits(slots, plan, new),
        plan.reconciles(old, new),
        handles_below(slots, next),
        chains_disjoint(slots),
        slots_distinct(slots),
        1 <= next,
        next + nodes_upto(new.chains@, new.chains@.len() as int) <= u64::MAX,
    ensures
        handles_below(
            new_slots(slots, plan.edits@, new.chains@, next),
            next + nodes_upto(new.chains@, new.chains@.len() as int),
        ),
        chains_disjoint(new_slots(slots, plan.edits@, new.chains@, next)),
        slots_distinct(new_slots(slots, plan.edits@, new.chains@, next)),
{
    let r = new_slots(slots, plan.edits@, new.chains@, next);
    assert forall|k: int, j1: int, j2: int|
        0 <= k < r.len() && 0 <= j1 < r[k].len() && 0 <= j2 < r[k].len() && j1 != j2
            implies #[trigger] r[k][j1] != #[trigger] r[k][j2] by {
        let e = plan.edits@[k];
        assert(edit_fits(slots, e, new.chains@[k]));
        assert(e.reconciles(k, old, new));
        lemma_nodes_upto_nonneg(new.chains@, k);
        lemma_nodes_upto_mono(new.chains@, k + 1, new.chains@.len() as int);
        if e.origin@[j1] is Some || e.origin@[j2] is Some {
            if e.old_slot is None {
                assert(e.origin@[j1] is None && e.origin@[j2] is None);
            }
            let sl = e.old_slot.unwrap() as int;
            if e.origin@[j1] is Some && e.origin@[j2] is Some {
                assert(e.ordered());
                if j1 < j2 {
                    assert(e.origin@[j1].unwrap() < e.origin@[j2].unwrap());
                } else {
                    assert(e.origin@[j2].unwrap() < e.origin@[j1].unwrap());
                }
                assert(slots[sl][e.origin@[j1].unwrap() as int] != slots[sl][e.origin@[j2].unwrap() as int]);
            } else if e.origin@[j1] is Some {
                assert(slots[sl][e.origin@[j1].unwrap() as int] < next);
            } else {
                assert(slots[sl][e.origin@[j2].unwrap() as int] < next);
            }
        }
    }
    let n = new.chains@.len() as int;
    let total = nodes_upto(new.chains@, n);
    assert forall|k: int, j: int| 0 <= k < r.len() && 0 <= j < r[k].len() implies OUTPUT
        < #[trigger] r[k][j] < next + total by {
        let e = plan.edits@[k];
        assert(edit_fits(slots, e, new.chains@[k]));
        lemma_nodes_upto_mono(new.chains@, k + 1, n);
        lemma_nodes_upto_nonneg(new.chains@, k);
        if e.origin@[j] is Some {
            assert(e.reconciles(k, old, new));
            if e.old_slot is None {
                assert(e.origin@[j] is None);
            }
        }
    }
    assert forall|k1: int, j1: int, k2: int, j2: int|
        0 <= k1 < r.len() && 0 <= k2 < r.len() && k1 != k2 && 0 <= j1 < r[k1].len() && 0 <= j2
            < r[k2].len() implies #[trigger] r[k1][j1] != #[trigger] r[k2][j2] by {
        let e1 = plan.edits@[k1];
        let e2 = plan.edits@[k2];
        assert(edit_fits(slots, e1, new.chains@[k1]));
        assert(edit_fits(slots, e2, new.chains@[k2]));
        assert(e1.reconciles(k1, old, new));
        assert(e2.reconciles(k2, old, new));
        lemma_nodes_upto_nonneg(new.chains@, k1);
        lemma_nodes_upto_nonneg(new.chains@, k2);
        if e1.origin@[j1] is Some && e2.origin@[j2] is Some {
            if e1.old_slot is None {
                assert(e1.origin@[j1] is None);
            }
            if e2.old_slot is None {
                assert(e2.origin@[j2] is None);
            }
            let s1 = e1.old_slot.unwrap() as int;
            let s2 = e2.old_slot.unwrap() as int;
            if k1 < k2 {
                assert(new.chains@[k1].name@ != new.chains@[k2].name@);
            } else {
                assert(new.chains@[k2].name@ != new.chains@[k1].name@);
            }
            assert(s1 != s2);
            assert(slots[s1][e1.origin@[j1].unwrap() as int] != slots[s2][e2.origin@[j2].unwrap() as int]);
        } else if e1.origin@[j1] is Some {
            if e1.old_slot is None {
                assert(e1.origin@[j1] is None);
            }
            let s1 = e1.old_slot.unwrap() as int;
            assert(slots[s1][e1.origin@[j1].unwrap() as int] < next);
            lemma_nodes_upto_mono(new.chains@, k2 + 1, n);
        } else if e2.origin@[j2] is Some {
            if e2.old_slot is None {
                assert(e2.origin@[j2] is None);
            }
            let s2 = e2.old_slot.unwrap() as int;
            assert(slots[s2][e2.origin@[j2].unwrap() as int] < next);
            lemma_nodes_upto_mono(new.chains@, k1 + 1, n);
        } else {
            lemma_nodes_upto_mono(new.chains@, k1 + 1, n);
            lemma_nodes_upto_mono(new.chains@, k2 + 1, n);
            if k1 < k2 {
                lemma_nodes_upto_mono(new.chains@, k1 + 1, k2);
            } else {
                lemma_nodes_upto_mono(new.chains@, k2 + 1, k1);
            }
        }
    }
}

/// A plan that reconciles the committed program with `new` names only
/// positions that exist.
pub proof fn lemma_plan_fits(slots: Seq<Seq<u64>>, old: Program, new: Program, plan: EditPlan)
    requires
        old.wf(),
        new.wf(),
        slots.len() == old.chains@.len(),
        forall|k: int| 0 <= k < slots.len() ==> (#[trigger] slots[k]).len() == old.chains@[k].nodes@.len(),
        plan.reconciles(old, new),
    ensures
        plan_fits(slots, plan, new),
{
    assert forall|k: int| #![auto] 0 <= k < plan.edits@.len() implies edit_fits(
        slots,
        plan.edits@[k],
        new.chains@[k],
    ) by {
        let e = plan.edits@[k];
        assert(e.reconciles(k, old, new));
        assert(new.chains@[k].wf());
        if old.has_chain(new.chains@[k].name@) {
            let s = e.old_slot.unwrap() as int;
            assert(slots[s].len() == old.chains@[s].nodes@.len());
            assert forall|q: int| #![auto] 0 <= q < e.updates@.len() implies e.updates@[q].0
                < slots[s].len() && e.updates@[q].1 < new.chains@[k].nodes@.len() by {
                let (i, j) = e.updates@[q];
                assert(e.updates@.contains((i, j)));
            }
        }
    }
}

/// A count of nodes is never negative.
pub proof fn lemma_nodes_upto_nonneg(chains: Seq<Chain>, k: int)
    ensures
        nodes_upto(chains, k) >= 0,
    decreases k,
{
    if k > 0 {
        lemma_nodes_upto_nonneg(chains, k - 1);
    }
}

impl Engine {
    /// The handle lists, one per chain of the committed program.
    pub open spec fn slots(&self) -> Seq<Seq<u64>> {
        index_view(self.index@)
    }

    /// The index follows the committed program and the edges follow the index.
    pub open spec fn wf(&self) -> bool {
        &&& self.ast.wf()
        &&& self.index@.len() == self.ast.chains@.len()
        &&& forall|k: int|
            0 <= k < self.index@.len() ==> (#[trigger] self.index@[k])@.len()
                == self.ast.chains@[k].nodes@.len()
        &&& self.edges@ == all_edges(self.slots())
        &&& self.next_handle >= 1
        &&& handles_below(self.slots(), self.next_handle as int)
        &&& chains_disjoint(self.slots())
        &&& slots_distinct(self.slots())
    }

    /// An engine with no chains: only the aggregation node.
    pub fn new() -> (r: Engine)
        ensures
            r.wf(),
            r.ast.chains@.len() == 0,
            r.index@.len() == 0,
            r.edges@.len() == 0,
            r.next_handle == 1,
            r.code@ == Seq::<char>::empty(),
    {
        let r = Engine {
            code: String::new(),
            ast: Program::empty(),
            index: Vec::new(),
            next_handle: 1,
            edges: Vec::new(),
        };
        proof {
            assert(r.slots() =~= Seq::<Seq<u64>>::empty());
        }
        r
    }

    /// Stores the source text that the next update is parsed from.
    pub fn set_code(&mut self, code: String)
        ensures
            final(self).code == code,
            final(self).ast == old(self).ast,
            final(self).index == old(self).index,
            final(self).next_handle == old(self).next_handle,
            final(self).edges == old(self).edges,
    {
        self.code = code;
    }

    /// The handle list of the chain with the given name.
    pub fn index_info(&self, chain_name: &String) -> (r: Option<&Vec<u64>>)
        requires
            self.wf(),
        ensures
            match r {
                Some(v) => exists|k: int|
                    0 <= k < self.index@.len() && self.ast.chains@[k].name@ == chain_name@
                        && #[trigger] self.index@[k] == *v,
                None => !self.ast.has_chain(chain_name@),
            },
    {
        match self.ast.find(chain_name) {
            Some(k) => Some(&self.index[k]),
            None => None,
        }
    }

    /// Addresses a control message to the node at `pos` in the named chain.
    pub fn send_msg(&self, chain_name: &String, pos: usize, msg: String) -> (r: Result<
        Effect,
        EngineError,
    >)
        requires
            self.wf(),
        ensures
            match r {
                Ok(e) => exists|k: int|
                    0 <= k < self.index@.len() && #[trigger] self.ast.chains@[k].name@ == chain_name@
                        && pos < self.index@[k]@.len() && e == (Effect::Send {
                        handle: self.index@[k]@[pos as int],
                        params: msg,
                    }),
                Err(e) => e == EngineError::NotFound && forall|k: int|
                    0 <= k < self.index@.len() && #[trigger] self.ast.chains@[k].name@ == chain_name@
                        ==> pos >= self.index@[k]@.len(),
            },
    {
        match self.ast.find(chain_name) {
            Some(k) => {
                if pos < self.index[k].len() {
                    Ok(Effect::Send { handle: self.index[k][pos], params: msg })
                } else {
                    proof {
                        assert forall|k2: int|
                            0 <= k2 < self.index@.len() && #[trigger] self.ast.chains@[k2].name@
                                == chain_name@ implies pos >= self.index@[k2]@.len() by {
                            if k2 != k {
                                if k2 < k {
                                    assert(self.ast.chains@[k2].name@ != self.ast.chains@[k as int].name@);
                                } else {
                                    assert(self.ast.chains@[k as int].name@ != self.ast.chains@[k2].name@);
                                }
                            }
                        }
                    }
                    Err(EngineError::NotFound)
                }
            },
            None => Err(EngineError::NotFound),
        }
    }

    /// Decides whether every cross-chain reference of `new` resolves in `new`.
    pub fn handle_ref_check(&self, new: &Program) -> (r: bool)
        ensures
            r == new.refs_resolve(),
    {
        new.check_refs()
    }

    /// Rebuilds every edge from the index: a linear path per chain into the
    /// aggregation node.
    pub fn handle_connection(&mut self)
        ensures
            final(self).edges@ == all_edges(old(self).slots()),
            final(self).code == old(self).code,
            final(self).ast == old(self).ast,
            final(self).index == old(self).index,
            final(self).next_handle == old(self).next_handle,
    {
        let ghost idx = self.slots();
        let mut edges: Vec<(u64, u64)> = Vec::new();
        let mut c: usize = 0;
        while c < self.index.len()
            invariant
                idx == self.slots(),
                c <= self.index@.len(),
                edges@ == all_edges(idx.take(c as int)),
            decreases self.index@.len() - c,
        {
            let chain = &self.index[c];
            let ghost hs = chain@;
            assert(idx[c as int] == hs);
            let ghost e0 = edges@;
            let mut i: usize = 0;
            while i < chain.len()
                invariant
                    hs == chain@,
                    i <= hs.len(),
                    edges@ == e0 + path_edges(hs).take(i as int),
                decreases hs.len() - i,
            {
                if i + 1 < chain.len() {
                    edges.push((chain[i], chain[i + 1]));
                } else {
                    edges.push((chain[i], OUTPUT));
                }
                proof {
                    assert(path_edges(hs).take(i + 1) =~= path_edges(hs).take(i as int).push(
                        path_edges(hs)[i as int],
                    ));
                }
                i = i + 1;
            }
            proof {
                assert(path_edges(hs).take(i as int) =~= path_edges(hs));
                assert(idx.take(c + 1).drop_last() =~= idx.take(c as int));
            }
            c = c + 1;
        }
        proof {
            assert(idx.take(c as int) =~= idx);
        }
        self.edges = edges;
    }

    /// First step of a plan: drops every node of the chains that the plan
    /// deletes. The index itself is not edited in place: `handle_node_add`
    /// builds the next index, which holds no entry for a deleted chain.
    pub fn handle_remove_chain(&self, plan: &EditPlan, effects: &mut Vec<Effect>)
        requires
            self.wf(),
            forall|q: int| #![auto] 0 <= q < plan.deleted@.len() ==> plan.deleted@[q] < self.index@.len(),
        ensures
            final(effects)@ == old(effects)@ + deletion_drops(self.slots(), plan.deleted@),
    {
        let ghost slots = self.slots();
        let ghost e0 = effects@;
        let mut q: usize = 0;
        while q < plan.deleted.len()
            invariant
                slots == self.slots(),
                self.index@.len() == slots.len(),
                forall|x: int| #![auto] 0 <= x < plan.deleted@.len() ==> plan.deleted@[x] < slots.len(),
                q <= plan.deleted@.len(),
                effects@ == e0 + deletion_drops(slots, plan.deleted@.take(q as int)),
            decreases plan.deleted@.len() - q,
        {
            let s = plan.deleted[q];
            let chain = &self.index[s];
            let ghost hs = chain@;
            assert(slots[s as int] == hs);
            let ghost e1 = effects@;
            let mut j: usize = 0;
            while j < chain.len()
                invariant
                    hs == chain@,
                    j <= hs.len(),
                    effects@ == e1 + drops(hs).take(j as int),
                decreases hs.len() - j,
            {
                effects.push(Effect::Drop(chain[j]));
                proof {
                    assert(drops(hs).take(j + 1) =~= drops(hs).take(j as int).push(Effect::Drop(hs[j as int])));
                }
                j = j + 1;
            }
            proof {
                assert(drops(hs).take(j as int) =~= drops(hs));
                assert(plan.deleted@.take(q + 1).drop_last() =~= plan.deleted@.take(q as int));
                assert(effects@ =~= e0 + deletion_drops(slots, plan.deleted@.take(q + 1)));
            }
            q = q + 1;
        }
        proof {
            assert(plan.deleted@.take(q as int) =~= plan.deleted@);
        }
    }

    /// Second step of a plan: drops the nodes that the plan removes from
    /// chains that stay. The slots themselves leave the index when
    /// `handle_node_add` builds the next one from the kept slots alone.
    pub fn handle_node_remove(&self, new: &Program, plan: &EditPlan, effects: &mut Vec<Effect>)
        requires
            self.wf(),
            plan_fits(self.slots(), *plan, *new),
        ensures
            final(effects)@ == old(effects)@ + removal_drops(self.slots(), plan.edits@),
    {
        let ghost slots = self.slots();
        let ghost e0 = effects@;
        let mut k: usize = 0;
        while k < plan.edits.len()
            invariant
                slots == self.slots(),
                self.index@.len() == slots.len(),
                plan_fits(slots, *plan, *new),
                k <= plan.edits@.len(),
                effects@ == e0 + removal_drops(slots, plan.edits@.take(k as int)),
            decreases plan.edits@.len() - k,
        {
            let e = &plan.edits[k];
            assert(edit_fits(slots, *e, new.chains@[k as int]));
            let ghost e1 = effects@;
            let ghost ds = edit_drops(slots, *e);
            if let Some(s) = e.old_slot {
                let chain = &self.index[s];
                assert(slots[s as int] == chain@);
                let mut q: usize = 0;
                while q < e.removed.len()
                    invariant
                        slots[s as int] == chain@,
                        e.old_slot == Some(s),
                        ds == edit_drops(slots, *e),
                        forall|x: int| #![auto] 0 <= x < e.removed@.len() ==> e.removed@[x] < chain@.len(),
                        q <= e.removed@.len(),
                        effects@ == e1 + ds.take(q as int),
                    decreases e.removed@.len() - q,
                {
                    effects.push(Effect::Drop(chain[e.removed[q]]));
                    proof {
                        assert(ds.take(q + 1) =~= ds.take(q as int).push(ds[q as int]));
                    }
                    q = q + 1;
                }
                proof {
                    assert(ds.take(q as int) =~= ds);
                }
            } else {
                assert(ds =~= Seq::<Effect>::empty());
                assert(effects@ =~= e1 + ds);
            }
            proof {
                assert(plan.edits@.take(k + 1).drop_last() =~= plan.edits@.take(k as int));
                assert(effects@ =~= e0 + removal_drops(slots, plan.edits@.take(k + 1)));
            }
            k = k + 1;
        }
        proof {
            assert(plan.edits@.take(k as int) =~= plan.edits@);
        }
    }

    /// Delivers the new parameter clause to every kept node whose clause changed.
    pub fn handle_node_update(&self, new: &Program, plan: &EditPlan, effects: &mut Vec<Effect>)
        requires
            self.wf(),
            plan_fits(self.slots(), *plan, *new),
        ensures
            final(effects)@ == old(effects)@ + all_sends(self.slots(), plan.edits@, new.chains@),
    {
        let ghost slots = self.slots();
        let ghost e0 = effects@;
        let mut k: usize = 0;
        while k < plan.edits.len()
            invariant
                slots == self.slots(),
                self.index@.len() == slots.len(),
                plan_fits(slots, *plan, *new),
                k <= plan.edits@.len(),
                effects@ == e0 + all_sends(slots, plan.edits@.take(k as int), new.chains@),
            decreases plan.edits@.len() - k,
        {
            let e = &plan.edits[k];
            let c = &new.chains[k];
            assert(edit_fits(slots, *e, *c));
            let ghost e1 = effects@;
            let ghost ds = edit_sends(slots, *e, *c);
            if let Some(s) = e.old_slot {
                let chain = &self.index[s];
                assert(slots[s as int] == chain@);
                let mut q: usize = 0;
                while q < e.updates.len()
                    invariant
                        slots[s as int] == chain@,
                        e.old_slot == Some(s),
                        c.wf(),
                        ds == edit_sends(slots, *e, *c),
                        forall|x: int| #![auto]
                            0 <= x < e.updates@.len() ==> e.updates@[x].0 < chain@.len()
                                && e.updates@[x].1 < c.nodes@.len(),
                        q <= e.updates@.len(),
                        effects@ == e1 + ds.take(q as int),
                    decreases e.updates@.len() - q,
                {
                    let (i, j) = e.updates[q];
                    effects.push(Effect::Send { handle: chain[i], params: c.params[j].clone() });
                    proof {
                        assert(ds.take(q + 1) =~= ds.take(q as int).push(ds[q as int]));
                    }
                    q = q + 1;
                }
                proof {
                    assert(ds.take(q as int) =~= ds);
                }
            } else {
                assert(ds =~= Seq::<Effect>::empty());
                assert(effects@ =~= e1 + ds);
            }
            proof {
                assert(plan.edits@.take(k + 1).drop_last() =~= plan.edits@.take(k as int));
                assert(effects@ =~= e0 + all_sends(slots, plan.edits@.take(k + 1), new.chains@));
            }
            k = k + 1;
        }
        proof {
            assert(plan.edits@.take(k as int) =~= plan.edits@);
        }
    }

    /// Third step of a plan: builds the next index. It holds one handle list
    /// per chain of `new`, so deleted chains and removed slots are gone; kept
    /// slots keep their handle, the others get fresh handles from
    /// `next_handle` on, each announced by a creation.
    pub fn handle_node_add(&self, new: &Program, plan: &EditPlan, effects: &mut Vec<Effect>) -> (r: Vec<
        Vec<u64>,
    >)
        requires
            self.wf(),
            plan_fits(self.slots(), *plan, *new),
            plan.reconciles(self.ast, *new),
            EditPlan::all_aligned(self.ast, *new),
            self.next_handle + nodes_upto(new.chains@, new.chains@.len() as int) <= u64::MAX,
        ensures
            index_view(r@) == new_slots(self.slots(), plan.edits@, new.chains@, self.next_handle as int),
            final(effects)@ == old(effects)@ + all_creates(plan.edits@, new.chains@, self.next_handle as int),
    {
        let ghost slots = self.slots();
        let ghost next = self.next_handle as int;
        let ghost target = new_slots(slots, plan.edits@, new.chains@, next);
        let ghost e0 = effects@;
        let mut index: Vec<Vec<u64>> = Vec::new();
        let mut base: u64 = self.next_handle;
        let mut k: usize = 0;
        while k < plan.edits.len()
            invariant
                slots == self.slots(),
                self.index@.len() == slots.len(),
                plan_fits(slots, *plan, *new),
                next == self.next_handle as int,
                next + nodes_upto(new.chains@, new.chains@.len() as int) <= u64::MAX,
                target == new_slots(slots, plan.edits@, new.chains@, next),
                k <= plan.edits@.len(),
                base == next + nodes_upto(new.chains@, k as int),
                index@.len() == k,
                forall|x: int| 0 <= x < k ==> (#[trigger] index@[x])@ == target[x],
                effects@ == e0 + all_creates(plan.edits@.take(k as int), new.chains@, next),
            decreases plan.edits@.len() - k,
        {
            let e = &plan.edits[k];
            let c = &new.chains[k];
            assert(edit_fits(slots, *e, *c));
            proof {
                lemma_nodes_upto_mono(new.chains@, k + 1, new.chains@.len() as int);
            }
            let ghost e1 = effects@;
            let mut handles: Vec<u64> = Vec::new();
            let mut j: usize = 0;
            while j < e.origin.len()
                invariant
                    slots == self.slots(),
                    self.index@.len() == slots.len(),
                    edit_fits(slots, *e, *c),
                    j <= e.origin@.len(),
                    base + e.origin@.len() <= u64::MAX,
                    handles@ == Seq::new(j as nat, |x: int| new_slot(slots, *e, base as int, x)),
                    effects@ == e1 + creates_of(*e, *c, base as int, j as int),
                decreases e.origin@.len() - j,
            {
                match e.origin[j] {
                    Some(i) => {
                        let s = e.old_slot.unwrap();
                        assert(slots[s as int] == self.index@[s as int]@);
                        handles.push(self.index[s][i]);
                    },
                    None => {
                        handles.push(base + j as u64);
                        effects.push(
                            Effect::Create {
                                handle: base + j as u64,
                                node: c.nodes[j].clone(),
                                params: c.params[j].clone(),
                            },
                        );
                    },
                }
                proof {
                    assert(handles@ =~= Seq::new((j + 1) as nat, |x: int| new_slot(slots, *e, base as int, x)));
                    assert(effects@ =~= e1 + creates_of(*e, *c, base as int, j + 1));
                }
                j = j + 1;
            }
            proof {
                assert(handles@ =~= target[k as int]);
                assert(plan.edits@.take(k + 1).drop_last() =~= plan.edits@.take(k as int));
                assert(plan.edits@.take(k + 1)[k as int] == plan.edits@[k as int]);
                assert(effects@ =~= e0 + all_creates(plan.edits@.take(k + 1), new.chains@, next));
            }
            index.push(handles);
            base = base + e.origin.len() as u64;
            k = k + 1;
        }
        proof {
            assert(plan.edits@.take(k as int) =~= plan.edits@);
            assert(index_view(index@) =~= target);
        }
        index
    }

    /// The first handle left after giving one to every node of `new`, if
    /// enough handles remain.
    pub fn handles_fit(&self, new: &Program) -> (r: Option<u64>)
        ensures
            r is Some == (self.next_handle + nodes_upto(new.chains@, new.chains@.len() as int) <= u64::MAX),
            r matches Some(v) ==> v == self.next_handle + nodes_upto(new.chains@, new.chains@.len() as int),
    {
        let mut acc: u64 = self.next_handle;
        let mut k: usize = 0;
        while k < new.chains.len()
            invariant
                k <= new.chains@.len(),
                acc == self.next_handle + nodes_upto(new.chains@, k as int),
            decreases new.chains@.len() - k,
        {
            let len = new.chains[k].nodes.len();
            if len as u64 > u64::MAX - acc {
                proof {
                    lemma_nodes_upto_mono(new.chains@, k + 1, new.chains@.len() as int);
                }
                return None;
            }
            acc = acc + len as u64;
            k = k + 1;
        }
        Some(acc)
    }

    /// Reconciles the committed program with `new` without touching the graph.
    pub fn parse(&self, new: &Program) -> (r: Result<EditPlan, EngineError>)
        requires
            self.wf(),
            new.wf(),
        ensures
            match r {
                Ok(p) => p.reconciles(self.ast, *new) && EditPlan::all_aligned(self.ast, *new),
                Err(e) => e == EngineError::Misaligned && !EditPlan::all_aligned(self.ast, *new),
            },
    {
        match reconcile(&self.ast, new) {
            Some(p) => Ok(p),
            None => Err(EngineError::Misaligned),
        }
    }

    /// Applies a plan: deleted chains, removed nodes, created nodes, parameter
    /// deliveries, then the edges; `new` becomes the committed program.
    pub fn make_graph(&mut self, new: Program, plan: &EditPlan) -> (effects: Vec<Effect>)
        requires
            old(self).wf(),
            new.wf(),
            plan_fits(old(self).slots(), *plan, new),
            new.refs_resolve(),
            plan.reconciles(old(self).ast, new),
            EditPlan::all_aligned(old(self).ast, new),
            old(self).next_handle + nodes_upto(new.chains@, new.chains@.len() as int) <= u64::MAX,
        ensures
            final(self).wf(),
            final(self).code == old(self).code,
            final(self).ast == new,
            final(self).slots().len() == new.chains@.len(),
            forall|q: int|
                0 <= q < plan.deleted@.len() ==> !final(self).ast.has_chain(
                    old(self).ast.chains@[#[trigger] plan.deleted@[q] as int].name@,
                ),
            final(self).slots() == new_slots(
                old(self).slots(),
                plan.edits@,
                new.chains@,
                old(self).next_handle as int,
            ),
            final(self).next_handle == old(self).next_handle + nodes_upto(
                new.chains@,
                new.chains@.len() as int,
            ),
            effects@ == deletion_drops(old(self).slots(), plan.deleted@) + removal_drops(
                old(self).slots(),
                plan.edits@,
            ) + all_creates(plan.edits@, new.chains@, old(self).next_handle as int) + all_sends(
                old(self).slots(),
                plan.edits@,
                new.chains@,
            ),
    {
        // The precondition bounds the count, so `handles_fit` answers `Some`.
        let next = match self.handles_fit(&new) {
            Some(v) => v,
            None => self.next_handle,
        };
        let mut effects: Vec<Effect> = Vec::new();
        self.handle_remove_chain(plan, &mut effects);
        self.handle_node_remove(&new, plan, &mut effects);
        let index = self.handle_node_add(&new, plan, &mut effects);
        self.handle_node_update(&new, plan, &mut effects);
        let ghost newc = new.chains@;
        let ghost ns = new_slots(self.slots(), plan.edits@, newc, self.next_handle as int);
        let ghost olds = self.slots();
        let ghost olda = self.ast;
        proof {
            lemma_new_slots_handles(olds, self.ast, new, *plan, self.next_handle as int);
        }
        proof {
            lemma_nodes_upto_nonneg(new.chains@, new.chains@.len() as int);
        }
        self.next_handle = next;
        self.index = index;
        self.ast = new;
        proof {
            assert(self.slots() == ns);
            assert(self.index@.len() == self.slots().len());
            assert forall|k: int| 0 <= k < self.index@.len() implies (#[trigger] self.index@[k])@.len()
                == self.ast.chains@[k].nodes@.len() by {
                assert(self.slots()[k] == self.index@[k]@);
                assert(edit_fits(olds, plan.edits@[k], newc[k]));
            }
        }
        proof {
            assert forall|q: int|
                0 <= q < plan.deleted@.len() implies !self.ast.has_chain(
                    olda.chains@[#[trigger] plan.deleted@[q] as int].name@,
                ) by {
                assert(plan.deleted@.contains(plan.deleted@[q]));
            }
        }
        self.handle_connection();
        effects
    }

    /// Parses nothing itself: takes the parsed program, validates it, reconciles
    /// it with the committed one and applies the plan. A refused program leaves
    /// the engine as it was.
    pub fn update(&mut self, new: Program) -> (r: Result<Vec<Effect>, EngineError>)
        requires
            old(self).wf(),
        ensures
            final(self).wf(),
            r == Err::<Vec<Effect>, EngineError>(EngineError::Malformed) <==> !new.wf(),
            r == Err::<Vec<Effect>, EngineError>(EngineError::UnresolvedReference) <==> new.wf()
                && !new.refs_resolve(),
            r == Err::<Vec<Effect>, EngineError>(EngineError::Misaligned) <==> new.wf()
                && new.refs_resolve() && !EditPlan::all_aligned(old(self).ast, new),
            r == Err::<Vec<Effect>, EngineError>(EngineError::HandlesExhausted) <==> new.wf()
                && new.refs_resolve() && EditPlan::all_aligned(old(self).ast, new)
                && old(self).next_handle + nodes_upto(new.chains@, new.chains@.len() as int) > u64::MAX,
            r is Ok <==> (new.wf() && new.refs_resolve() && EditPlan::all_aligned(old(self).ast, new)
                && old(self).next_handle + nodes_upto(new.chains@, new.chains@.len() as int)
                <= u64::MAX),
            r is Err ==> *final(self) == *old(self),
            r matches Ok(effects) ==> exists|p: EditPlan|
                #![auto]
                p.reconciles(old(self).ast, new) && final(self).ast == new && final(self).code
                    == old(self).code && final(self).slots() == new_slots(
                    old(self).slots(),
                    p.edits@,
                    new.chains@,
                    old(self).next_handle as int,
                ) && final(self).next_handle == old(self).next_handle + nodes_upto(
                    new.chains@,
                    new.chains@.len() as int,
                ) && effects@ == deletion_drops(old(self).slots(), p.deleted@) + removal_drops(
                    old(self).slots(),
                    p.edits@,
                ) + all_creates(p.edits@, new.chains@, old(self).next_handle as int) + all_sends(
                    old(self).slots(),
                    p.edits@,
                    new.chains@,
                ),
    {
        if !new.is_well_formed() {
            return Err(EngineError::Malformed);
        }
        if !self.handle_ref_check(&new) {
            return Err(EngineError::UnresolvedReference);
        }
        let plan = match self.parse(&new) {
            Ok(p) => p,
            Err(e) => {
                return Err(e);
            },
        };
        if self.handles_fit(&new).is_none() {
            return Err(EngineError::HandlesExhausted);
        }
        proof {
            assert forall|k: int| 0 <= k < self.slots().len() implies (#[trigger] self.slots()[k]).len()
                == self.ast.chains@[k].nodes@.len() by {
                assert(self.slots()[k] == self.index@[k]@);
            }
            lemma_plan_fits(self.slots(), self.ast, new, plan);
        }
        let effects = self.make_graph(new, &plan);
        Ok(effects)
    }
}

} // verus!
