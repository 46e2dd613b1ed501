use vstd::prelude::*;
use crate::program::{Chain, Program, names_of, same_texts};

verus! {

/// One step of an alignment of an old name list with a new one: an element
/// kept (old and new position), removed (old position) or added (new position).
#[derive(PartialEq, Eq, Structural, Clone, Copy, Debug)]
pub enum DiffStep {
    Common(Option<usize>, Option<usize>),
    Removed(Option<usize>),
    Added(Option<usize>),
}

/// The edit script that lcs_diff computes for two name lists.
pub uninterp spec fn lcs_script(old: Seq<Seq<char>>, new: Seq<Seq<char>>) -> Seq<DiffStep>;

/// Relies on lcs_diff::diff: a longest-common-subsequence edit script of two
/// lists, which depends on the two lists alone.
#[verifier::external_body]
fn lcs_align(old: &Vec<String>, new: &Vec<String>) -> (r: Vec<DiffStep>)
    ensures
        r@ == lcs_script(names_of(old@), names_of(new@)),
{
    lcs_diff::diff(old, new).into_iter().map(|d| match d {
        lcs_diff::DiffResult::Common(e) => DiffStep::Common(e.old_index, e.new_index),
        lcs_diff::DiffResult::Removed(e) => DiffStep::Removed(e.old_index),
        lcs_diff::DiffResult::Added(e) => DiffStep::Added(e.new_index),
    }).collect()
}

/// How far a step moves the (old, new) cursor.
pub open spec fn step_advance(s: DiffStep) -> (int, int) {
    match s {
        DiffStep::Common(_, _) => (1, 1),
        DiffStep::Removed(_) => (1, 0),
        DiffStep::Added(_) => (0, 1),
    }
}

/// The old position a step names.
pub open spec fn old_pos(s: DiffStep) -> Option<usize> {
    match s {
        DiffStep::Common(a, _) => a,
        DiffStep::Removed(a) => a,
        DiffStep::Added(_) => None,
    }
}

/// The new position a step names.
pub open spec fn new_pos(s: DiffStep) -> Option<usize> {
    match s {
        DiffStep::Common(_, b) => b,
        DiffStep::Removed(_) => None,
        DiffStep::Added(b) => b,
    }
}

/// The (old, new) positions reached before step `k`.
pub open spec fn cursor(script: Seq<DiffStep>, k: int) -> (int, int)
    decreases k,
{
    if k <= 0 {
        (0, 0)
    } else {
        let c = cursor(script, k - 1);
        let d = step_advance(script[k - 1]);
        (c.0 + d.0, c.1 + d.1)
    }
}

/// A step taken at cursor (o, n) names exactly that cursor, stays in range, and
/// keeps only equal names.
pub open spec fn step_ok(s: DiffStep, o: int, n: int, old: Seq<Seq<char>>, new: Seq<Seq<char>>) -> bool {
    match s {
        DiffStep::Common(Some(i), Some(j)) => i == o && j == n && o < old.len() && n < new.len()
            && old[o] == new[n],
        DiffStep::Removed(Some(i)) => i == o && o < old.len(),
        DiffStep::Added(Some(j)) => j == n && n < new.len(),
        _ => false,
    }
}

/// The script walks both lists once, in order, pairing equal names only.
pub open spec fn is_alignment(script: Seq<DiffStep>, old: Seq<Seq<char>>, new: Seq<Seq<char>>) -> bool {
    &&& forall|k: int|
        0 <= k < script.len() ==> step_ok(
            #[trigger] script[k],
            cursor(script, k).0,
            cursor(script, k).1,
            old,
            new,
        )
    &&& cursor(script, script.len() as int) == (old.len() as int, new.len() as int)
}

/// The edit of one chain that the new program holds.
pub struct ChainEdit {
    /// Position of the chain in the new program.
    pub slot: usize,
    /// Position of the chain in the committed program, if it was there.
    pub old_slot: Option<usize>,
    /// For each new node, the old node whose instance it keeps, if any.
    pub origin: Vec<Option<usize>>,
    /// Old positions whose nodes are removed.
    pub removed: Vec<usize>,
    /// (old, new) positions of kept nodes whose parameter clause changed.
    pub updates: Vec<(usize, usize)>,
}

/// Everything one program change does to the graph.
pub struct EditPlan {
    /// One edit per chain of the new program, in its order.
    pub edits: Vec<ChainEdit>,
    /// Positions in the committed program of the chains that are gone.
    pub deleted: Vec<usize>,
}

/// The steps that reconcile two versions of a chain: every node kept in place
/// when the names did not change, else the edit script of lcs_diff.
pub open spec fn script_for(old: Seq<Seq<char>>, new: Seq<Seq<char>>) -> Seq<DiffStep> {
    if old == new {
        identity_steps(new.len())
    } else {
        lcs_script(old, new)
    }
}

/// Keeps each of `n` elements at its position.
pub open spec fn identity_steps(n: nat) -> Seq<DiffStep> {
    Seq::new(n, |k: int| DiffStep::Common(Some(k as usize), Some(k as usize)))
}

impl ChainEdit {
    /// This edit is the one that `script` describes between `old` and `new`.
    pub open spec fn follows(&self, script: Seq<DiffStep>, old: Chain, new: Chain) -> bool {
        &&& self.origin@.len() == new.nodes@.len()
        &&& forall|j: usize, i: usize|
            j < self.origin@.len() ==> (self.origin@[j as int] == Some(i) <==> #[trigger] script.contains(
                DiffStep::Common(Some(i), Some(j)),
            ))
        &&& forall|j: int| #![auto]
            0 <= j < self.origin@.len() && self.origin@[j].is_some() ==> self.origin@[j].unwrap()
                < old.nodes@.len()
        &&& forall|i: usize|
            #[trigger] self.removed@.contains(i) <==> script.contains(DiffStep::Removed(Some(i)))
        &&& forall|k: int| #![auto] 0 <= k < self.removed@.len() ==> self.removed@[k] < old.nodes@.len()
        &&& self.updates_from_origin(old, new)
        &&& self.ordered()
    }

    /// Kept old positions, removed positions and updated new positions each
    /// strictly increase: nothing is listed twice and order is kept.
    pub open spec fn ordered(&self) -> bool {
        &&& forall|a: int, b: int|
            #![trigger self.origin@[a], self.origin@[b]]
            0 <= a < b < self.origin@.len() && self.origin@[a] is Some && self.origin@[b] is Some
                ==> self.origin@[a].unwrap() < self.origin@[b].unwrap()
        &&& forall|a: int, b: int|
            0 <= a < b < self.removed@.len() ==> #[trigger] self.removed@[a] < #[trigger] self.removed@[b]
        &&& forall|a: int, b: int|
            0 <= a < b < self.updates@.len() ==> (#[trigger] self.updates@[a]).1 < (
            #[trigger] self.updates@[b]).1
    }

    /// The kept nodes whose parameter clause changed, as (old, new) positions.
    pub open spec fn updates_from_origin(&self, old: Chain, new: Chain) -> bool {
        forall|i: usize, j: usize|
            #[trigger] self.updates@.contains((i, j)) <==> (j < self.origin@.len() && self.origin@[j as int]
                == Some(i) && old.params@[i as int]@ != new.params@[j as int]@)
    }

    /// A chain that did not exist before: every node is new.
    pub open spec fn creates(&self, new: Chain) -> bool {
        &&& self.old_slot is None
        &&& self.origin@.len() == new.nodes@.len()
        &&& forall|j: int| 0 <= j < self.origin@.len() ==> #[trigger] self.origin@[j] is None
        &&& self.removed@.len() == 0
        &&& self.updates@.len() == 0
    }

    /// The edit of chain `k` of `new` against the committed `old`.
    pub open spec fn reconciles(&self, k: int, old: Program, new: Program) -> bool {
        let c = new.chains@[k];
        &&& self.slot == k
        &&& if old.has_chain(c.name@) {
            &&& self.old_slot is Some
            &&& self.old_slot.unwrap() < old.chains@.len()
            &&& old.chains@[self.old_slot.unwrap() as int].name@ == c.name@
            &&& self.follows(
                script_for(
                    names_of(old.chains@[self.old_slot.unwrap() as int].nodes@),
                    names_of(c.nodes@),
                ),
                old.chains@[self.old_slot.unwrap() as int],
                c,
            )
        } else {
            self.creates(c)
        }
    }
}

impl EditPlan {
    /// The plan that reconciles the committed `old` with `new`.
    pub open spec fn reconciles(&self, old: Program, new: Program) -> bool {
        &&& self.edits@.len() == new.chains@.len()
        &&& forall|k: int| 0 <= k < self.edits@.len() ==> #[trigger] self.edits@[k].reconciles(k, old, new)
        &&& forall|s: usize|
            #[trigger] self.deleted@.contains(s) <==> (s < old.chains@.len() && !new.has_chain(
                old.chains@[s as int].name@,
            ))
        &&& forall|q: int| #![auto] 0 <= q < self.deleted@.len() ==> self.deleted@[q] < old.chains@.len()
        &&& forall|a: int, b: int|
            0 <= a < b < self.deleted@.len() ==> #[trigger] self.deleted@[a] < #[trigger] self.deleted@[b]
    }

    /// Every chain of `old` whose names match its new version is script-valid.
    pub open spec fn all_aligned(old: Program, new: Program) -> bool {
        forall|k: int, s: int|
            0 <= k < new.chains@.len() && 0 <= s < old.chains@.len() && #[trigger] old.chains@[s].name@
                == #[trigger] new.chains@[k].name@ ==> is_alignment(
                script_for(names_of(old.chains@[s].nodes@), names_of(new.chains@[k].nodes@)),
                names_of(old.chains@[s].nodes@),
                names_of(new.chains@[k].nodes@),
            )
    }
}

/// Decides whether `script` is an alignment of the node names of `old` with
/// those of `new`.
pub fn check_alignment(script: &Vec<DiffStep>, old: &Vec<String>, new: &Vec<String>) -> (r: bool)
    ensures
        r == is_alignment(script@, names_of(old@), names_of(new@)),
{
    let ghost on = names_of(old@);
    let ghost nn = names_of(new@);
    let mut o: usize = 0;
    let mut n: usize = 0;
    let mut k: usize = 0;
    while k < script.len()
        invariant
            on == names_of(old@),
            nn == names_of(new@),
            k <= script@.len(),
            (o as int, n as int) == cursor(script@, k as int),
            o <= old@.len(),
            n <= new@.len(),
            forall|p: int|
                0 <= p < k ==> step_ok(
                    #[trigger] script@[p],
                    cursor(script@, p).0,
                    cursor(script@, p).1,
                    on,
                    nn,
                ),
        decreases script@.len() - k,
    {
        let ok = match &script[k] {
            DiffStep::Common(Some(i), Some(j)) => {
                if *i == o && *j == n && o < old.len() && n < new.len() {
                    proof {
                        assert(on[o as int] == old@[o as int]@);
                        assert(nn[n as int] == new@[n as int]@);
                    }
                    old[o] == new[n]
                } else {
                    false
                }
            },
            DiffStep::Removed(Some(i)) => *i == o && o < old.len(),
            DiffStep::Added(Some(j)) => *j == n && n < new.len(),
            _ => false,
        };
        proof {
            if o < old@.len() && n < new@.len() {
                assert(on[o as int] == old@[o as int]@);
                assert(nn[n as int] == new@[n as int]@);
            }
            assert(ok == step_ok(script@[k as int], o as int, n as int, on, nn));
        }
        if !ok {
            return false;
        }
        match &script[k] {
            DiffStep::Common(_, _) => {
                o = o + 1;
                n = n + 1;
            },
            DiffStep::Removed(_) => {
                o = o + 1;
            },
            DiffStep::Added(_) => {
                n = n + 1;
            },
        }
        k = k + 1;
    }
    o == old.len() && n == new.len()
}

/// For each new node, the old node that the alignment keeps for it.
#[verifier::rlimit(40)]
pub fn origins(script: &Vec<DiffStep>, old: &Vec<String>, new: &Vec<String>) -> (r: Vec<Option<usize>>)
    requires
        is_alignment(script@, names_of(old@), names_of(new@)),
    ensures
        r@.len() == new@.len(),
        forall|j: usize, i: usize|
            j < r@.len() ==> (r@[j as int] == Some(i) <==> #[trigger] script@.contains(
                DiffStep::Common(Some(i), Some(j)),
            )),
        forall|j: int| #![auto] 0 <= j < r@.len() && r@[j].is_some() ==> r@[j].unwrap() < old@.len(),
        forall|a: int, b: int|
            #![trigger r@[a], r@[b]]
            0 <= a < b < r@.len() && r@[a] is Some && r@[b] is Some ==> r@[a].unwrap() < r@[b].unwrap(),
{
    let ghost on = names_of(old@);
    let ghost nn = names_of(new@);
    let old_len = old.len();
    let new_len = new.len();
    let mut origin: Vec<Option<usize>> = Vec::new();
    let mut o: usize = 0;
    let mut n: usize = 0;
    let mut k: usize = 0;
    while k < script.len()
        invariant
            on == names_of(old@),
            nn == names_of(new@),
            is_alignment(script@, on, nn),
            on.len() == old@.len(),
            nn.len() == new@.len(),
            old_len == old@.len(),
            new_len == new@.len(),
            k <= script@.len(),
            (o as int, n as int) == cursor(script@, k as int),
            origin@.len() == n,
            forall|p: int| #![auto]
                0 <= p < k && new_pos(script@[p]).is_some() ==> new_pos(script@[p]).unwrap() < n,
            forall|j: usize, i: usize|
                j < n ==> (origin@[j as int] == Some(i) <==> #[trigger] script@.take(
                    k as int,
                ).contains(DiffStep::Common(Some(i), Some(j)))),
            forall|j: int| #![auto] 0 <= j < n && origin@[j].is_some() ==> origin@[j].unwrap() < o,
            forall|a: int, b: int|
                #![trigger origin@[a], origin@[b]]
                0 <= a < b < origin@.len() && origin@[a] is Some && origin@[b] is Some
                    ==> origin@[a].unwrap() < origin@[b].unwrap(),
            o <= on.len(),
        decreases script@.len() - k,
    {
        let ghost prev = script@.take(k as int);
        let ghost n0 = n;
        let ghost origin0 = origin@;
        assert(script@.take(k + 1) =~= prev.push(script@[k as int]));
        assert(step_ok(script@[k as int], o as int, n as int, on, nn));
        match &script[k] {
            DiffStep::Common(_, _) => {
                origin.push(Some(o));
                o = o + 1;
                n = n + 1;
            },
            DiffStep::Removed(_) => {
                o = o + 1;
            },
            DiffStep::Added(_) => {
                origin.push(None);
                n = n + 1;
            },
        }
        proof {
            let next = script@.take(k + 1);
            assert forall|j: usize, i: usize|
                j < n implies (origin@[j as int] == Some(i) <==> #[trigger] next.contains(
                    DiffStep::Common(Some(i), Some(j)),
                )) by {
                let x = DiffStep::Common(Some(i), Some(j));
                if prev.contains(x) {
                    let p = choose|p: int| 0 <= p < prev.len() && prev[p] == x;
                    assert(next[p] == x);
                    assert(new_pos(script@[p]) == Some(j));
                }
                if next.contains(x) {
                    let p = choose|p: int| 0 <= p < next.len() && next[p] == x;
                    if p < k {
                        assert(prev[p] == x);
                    } else {
                        assert(next[k as int] == x);
                    }
                }
                if j < n0 {
                    assert(origin@[j as int] == origin0[j as int]);
                }
            }
        }
        k = k + 1;
    }
    proof {
        assert(script@.take(k as int) =~= script@);
    }
    origin
}

/// Old positions that the script removes.
pub fn removals(script: &Vec<DiffStep>, old: &Vec<String>, new: &Vec<String>) -> (r: Vec<usize>)
    requires
        is_alignment(script@, names_of(old@), names_of(new@)),
    ensures
        forall|k: int| #![auto] 0 <= k < r@.len() ==> r@[k] < old@.len(),
        forall|a: int, b: int| 0 <= a < b < r@.len() ==> #[trigger] r@[a] < #[trigger] r@[b],
        forall|i: usize| #[trigger] r@.contains(i) <==> script@.contains(DiffStep::Removed(Some(i))),
{
    let mut removed: Vec<usize> = Vec::new();
    let mut k: usize = 0;
    while k < script.len()
        invariant
            k <= script@.len(),
            is_alignment(script@, names_of(old@), names_of(new@)),
            forall|i: usize|
                #[trigger] removed@.contains(i) <==> script@.take(k as int).contains(
                    DiffStep::Removed(Some(i)),
                ),
            forall|q: int| #![auto] 0 <= q < removed@.len() ==> removed@[q] < old@.len(),
            forall|q: int| #![auto] 0 <= q < removed@.len() ==> removed@[q] < cursor(script@, k as int).0,
            forall|a: int, b: int| 0 <= a < b < removed@.len() ==> #[trigger] removed@[a] < #[trigger] removed@[b],
        decreases script@.len() - k,
    {
        let ghost prev = script@.take(k as int);
        let ghost removed0 = removed@;
        assert(script@.take(k + 1) =~= prev.push(script@[k as int]));
        if let DiffStep::Removed(Some(i)) = &script[k] {
            proof {
                assert(step_ok(
                    script@[k as int],
                    cursor(script@, k as int).0,
                    cursor(script@, k as int).1,
                    names_of(old@),
                    names_of(new@),
                ));
            }
            removed.push(*i);
        }
        proof {
            assert(cursor(script@, k + 1) == (
                cursor(script@, k as int).0 + step_advance(script@[k as int]).0,
                cursor(script@, k as int).1 + step_advance(script@[k as int]).1,
            ));
            let next = script@.take(k + 1);
            assert forall|i: usize| #[trigger] removed@.contains(i) <==> next.contains(
                DiffStep::Removed(Some(i)),
            ) by {
                let x = DiffStep::Removed(Some(i));
                if next.contains(x) {
                    let p = choose|p: int| 0 <= p < next.len() && next[p] == x;
                    if p < k {
                        assert(prev[p] == x);
                    } else {
                        assert(removed@[removed@.len() - 1] == i);
                    }
                }
                if prev.contains(x) {
                    let p = choose|p: int| 0 <= p < prev.len() && prev[p] == x;
                    assert(next[p] == x);
                }
                if removed0.contains(i) {
                    let q = choose|q: int| 0 <= q < removed0.len() && removed0[q] == i;
                    assert(removed@[q] == i);
                }
                if removed@.contains(i) && !removed0.contains(i) {
                    let q = choose|q: int| 0 <= q < removed@.len() && removed@[q] == i;
                    if q < removed0.len() {
                        assert(removed0[q] == i);
                    }
                    assert(next[k as int] == x);
                }
            }
        }
        k = k + 1;
    }
    proof {
        assert(script@.take(k as int) =~= script@);
    }
    removed
}

/// Kept nodes whose parameter clause changed, as (old, new) positions.
pub fn param_updates(origin: &Vec<Option<usize>>, old: &Chain, new: &Chain) -> (r: Vec<(usize, usize)>)
    requires
        old.wf(),
        new.wf(),
        origin@.len() == new.nodes@.len(),
        forall|j: int| #![auto]
            0 <= j < origin@.len() && origin@[j].is_some() ==> origin@[j].unwrap() < old.nodes@.len(),
    ensures
        forall|i: usize, j: usize|
            #[trigger] r@.contains((i, j)) <==> (j < origin@.len() && origin@[j as int] == Some(i)
                && old.params@[i as int]@ != new.params@[j as int]@),
        forall|a: int, b: int| 0 <= a < b < r@.len() ==> (#[trigger] r@[a]).1 < (#[trigger] r@[b]).1,
{
    let mut updates: Vec<(usize, usize)> = Vec::new();
    let mut j: usize = 0;
    while j < origin.len()
        invariant
            old.wf(),
            new.wf(),
            origin@.len() == new.nodes@.len(),
            j <= origin@.len(),
            forall|q: int| #![auto]
                0 <= q < origin@.len() && origin@[q].is_some() ==> origin@[q].unwrap() < old.nodes@.len(),
            forall|a: usize, b: usize|
                #[trigger] updates@.contains((a, b)) <==> (b < j && origin@[b as int] == Some(a)
                    && old.params@[a as int]@ != new.params@[b as int]@),
            forall|q: int| #![auto] 0 <= q < updates@.len() ==> updates@[q].1 < j,
            forall|a: int, b: int| 0 <= a < b < updates@.len() ==> (#[trigger] updates@[a]).1 < (
            #[trigger] updates@[b]).1,
        decreases origin@.len() - j,
    {
        let ghost before = updates@;
        if let Some(i) = origin[j] {
            if old.params[i] != new.params[j] {
                updates.push((i, j));
            }
        }
        proof {
            assert forall|a: usize, b: usize|
                #[trigger] updates@.contains((a, b)) <==> (b < j + 1 && origin@[b as int] == Some(a)
                    && old.params@[a as int]@ != new.params@[b as int]@) by {
                if before.contains((a, b)) {
                    let q = choose|q: int| 0 <= q < before.len() && before[q] == (a, b);
                    assert(updates@[q] == (a, b));
                }
                if updates@.contains((a, b)) && !before.contains((a, b)) {
                    let q = choose|q: int| 0 <= q < updates@.len() && updates@[q] == (a, b);
                    if q < before.len() {
                        assert(before[q] == (a, b));
                    }
                }
                if b == j && origin@[b as int] == Some(a) && old.params@[a as int]@
                    != new.params@[b as int]@ {
                    assert(updates@[updates@.len() - 1] == (a, b));
                }
            }
        }
        j = j + 1;
    }
    updates
}

/// The identity steps align a list with itself, keeping every element in place.
pub proof fn lemma_identity_aligned(names: Seq<Seq<char>>)
    requires
        names.len() <= usize::MAX,
    ensures
        is_alignment(identity_steps(names.len()), names, names),
        forall|i: usize, j: usize|
            #[trigger] identity_steps(names.len()).contains(DiffStep::Common(Some(i), Some(j)))
                <==> (i == j && j < names.len()),
        forall|i: usize| !(#[trigger] identity_steps(names.len()).contains(DiffStep::Removed(Some(i)))),
{
    let s = identity_steps(names.len());
    assert forall|k: int| 0 <= k <= s.len() implies #[trigger] cursor(s, k) == (k, k) by {
        lemma_identity_cursor(names.len(), k);
    }
    assert(cursor(s, s.len() as int) == (s.len() as int, s.len() as int));
    assert forall|k: int| 0 <= k < s.len() implies step_ok(
        #[trigger] s[k],
        cursor(s, k).0,
        cursor(s, k).1,
        names,
        names,
    ) by {
        assert(cursor(s, k) == (k, k));
    }
    assert forall|i: usize, j: usize|
        #[trigger] s.contains(DiffStep::Common(Some(i), Some(j))) <==> (i == j && j < names.len()) by {
        if i == j && j < names.len() {
            assert(s[j as int] == DiffStep::Common(Some(i), Some(j)));
        }
    }
}

proof fn lemma_identity_cursor(n: nat, k: int)
    requires
        0 <= k <= n,
    ensures
        cursor(identity_steps(n), k) == (k, k),
    decreases k,
{
    if k > 0 {
        lemma_identity_cursor(n, k - 1);
    }
}

fn identity_script(n: usize) -> (r: Vec<DiffStep>)
    ensures
        r@ == identity_steps(n as nat),
{
    let mut v: Vec<DiffStep> = Vec::new();
    let mut k: usize = 0;
    while k < n
        invariant
            k <= n,
            v@ =~= identity_steps(k as nat),
        decreases n - k,
    {
        v.push(DiffStep::Common(Some(k), Some(k)));
        k = k + 1;
        assert(v@ =~= identity_steps(k as nat));
    }
    v
}

/// Builds the edit of a chain present in both programs from a script over its
/// node names; `None` when `script` is no alignment of them.
pub fn edit_from_script(
    slot: usize,
    old_slot: usize,
    old: &Chain,
    new: &Chain,
    script: &Vec<DiffStep>,
) -> (r: Option<ChainEdit>)
    requires
        old.wf(),
        new.wf(),
    ensures
        r.is_some() == is_alignment(script@, names_of(old.nodes@), names_of(new.nodes@)),
        r matches Some(e) ==> e.slot == slot && e.old_slot == Some(old_slot) && e.follows(
            script@,
            *old,
            *new,
        ),
{
    if !check_alignment(script, &old.nodes, &new.nodes) {
        return None;
    }
    let origin = origins(script, &old.nodes, &new.nodes);
    let removed = removals(script, &old.nodes, &new.nodes);
    let updates = param_updates(&origin, old, new);
    Some(ChainEdit { slot, old_slot: Some(old_slot), origin, removed, updates })
}

/// The edit of a chain present in both programs; `None` when the edit script
/// of its node names is no alignment.
pub fn plan_chain(slot: usize, old_slot: usize, old: &Chain, new: &Chain) -> (r: Option<ChainEdit>)
    requires
        old.wf(),
        new.wf(),
    ensures
        r.is_some() == is_alignment(
            script_for(names_of(old.nodes@), names_of(new.nodes@)),
            names_of(old.nodes@),
            names_of(new.nodes@),
        ),
        r matches Some(e) ==> e.slot == slot && e.old_slot == Some(old_slot) && e.follows(
            script_for(names_of(old.nodes@), names_of(new.nodes@)),
            *old,
            *new,
        ),
{
    let script = if same_texts(&old.nodes, &new.nodes) {
        identity_script(new.nodes.len())
    } else {
        lcs_align(&old.nodes, &new.nodes)
    };
    edit_from_script(slot, old_slot, old, new, &script)
}

/// The edit of a chain that the committed program does not hold.
pub fn plan_new_chain(slot: usize, new: &Chain) -> (r: ChainEdit)
    ensures
        r.slot == slot,
        r.creates(*new),
{
    let mut origin: Vec<Option<usize>> = Vec::new();
    let mut j: usize = 0;
    while j < new.nodes.len()
        invariant
            j <= new.nodes@.len(),
            origin@.len() == j,
            forall|q: int| 0 <= q < j ==> #[trigger] origin@[q] is None,
        decreases new.nodes@.len() - j,
    {
        origin.push(None);
        j = j + 1;
    }
    ChainEdit { slot, old_slot: None, origin, removed: Vec::new(), updates: Vec::new() }
}

/// Reconciles the committed program `old` with `new`: an edit per chain of
/// `new` and the chains of `old` that are gone; `None` when some edit script
/// is no alignment.
pub fn reconcile(old: &Program, new: &Program) -> (r: Option<EditPlan>)
    requires
        old.wf(),
        new.wf(),
    ensures
        r.is_some() == EditPlan::all_aligned(*old, *new),
        r matches Some(p) ==> p.reconciles(*old, *new),
{
    let mut edits: Vec<ChainEdit> = Vec::new();
    let mut k: usize = 0;
    while k < new.chains.len()
        invariant
            old.wf(),
            new.wf(),
            k <= new.chains@.len(),
            edits@.len() == k,
            forall|q: int| 0 <= q < k ==> #[trigger] edits@[q].reconciles(q, *old, *new),
            forall|q: int, s: int|
                0 <= q < k && 0 <= s < old.chains@.len() && #[trigger] old.chains@[s].name@
                    == #[trigger] new.chains@[q].name@ ==> is_alignment(
                    script_for(names_of(old.chains@[s].nodes@), names_of(new.chains@[q].nodes@)),
                    names_of(old.chains@[s].nodes@),
                    names_of(new.chains@[q].nodes@),
                ),
        decreases new.chains@.len() - k,
    {
        assert(new.chains@[k as int].wf());
        match old.find(&new.chains[k].name) {
            Some(s) => {
                assert(old.chains@[s as int].wf());
                match plan_chain(k, s, &old.chains[s], &new.chains[k]) {
                    Some(e) => {
                        edits.push(e);
                        proof {
                            assert forall|s2: int|
                                0 <= s2 < old.chains@.len() && old.chains@[s2].name@
                                    == new.chains@[k as int].name@ implies s2 == s by {
                                if s2 != s {
                                    if s2 < s {
                                        assert(old.chains@[s2].name@ != old.chains@[s as int].name@);
                                    } else {
                                        assert(old.chains@[s as int].name@ != old.chains@[s2].name@);
                                    }
                                }
                            }
                        }
                    },
                    None => {
                        return None;
                    },
                }
            },
            None => {
                let e = plan_new_chain(k, &new.chains[k]);
                edits.push(e);
            },
        }
        assert(edits@[k as int].reconciles(k as int, *old, *new));
        k = k + 1;
    }
    let mut deleted: Vec<usize> = Vec::new();
    let mut s: usize = 0;
    while s < old.chains.len()
        invariant
            s <= old.chains@.len(),
            forall|x: usize|
                #[trigger] deleted@.contains(x) <==> (x < s && !new.has_chain(
                    old.chains@[x as int].name@,
                )),
            forall|q: int| #![auto] 0 <= q < deleted@.len() ==> deleted@[q] < s,
            forall|a: int, b: int| 0 <= a < b < deleted@.len() ==> #[trigger] deleted@[a] < #[trigger] deleted@[b],
        decreases old.chains@.len() - s,
    {
        let ghost before = deleted@;
        if new.find(&old.chains[s].name).is_none() {
            deleted.push(s);
        }
        proof {
            assert forall|x: usize|
                #[trigger] deleted@.contains(x) <==> (x < s + 1 && !new.has_chain(
                    old.chains@[x as int].name@,
                )) by {
                if before.contains(x) {
                    let q = choose|q: int| 0 <= q < before.len() && before[q] == x;
                    assert(deleted@[q] == x);
                }
                if deleted@.contains(x) && !before.contains(x) {
                    let q = choose|q: int| 0 <= q < deleted@.len() && deleted@[q] == x;
                    if q < before.len() {
                        assert(before[q] == x);
                    }
                }
                if x == s && !new.has_chain(old.chains@[x as int].name@) {
                    assert(deleted@[deleted@.len() - 1] == x);
                }
            }
        }
        s = s + 1;
    }
    Some(EditPlan { edits, deleted })
}

} // verus!
