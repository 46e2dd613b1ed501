use vstd::prelude::*;

verus! {

/// One named chain of a parsed program: node names, one raw parameter clause
/// per node, and the names of the chains it reads from.
#[derive(Clone, Debug)]
pub struct Chain {
    pub name: String,
    pub nodes: Vec<String>,
    pub params: Vec<String>,
    pub refs: Vec<String>,
}

/// A parsed program: its chains, each name at most once.
#[derive(Clone, Debug)]
pub struct Program {
    pub chains: Vec<Chain>,
}

/// The character sequences of a list of strings.
pub open spec fn names_of(v: Seq<String>) -> Seq<Seq<char>> {
    v.map_values(|s: String| s@)
}

/// Decides whether two lists of strings hold the same texts in the same order.
pub fn same_texts(a: &Vec<String>, b: &Vec<String>) -> (r: bool)
    ensures
        r == (names_of(a@) == names_of(b@)),
{
    if a.len() != b.len() {
        proof {
            assert(names_of(a@).len() != names_of(b@).len());
        }
        return false;
    }
    let mut i: usize = 0;
    while i < a.len()
        invariant
            a.len() == b.len(),
            i <= a.len(),
            forall|k: int| 0 <= k < i ==> a@[k]@ == b@[k]@,
        decreases a.len() - i,
    {
        if a[i] != b[i] {
            proof {
                assert(names_of(a@)[i as int] != names_of(b@)[i as int]);
            }
            return false;
        }
        i = i + 1;
    }
    proof {
        assert(names_of(a@) =~= names_of(b@));
    }
    true
}

impl Chain {
    /// One parameter clause per node.
    pub open spec fn wf(&self) -> bool {
        self.nodes@.len() == self.params@.len()
    }
}

impl Program {
    pub open spec fn has_chain(&self, name: Seq<char>) -> bool {
        exists|k: int| 0 <= k < self.chains@.len() && #[trigger] self.chains@[k].name@ == name
    }

    /// Every chain is well formed and no two chains share a name.
    pub open spec fn wf(&self) -> bool {
        &&& forall|k: int| 0 <= k < self.chains@.len() ==> #[trigger] self.chains@[k].wf()
        &&& forall|a: int, b: int|
            0 <= a < b < self.chains@.len() ==> #[trigger] self.chains@[a].name@
                != #[trigger] self.chains@[b].name@
    }

    /// Every cross-chain reference names a chain of this program.
    pub open spec fn refs_resolve(&self) -> bool {
        forall|k: int, r: int|
            0 <= k < self.chains@.len() && 0 <= r < self.chains@[k].refs@.len()
                ==> self.has_chain(#[trigger] self.chains@[k].refs@[r]@)
    }

    /// An empty program.
    pub fn empty() -> (r: Program)
        ensures
            r.chains@.len() == 0,
            r.wf(),
    {
        Program { chains: Vec::new() }
    }

    /// Position of the chain with the given name.
    pub fn find(&self, name: &String) -> (r: Option<usize>)
        ensures
            match r {
                Some(k) => k < self.chains@.len() && self.chains@[k as int].name@ == name@,
                None => !self.has_chain(name@),
            },
    {
        let mut k: usize = 0;
        while k < self.chains.len()
            invariant
                k <= self.chains@.len(),
                forall|j: int| 0 <= j < k ==> self.chains@[j].name@ != name@,
            decreases self.chains@.len() - k,
        {
            if self.chains[k].name == *name {
                return Some(k);
            }
            k = k + 1;
        }
        None
    }

    /// Decides `wf`.
    pub fn is_well_formed(&self) -> (r: bool)
        ensures
            r == self.wf(),
    {
        let n = self.chains.len();
        let mut a: usize = 0;
        while a < n
            invariant
                n == self.chains@.len(),
                a <= n,
                forall|k: int| 0 <= k < a ==> #[trigger] self.chains@[k].wf(),
                forall|x: int, y: int|
                    0 <= x < y < n && x < a ==> #[trigger] self.chains@[x].name@
                        != #[trigger] self.chains@[y].name@,
            decreases n - a,
        {
            if self.chains[a].nodes.len() != self.chains[a].params.len() {
                proof {
                    assert(!self.chains@[a as int].wf());
                }
                return false;
            }
            let mut b: usize = a + 1;
            while b < n
                invariant
                    n == self.chains@.len(),
                    a < n,
                    a < b <= n,
                    forall|y: int| a < y < b ==> self.chains@[a as int].name@ != #[trigger] self.chains@[y].name@,
                decreases n - b,
            {
                if self.chains[a].name == self.chains[b].name {
                    proof {
                        assert(self.chains@[a as int].name@ == self.chains@[b as int].name@);
                    }
                    return false;
                }
                b = b + 1;
            }
            a = a + 1;
        }
        true
    }

    /// Decides `refs_resolve`.
    pub fn check_refs(&self) -> (r: bool)
        ensures
            r == self.refs_resolve(),
    {
        let mut k: usize = 0;
        while k < self.chains.len()
            invariant
                k <= self.chains@.len(),
                forall|c: int, r: int|
                    0 <= c < k && 0 <= r < self.chains@[c].refs@.len() ==> self.has_chain(
                        #[trigger] self.chains@[c].refs@[r]@,
                    ),
            decreases self.chains@.len() - k,
        {
            let mut r: usize = 0;
            while r < self.chains[k].refs.len()
                invariant
                    k < self.chains@.len(),
                    r <= self.chains@[k as int].refs@.len(),
                    forall|c: int, q: int|
                        0 <= c < k && 0 <= q < self.chains@[c].refs@.len() ==> self.has_chain(
                            #[trigger] self.chains@[c].refs@[q]@,
                        ),
                    forall|q: int|
                        0 <= q < r ==> self.has_chain(
                            #[trigger] self.chains@[k as int].refs@[q]@,
                        ),
                decreases self.chains@[k as int].refs@.len() - r,
            {
                if self.find(&self.chains[k].refs[r]).is_none() {
                    return false;
                }
                r = r + 1;
            }
            k = k + 1;
        }
        true
    }
}

} // verus!
