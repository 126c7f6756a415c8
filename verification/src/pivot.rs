use vstd::prelude::*;

verus! {

use crate::seqx::{contains_where, find_index, lemma_find_index, lemma_find_index_contains};

/// The fan-in a proxy tree is built with unless configured otherwise: each
/// node accepts at most two children, giving a binary aggregation tree.
pub const DEFAULT_FAN: u32 = 2;

/// Abstract value of a [`ClientPivot`].
pub struct PivotView {
    pub url: Seq<char>,
    pub refcount: u32,
    pub child: Seq<Seq<char>>,
}

/// One proxy known to the root: its address, how many children it has
/// accepted, and their addresses.
pub struct ClientPivot {
    pub url: String,
    pub refcount: u32,
    pub child: Vec<String>,
}

impl View for ClientPivot {
    type V = PivotView;

    open spec fn view(&self) -> PivotView {
        PivotView {
            url: self.url@,
            refcount: self.refcount,
            child: self.child@.map_values(|c: String| c@),
        }
    }
}

/// A node that has accepted a child but still has room: preferred by the
/// balancer, so nodes fill up before fresh ones are used.
pub open spec fn spec_is_partial(c: PivotView, fan: u32) -> bool {
    1 <= c.refcount < fan
}

/// A node with room for one more child.
pub open spec fn spec_is_free(c: PivotView, fan: u32) -> bool {
    c.refcount < fan
}

impl ClientPivot {
    pub fn new(url: String) -> (r: ClientPivot)
        ensures
            r@ == (PivotView { url: url@, refcount: 0u32, child: Seq::empty() }),
    {
        let r = ClientPivot { url, refcount: 0, child: Vec::new() };
        proof {
            assert(r@.child =~= Seq::<Seq<char>>::empty());
        }
        r
    }

    /// Record `child_url` as a child of this node.
    pub fn mapto(&mut self, child_url: String)
        requires
            old(self).refcount < u32::MAX,
        ensures
            final(self)@ == (PivotView {
                refcount: (old(self).refcount + 1) as u32,
                child: old(self)@.child.push(child_url@),
                ..old(self)@
            }),
    {
        self.refcount = self.refcount + 1;
        self.child.push(child_url);
        proof {
            assert(self@.child =~= old(self)@.child.push(child_url@));
        }
    }

    /// Whether this node has begun filling but still has room under the
    /// given fan-in.
    pub fn is_partial(&self, fan: u32) -> (r: bool)
        ensures
            r == spec_is_partial(self@, fan),
    {
        1 <= self.refcount && self.refcount < fan
    }

    /// Whether this node has room for one more child under the given
    /// fan-in.
    pub fn is_free(&self, fan: u32) -> (r: bool)
        ensures
            r == spec_is_free(self@, fan),
    {
        self.refcount < fan
    }
}

/// Index of the node a pivot request is assigned to: the first node with a
/// child and room, else the first node with room, else `cs.len()` (no
/// capacity anywhere).
pub open spec fn spec_pivot_target(cs: Seq<PivotView>, fan: u32) -> int {
    let partial = find_index(cs, |c: PivotView| spec_is_partial(c, fan));
    if partial < cs.len() {
        partial
    } else {
        find_index(cs, |c: PivotView| spec_is_free(c, fan))
    }
}

/// No node ever holds more children than the fan-in, and the recorded
/// children agree with the count.
pub open spec fn pivots_wf(cs: Seq<PivotView>, fan: u32) -> bool {
    forall|i: int|
        0 <= i < cs.len() ==> (#[trigger] cs[i]).refcount <= fan && cs[i].child.len()
            == cs[i].refcount
}

/// The balancer's table: every proxy address this root has heard of, with
/// its accepted children, under a configured fan-in.
pub struct PivotTable {
    pub fan: u32,
    pub clients: Vec<ClientPivot>,
}

impl View for PivotTable {
    type V = Seq<PivotView>;

    open spec fn view(&self) -> Seq<PivotView> {
        self.clients@.map_values(|c: ClientPivot| c@)
    }
}

impl PivotTable {
    /// A fresh table under the given fan-in, knowing only this root itself.
    pub fn new(fan: u32, own_url: String) -> (r: PivotTable)
        ensures
            r.fan == fan,
            r@ =~= seq![PivotView { url: own_url@, refcount: 0u32, child: Seq::empty() }],
            pivots_wf(r@, fan),
    {
        let mut clients: Vec<ClientPivot> = Vec::new();
        clients.push(ClientPivot::new(own_url));
        let r = PivotTable { fan, clients };
        proof {
            assert(r@ =~= seq![
                PivotView { url: own_url@, refcount: 0u32, child: Seq::<Seq<char>>::empty() },
            ]);
        }
        r
    }

    /// Assign a parent to the proxy at `from`: the first node with a child
    /// and room wins, else the first node with room; the requester is
    /// recorded as that node's child and joins the table as a fresh node
    /// either way.  With no capacity anywhere the request is refused (the
    /// requester still joins the table for later rounds to use).
    #[verifier::loop_isolation(false)]
    pub fn pivot(&mut self, from: String) -> (r: Option<String>)
        requires
            pivots_wf(old(self)@, old(self).fan),
        ensures
            final(self).fan == old(self).fan,
            r is Some <==> spec_pivot_target(old(self)@, old(self).fan) < old(self)@.len(),
            ({
                let cs = old(self)@;
                let fan = old(self).fan;
                let t = spec_pivot_target(cs, fan);
                let newc = PivotView { url: from@, refcount: 0u32, child: Seq::empty() };
                &&& (r matches Some(u) ==> u@ == cs[t].url)
                &&& (r is Some ==> final(self)@ == cs.update(
                    t,
                    PivotView {
                        refcount: (cs[t].refcount + 1) as u32,
                        child: cs[t].child.push(from@),
                        ..cs[t]
                    },
                ).push(newc))
                &&& (r is None ==> final(self)@ == cs.push(newc))
            }),
            pivots_wf(final(self)@, final(self).fan),
    {
        let ghost cs = self@;
        let fan = self.fan;
        proof {
            lemma_find_index(cs, |c: PivotView| spec_is_partial(c, fan));
            lemma_find_index(cs, |c: PivotView| spec_is_free(c, fan));
        }
        let n = self.clients.len();
        let mut target: usize = n;
        // First pass: a partially filled node.
        let mut i: usize = 0;
        while i < n
            invariant
                i <= n,
                target == n,
                self == old(self),
                forall|j: int| 0 <= j < i ==> !spec_is_partial(cs[j], fan),
            decreases n - i,
        {
            if self.clients[i].is_partial(fan) {
                target = i;
                proof {
                    assert(cs[i as int] == self.clients@[i as int]@);
                }
                break ;
            }
            i += 1;
        }
        // Second pass: any node with room.
        if target == n {
            let mut i2: usize = 0;
            while i2 < n
                invariant
                    i2 <= n,
                    target == n,
                    self == old(self),
                    forall|j: int| 0 <= j < cs.len() ==> !spec_is_partial(cs[j], fan),
                    forall|j: int| 0 <= j < i2 ==> !spec_is_free(cs[j], fan),
                decreases n - i2,
            {
                if self.clients[i2].is_free(fan) {
                    target = i2;
                    proof {
                        assert(cs[i2 as int] == self.clients@[i2 as int]@);
                    }
                    break ;
                }
                i2 += 1;
            }
        }
        let ghost t = spec_pivot_target(cs, fan);
        if target < n {
            proof {
                assert(t == target);
            }
            let ghost before = self.clients@;
            let url = self.clients[target].url.clone();
            let mut node = self.clients.remove(target);
            node.mapto(from.clone());
            self.clients.insert(target, node);
            self.clients.push(ClientPivot::new(from));
            proof {
                let f = |c: ClientPivot| c@;
                let mid = cs.update(
                    t,
                    PivotView {
                        refcount: (cs[t].refcount + 1) as u32,
                        child: cs[t].child.push(from@),
                        ..cs[t]
                    },
                );
                let tgt = mid.push(PivotView { url: from@, refcount: 0u32, child: Seq::empty() });
                assert forall|j: int| 0 <= j < self.clients@.len() implies self.clients@.map_values(
                    f,
                )[j] == tgt[j] by {
                    if j < target {
                        assert(self.clients@[j] == before[j]);
                    } else if j > target && j < before.len() {
                        assert(self.clients@[j] == before[j]);
                    }
                }
                assert(self.clients@.map_values(f) =~= tgt);
            }
            Some(url)
        } else {
            proof {
                assert(t == cs.len());
            }
            let ghost before = self.clients@;
            self.clients.push(ClientPivot::new(from));
            proof {
                let f = |c: ClientPivot| c@;
                let tgt = cs.push(PivotView { url: from@, refcount: 0u32, child: Seq::empty() });
                assert forall|j: int| 0 <= j < self.clients@.len() implies self.clients@.map_values(
                    f,
                )[j] == tgt[j] by {
                    if j < before.len() {
                        assert(self.clients@[j] == before[j]);
                    }
                }
                assert(self.clients@.map_values(f) =~= tgt);
            }
            None
        }
    }

    /// Every parent-child edge of the tree this table has built, in table
    /// order.
    #[verifier::loop_isolation(false)]
    pub fn edges(&self) -> (r: Vec<(String, String)>)
        ensures
            r@.len() == edge_count(self@),
    {
        let mut out: Vec<(String, String)> = Vec::new();
        let mut i: usize = 0;
        while i < self.clients.len()
            invariant
                i <= self.clients@.len(),
                out@.len() == edge_count(self@.take(i as int)),
            decreases self.clients@.len() - i,
        {
            let node_url = self.clients[i].url.clone();
            let m = self.clients[i].child.len();
            let mut k: usize = 0;
            while k < m
                invariant
                    k <= m,
                    m == self@[i as int].child.len(),
                    out@.len() == edge_count(self@.take(i as int)) + k,
                decreases m - k,
            {
                out.push((node_url.clone(), self.clients[i].child[k].clone()));
                k += 1;
            }
            proof {
                assert(self@.take(i + 1).drop_last() =~= self@.take(i as int));
                assert(self@.take(i + 1).last() == self@[i as int]);
            }
            i += 1;
        }
        proof {
            assert(self@.take(self@.len() as int) =~= self@);
        }
        out
    }
}

/// How many parent-child edges a table holds.
pub open spec fn edge_count(cs: Seq<PivotView>) -> int
    decreases cs.len(),
{
    if cs.len() == 0 {
        0
    } else {
        edge_count(cs.drop_last()) + cs.last().child.len()
    }
}

/// The balancing law: assigning a parent never pushes any node beyond the
/// configured fan-in, and the assigned node had room when it was chosen.
pub proof fn lemma_pivot_respects_fan(cs: Seq<PivotView>, fan: u32, from: Seq<char>)
    requires
        pivots_wf(cs, fan),
        spec_pivot_target(cs, fan) < cs.len(),
    ensures
        spec_is_free(cs[spec_pivot_target(cs, fan)], fan),
        pivots_wf(
            cs.update(
                spec_pivot_target(cs, fan),
                PivotView {
                    refcount: (cs[spec_pivot_target(cs, fan)].refcount + 1) as u32,
                    child: cs[spec_pivot_target(cs, fan)].child.push(from),
                    ..cs[spec_pivot_target(cs, fan)]
                },
            ).push(PivotView { url: from, refcount: 0u32, child: Seq::empty() }),
            fan,
        ),
{
    lemma_find_index(cs, |c: PivotView| spec_is_partial(c, fan));
    lemma_find_index(cs, |c: PivotView| spec_is_free(c, fan));
}

} // verus!
