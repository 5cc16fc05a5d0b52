//! The visited index of the search: one record per discovered node, in
//! order of discovery, with the node's best known predecessor and cost.
use std::collections::HashMap;
use std::hash::Hash;
use vstd::prelude::*;
use vstd::std_specs::hash::obeys_key_model;

verus! {

/// What the search knows of one discovered node. `parent` is the handle of
/// the predecessor on the cheapest route found so far; the start node has
/// none.
#[derive(Clone, Copy, Debug)]
pub struct VisitedRecord<N> {
    pub node: N,
    pub parent: Option<usize>,
    pub g_cost: u64,
}

pub open spec fn record<N>(node: N, parent: Option<usize>, g_cost: u64) -> VisitedRecord<N> {
    VisitedRecord { node, parent, g_cost }
}

/// No node has two records.
pub open spec fn nodes_distinct<N>(s: Seq<VisitedRecord<N>>) -> bool {
    forall|i: int, j: int|
        0 <= i < s.len() && 0 <= j < s.len() && #[trigger] s[i].node == #[trigger] s[j].node
            ==> i == j
}

/// `hs` lists handles from a record without parent to `h`, each record
/// naming the one before it as its parent.
pub open spec fn is_parent_chain<N>(s: Seq<VisitedRecord<N>>, hs: Seq<usize>, h: usize) -> bool {
    &&& hs.len() >= 1
    &&& hs.last() == h
    &&& forall|k: int| 0 <= k < hs.len() ==> #[trigger] hs[k] < s.len()
    &&& s[hs[0] as int].parent is None
    &&& forall|k: int|
        0 < k < hs.len() ==> s[#[trigger] hs[k] as int].parent == Some(hs[k - 1])
}

/// The nodes behind a list of handles.
pub open spec fn nodes_of<N>(s: Seq<VisitedRecord<N>>, hs: Seq<usize>) -> Seq<N> {
    Seq::new(hs.len(), |k: int| s[hs[k] as int].node)
}

/// Records in discovery order, with a hash index from node to handle.
#[verifier::reject_recursive_types(N)]
pub struct VisitedIndex<N> {
    records: Vec<VisitedRecord<N>>,
    handles: HashMap<N, usize>,
    /// Orders records of equal cost along parent links, so that walking
    /// parents always ends.
    depth: Ghost<Seq<nat>>,
}

impl<N> View for VisitedIndex<N> {
    type V = Seq<VisitedRecord<N>>;

    closed spec fn view(&self) -> Seq<VisitedRecord<N>> {
        self.records@
    }
}

impl<N: Copy + Eq + Hash> VisitedIndex<N> {
    /// The hash index and the records agree, and every parent link leads to
    /// a strictly cheaper record or to an equally cheap one of lower depth.
    pub closed spec fn wf(&self) -> bool {
        let s = self.records@;
        let d = self.depth@;
        &&& obeys_key_model::<N>()
        &&& d.len() == s.len()
        &&& forall|i: int|
            0 <= i < s.len() ==> #[trigger] self.handles@.contains_key(s[i].node)
                && self.handles@[s[i].node] == i
        &&& forall|n: N|
            #[trigger] self.handles@.contains_key(n) ==> self.handles@[n] < s.len()
                && s[self.handles@[n] as int].node == n
        &&& forall|i: int|
            0 <= i < s.len() && (#[trigger] s[i].parent) is Some ==> {
                let p = s[i].parent->0 as int;
                &&& p < s.len()
                &&& s[p].g_cost < s[i].g_cost || (s[p].g_cost == s[i].g_cost && d[p] < d[i])
            }
    }

    pub proof fn lemma_nodes_distinct(&self)
        requires
            self.wf(),
        ensures
            nodes_distinct(self@),
    {
        let s = self.records@;
        assert forall|i: int, j: int|
            0 <= i < s.len() && 0 <= j < s.len() && #[trigger] s[i].node == #[trigger] s[j].node
                implies i == j by {
            assert(self.handles@.contains_key(s[i].node));
            assert(self.handles@.contains_key(s[j].node));
        }
    }

    pub fn new() -> (r: Self)
        requires
            obeys_key_model::<N>(),
        ensures
            r.wf(),
            r@ == Seq::<VisitedRecord<N>>::empty(),
    {
        VisitedIndex { records: Vec::new(), handles: HashMap::new(), depth: Ghost(Seq::empty()) }
    }

    pub fn len(&self) -> (r: usize)
        ensures
            r == self@.len(),
    {
        self.records.len()
    }

    /// The handle of `node`, if it has been seen.
    pub fn handle_of(&self, node: &N) -> (r: Option<usize>)
        requires
            self.wf(),
        ensures
            match r {
                Some(h) => h < self@.len() && self@[h as int].node == *node,
                None => forall|j: int| 0 <= j < self@.len() ==> #[trigger] self@[j].node != *node,
            },
    {
        match self.handles.get(node) {
            Some(h) => Some(*h),
            None => {
                assert forall|j: int| 0 <= j < self@.len() implies #[trigger] self@[j].node
                    != *node by {
                    assert(self.handles@.contains_key(self.records@[j].node));
                }
                None
            },
        }
    }

    pub fn record_at(&self, h: usize) -> (r: VisitedRecord<N>)
        requires
            h < self@.len(),
        ensures
            r == self@[h as int],
    {
        self.records[h]
    }

    fn push_record(&mut self, rec: VisitedRecord<N>)
        requires
            old(self).wf(),
            forall|j: int| 0 <= j < old(self)@.len() ==> #[trigger] old(self)@[j].node != rec.node,
            rec.parent matches Some(p) ==> p < old(self)@.len() && old(self)@[p as int].g_cost
                <= rec.g_cost,
        ensures
            final(self).wf(),
            final(self)@ == old(self)@.push(rec),
    {
        let h = self.records.len();
        let ghost d = self.depth@;
        let ghost dn: nat = match rec.parent {
            Some(p) => d[p as int] + 1,
            None => 0,
        };
        proof {
            assert(!self.handles@.contains_key(rec.node));
        }
        self.records.push(rec);
        self.handles.insert(rec.node, h);
        self.depth = Ghost(d.push(dn));
        let ghost s = self.records@;
        assert forall|i: int|
            0 <= i < s.len() && (#[trigger] s[i].parent) is Some implies {
            let p = s[i].parent->0 as int;
            &&& p < s.len()
            &&& s[p].g_cost < s[i].g_cost || (s[p].g_cost == s[i].g_cost && self.depth@[p]
                < self.depth@[i])
        } by {
            if i < h {
                assert(old(self).records@[i] == s[i]);
            }
        }
        assert forall|i: int| 0 <= i < s.len() implies #[trigger] self.handles@.contains_key(
            s[i].node,
        ) && self.handles@[s[i].node] == i by {
            if i < h {
                assert(old(self).records@[i] == s[i]);
                assert(old(self).handles@.contains_key(s[i].node));
            }
        }
    }

    /// Returns the handle of `node`, registering it with `parent` and
    /// `g_cost` under the next handle if it has not been seen.
    pub fn get_or_register(&mut self, node: N, parent: Option<usize>, g_cost: u64) -> (r: usize)
        requires
            old(self).wf(),
            parent matches Some(p) ==> p < old(self)@.len() && old(self)@[p as int].g_cost
                <= g_cost,
        ensures
            final(self).wf(),
            r < final(self)@.len(),
            final(self)@[r as int].node == node,
            (exists|j: int| 0 <= j < old(self)@.len() && #[trigger] old(self)@[j].node == node)
                ==> final(self)@ == old(self)@,
            (forall|j: int| 0 <= j < old(self)@.len() ==> #[trigger] old(self)@[j].node != node)
                ==> r == old(self)@.len() && final(self)@ == old(self)@.push(
                record(node, parent, g_cost),
            ),
    {
        match self.handle_of(&node) {
            Some(h) => h,
            None => {
                let h = self.records.len();
                self.push_record(VisitedRecord { node, parent, g_cost });
                h
            },
        }
    }

    /// Offers a route to `node` through `parent` at `g_cost`. A node not
    /// seen before is registered; a known node whose cost is strictly
    /// higher gets the new parent and cost; otherwise nothing changes. The
    /// result says whether the record was written, and gives the handle.
    pub fn try_improve(&mut self, node: N, parent: usize, g_cost: u64) -> (r: (bool, usize))
        requires
            old(self).wf(),
            parent < old(self)@.len(),
            old(self)@[parent as int].g_cost <= g_cost,
        ensures
            final(self).wf(),
            r.1 < final(self)@.len(),
            final(self)@[r.1 as int].node == node,
            (forall|j: int| 0 <= j < old(self)@.len() ==> #[trigger] old(self)@[j].node != node)
                ==> r.0 && r.1 == old(self)@.len() && final(self)@ == old(self)@.push(
                record(node, Some(parent), g_cost),
            ),
            forall|j: int|
                0 <= j < old(self)@.len() && #[trigger] old(self)@[j].node == node ==> {
                    &&& r.1 == j
                    &&& r.0 == (g_cost < old(self)@[j].g_cost)
                    &&& r.0 ==> final(self)@ == old(self)@.update(
                        j,
                        record(node, Some(parent), g_cost),
                    )
                    &&& !r.0 ==> final(self)@ == old(self)@
                },
    {
        proof {
            self.lemma_nodes_distinct();
        }
        match self.handle_of(&node) {
            None => {
                let h = self.records.len();
                self.push_record(VisitedRecord { node, parent: Some(parent), g_cost });
                (true, h)
            },
            Some(h) => {
                if g_cost < self.records[h].g_cost {
                    let ghost s0 = self.records@;
                    let ghost d0 = self.depth@;
                    let rec = VisitedRecord { node, parent: Some(parent), g_cost };
                    self.records.set(h, rec);
                    self.depth = Ghost(d0.update(h as int, d0[parent as int] + 1));
                    let ghost s = self.records@;
                    assert forall|i: int|
                        0 <= i < s.len() && (#[trigger] s[i].parent) is Some implies {
                        let p = s[i].parent->0 as int;
                        &&& p < s.len()
                        &&& s[p].g_cost < s[i].g_cost || (s[p].g_cost == s[i].g_cost
                            && self.depth@[p] < self.depth@[i])
                    } by {
                        if i != h {
                            assert(s0[i] == s[i]);
                            let p = s[i].parent->0 as int;
                            assert(p < s.len());
                        }
                    }
                    assert forall|i: int| 0 <= i < s.len() implies #[trigger] self.handles@.contains_key(
                        s[i].node,
                    ) && self.handles@[s[i].node] == i by {
                        assert(old(self).handles@.contains_key(s0[i].node));
                    }
                    (true, h)
                } else {
                    (false, h)
                }
            },
        }
    }
    /// The nodes from the start of `h`'s parent chain to `h`: parents are
    /// walked from `h` back to a record without parent, and the walk is
    /// then reversed.
    pub fn path_to(&self, h: usize) -> (r: Vec<N>)
        requires
            self.wf(),
            h < self@.len(),
        ensures
            exists|hs: Seq<usize>| is_parent_chain(self@, hs, h) && r@ == nodes_of(self@, hs),
    {
        let ghost s = self.records@;
        let mut back: Vec<N> = Vec::new();
        let ghost mut hb: Seq<usize> = Seq::empty();
        let mut cur = h;
        loop
            invariant_except_break
                hb.len() > 0 ==> hb[0] == h && s[hb.last() as int].parent == Some(cur),
            invariant
                self.wf(),
                s == self.records@,
                cur < s.len(),
                back@.len() == hb.len(),
                forall|k: int| 0 <= k < hb.len() ==> #[trigger] hb[k] < s.len(),
                forall|k: int| 0 <= k < hb.len() ==> back@[k] == s[#[trigger] hb[k] as int].node,
                hb.len() == 0 ==> cur == h,
                forall|k: int| 0 < k < hb.len() ==> s[#[trigger] hb[k - 1] as int].parent == Some(hb[k]),
            ensures
                hb.len() >= 1,
                hb[0] == h,
                forall|k: int| 0 <= k < hb.len() ==> #[trigger] hb[k] < s.len(),
                forall|k: int| 0 <= k < hb.len() ==> back@[k] == s[#[trigger] hb[k] as int].node,
                back@.len() == hb.len(),
                s[hb.last() as int].parent is None,
                forall|k: int| 0 < k < hb.len() ==> s[#[trigger] hb[k - 1] as int].parent == Some(hb[k]),
            decreases s[cur as int].g_cost, self.depth@[cur as int],
        {
            let rec = self.records[cur];
            back.push(rec.node);
            proof {
                hb = hb.push(cur);
            }
            match rec.parent {
                None => break,
                Some(p) => {
                    cur = p;
                },
            }
        }
        let n = back.len();
        let mut r: Vec<N> = Vec::new();
        let mut i = n;
        while i > 0
            invariant
                i <= n,
                n == back@.len(),
                r@.len() == n - i,
                forall|k: int| 0 <= k < n - i ==> r@[k] == back@[n - 1 - k],
            decreases i,
        {
            i = i - 1;
            r.push(back[i]);
        }
        let ghost hs = hb.reverse();
        assert(is_parent_chain(s, hs, h)) by {
            assert forall|k: int| 0 < k < hs.len() implies s[#[trigger] hs[k] as int].parent == Some(
                hs[k - 1],
            ) by {
                assert(hs[k] == hb[n - 1 - k]);
                assert(hs[k - 1] == hb[n - k]);
                assert(s[hb[n - k - 1] as int].parent == Some(hb[n - k]));
            }
            assert forall|k: int| 0 <= k < hs.len() implies #[trigger] hs[k] < s.len() by {
                assert(hs[k] == hb[n - 1 - k]);
            }
        }
        assert(r@ =~= nodes_of(s, hs)) by {
            assert forall|k: int| 0 <= k < n implies r@[k] == nodes_of(s, hs)[k] by {
                assert(hs[k] == hb[n - 1 - k]);
            }
        }
        r
    }
}

} // verus!
