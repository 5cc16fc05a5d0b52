//! The open set of the search: a binary min-heap of candidate entries,
//! ordered by estimated total cost and then by cost so far.
use vstd::multiset::Multiset;
use vstd::prelude::*;

verus! {

/// A candidate queued for expansion: the node behind `handle`, reached at
/// `cost_so_far`, with `estimated_total_cost` as the lower bound on a
/// complete path through it.
#[derive(Clone, Copy, Debug, PartialEq, Eq, Structural)]
pub struct FrontierEntry {
    pub estimated_total_cost: u64,
    pub cost_so_far: u64,
    pub handle: usize,
}

/// `a` leaves the frontier no later than `b`: smaller estimated total cost
/// first, and on equal estimates the smaller cost so far.
pub open spec fn precedes(a: FrontierEntry, b: FrontierEntry) -> bool {
    a.estimated_total_cost < b.estimated_total_cost || (a.estimated_total_cost
        == b.estimated_total_cost && a.cost_so_far <= b.cost_so_far)
}

pub open spec fn parent_of(i: int) -> int {
    (i - 1) / 2
}

/// Every slot but the root comes no earlier than its parent slot.
pub open spec fn heap_ordered(s: Seq<FrontierEntry>) -> bool {
    forall|i: int| 0 < i < s.len() ==> #[trigger] precedes(s[parent_of(i)], s[i])
}

/// The root of a heap-ordered sequence precedes every slot.
proof fn lemma_root_precedes(s: Seq<FrontierEntry>, i: int)
    requires
        heap_ordered(s),
        0 <= i < s.len(),
    ensures
        precedes(s[0], s[i]),
    decreases i,
{
    if i > 0 {
        lemma_root_precedes(s, parent_of(i));
        assert(precedes(s[parent_of(i)], s[i]));
    }
}

proof fn lemma_swap_keeps_multiset<A>(s: Seq<A>, i: int, j: int)
    requires
        0 <= i < s.len(),
        0 <= j < s.len(),
    ensures
        s.update(i, s[j]).update(j, s[i]).to_multiset() == s.to_multiset(),
{
    broadcast use vstd::seq_lib::group_to_multiset_ensures;
    broadcast use vstd::multiset::group_multiset_axioms;

    let t = s.update(i, s[j]);
    assert(t.update(j, s[i]).to_multiset() == t.to_multiset().insert(s[i]).remove(t[j]));
    assert(t.to_multiset() == s.to_multiset().insert(s[j]).remove(s[i]));
    if i == j {
        assert(s.update(i, s[j]).update(j, s[i]) =~= s);
    } else {
        assert(t[j] == s[j]);
        assert(s.to_multiset().insert(s[j]).remove(s[i]).insert(s[i]).remove(s[j])
            =~= s.to_multiset());
    }
}

/// A min-priority queue of frontier entries that keeps duplicates.
pub struct PriorityFrontier {
    entries: Vec<FrontierEntry>,
}

impl View for PriorityFrontier {
    type V = Multiset<FrontierEntry>;

    closed spec fn view(&self) -> Multiset<FrontierEntry> {
        self.entries@.to_multiset()
    }
}

impl PriorityFrontier {
    pub closed spec fn wf(&self) -> bool {
        heap_ordered(self.entries@)
    }

    pub fn new() -> (r: Self)
        ensures
            r.wf(),
            r@ == Multiset::<FrontierEntry>::empty(),
    {
        let r = PriorityFrontier { entries: Vec::new() };
        proof {
            broadcast use vstd::seq_lib::group_to_multiset_ensures;
            broadcast use vstd::multiset::group_multiset_axioms;

            assert(r.entries@.to_multiset() =~= Multiset::<FrontierEntry>::empty());
        }
        r
    }

    pub fn len(&self) -> (r: usize)
        ensures
            r == self@.len(),
    {
        proof {
            broadcast use vstd::seq_lib::group_to_multiset_ensures;
        }
        self.entries.len()
    }

    pub fn is_empty(&self) -> (r: bool)
        ensures
            r == (self@.len() == 0),
    {
        self.len() == 0
    }

    fn swap(&mut self, i: usize, j: usize)
        requires
            i < old(self).entries.len(),
            j < old(self).entries.len(),
        ensures
            final(self).entries@ == old(self).entries@.update(i as int, old(self).entries@[j as int]).update(
                j as int,
                old(self).entries@[i as int],
            ),
            final(self)@ == old(self)@,
    {
        let a = self.entries[i];
        let b = self.entries[j];
        self.entries.set(i, b);
        self.entries.set(j, a);
        proof {
            lemma_swap_keeps_multiset(old(self).entries@, i as int, j as int);
        }
    }

    /// Moves the entry at `i` towards the root until its parent precedes it.
    fn sift_up(&mut self, i: usize)
        requires
            i < old(self).entries.len(),
            forall|k: int|
                0 < k < old(self).entries.len() && k != i ==> #[trigger] precedes(
                    old(self).entries@[parent_of(k)],
                    old(self).entries@[k],
                ),
            forall|k: int|
                0 < i && 0 < k < old(self).entries.len() && parent_of(k) == i ==> #[trigger] precedes(
                    old(self).entries@[parent_of(i as int)],
                    old(self).entries@[k],
                ),
        ensures
            final(self).wf(),
            final(self)@ == old(self)@,
            final(self).entries.len() == old(self).entries.len(),
        decreases i,
    {
        if i == 0 {
            return;
        }
        let p = (i - 1) / 2;
        if precedes_exec(&self.entries[p], &self.entries[i]) {
            return;
        }
        let ghost s = self.entries@;
        self.swap(p, i);
        let ghost t = self.entries@;
        assert forall|k: int| 0 < k < t.len() && k != p implies #[trigger] precedes(
            t[parent_of(k)],
            t[k],
        ) by {
            if k == i {
            } else if parent_of(k) == i {
                assert(precedes(s[parent_of(i as int)], s[k]));
            } else if parent_of(k) == p {
                assert(precedes(s[p as int], s[k]));
            }
        }
        assert forall|k: int|
            0 < p && 0 < k < t.len() && parent_of(k) == p implies #[trigger] precedes(
            t[parent_of(p as int)],
            t[k],
        ) by {
            assert(precedes(s[parent_of(p as int)], s[p as int]));
            if k != i {
                assert(precedes(s[p as int], s[k]));
            }
        }
        self.sift_up(p);
    }

    /// Moves the entry at `i` away from the root until it precedes its children.
    fn sift_down(&mut self, i: usize)
        requires
            i < old(self).entries.len(),
            forall|k: int|
                0 < k < old(self).entries.len() && parent_of(k) != i ==> #[trigger] precedes(
                    old(self).entries@[parent_of(k)],
                    old(self).entries@[k],
                ),
            forall|k: int|
                0 < i && 0 < k < old(self).entries.len() && parent_of(k) == i ==> #[trigger] precedes(
                    old(self).entries@[parent_of(i as int)],
                    old(self).entries@[k],
                ),
        ensures
            final(self).wf(),
            final(self)@ == old(self)@,
            final(self).entries.len() == old(self).entries.len(),
        decreases old(self).entries.len() - i,
    {
        let n = self.entries.len();
        let ghost s = self.entries@;
        if i >= n / 2 {
            return;
        }
        let l = 2 * i + 1;
        let mut c = l;
        if l + 1 < n && !precedes_exec(&self.entries[l], &self.entries[l + 1]) {
            c = l + 1;
        }
        if precedes_exec(&self.entries[i], &self.entries[c]) {
            assert forall|k: int| 0 < k < s.len() implies #[trigger] precedes(s[parent_of(k)], s[k]) by {
                if parent_of(k) == i {
                    if k != c {
                        assert(k == l || k == l + 1);
                    }
                }
            }
            return;
        }
        self.swap(i, c);
        let ghost t = self.entries@;
        assert forall|k: int| 0 < k < t.len() && parent_of(k) != c implies #[trigger] precedes(
            t[parent_of(k)],
            t[k],
        ) by {
            if k == c {
            } else if parent_of(k) == i {
                assert(k == l || k == l + 1);
            } else if k == i {
                assert(precedes(s[parent_of(i as int)], s[c as int]));
            }
        }
        assert forall|k: int|
            0 < c && 0 < k < t.len() && parent_of(k) == c implies #[trigger] precedes(
            t[parent_of(c as int)],
            t[k],
        ) by {
            assert(parent_of(c as int) == i);
            assert(precedes(s[c as int], s[k]));
        }
        self.sift_down(c);
    }

    /// Adds `entry`; entries equal to it that are already queued stay.
    pub fn push(&mut self, entry: FrontierEntry)
        requires
            old(self).wf(),
        ensures
            final(self).wf(),
            final(self)@ == old(self)@.insert(entry),
    {
        proof {
            broadcast use vstd::seq_lib::group_to_multiset_ensures;
        }
        let ghost s = self.entries@;
        self.entries.push(entry);
        let n = self.entries.len();
        assert(self.entries@ == s.push(entry));
        self.sift_up(n - 1);
    }

    /// Removes and returns an entry that precedes every queued entry, or
    /// `None` when the frontier is empty.
    pub fn pop_min(&mut self) -> (r: Option<FrontierEntry>)
        requires
            old(self).wf(),
        ensures
            final(self).wf(),
            match r {
                None => old(self)@.len() == 0 && final(self)@ == old(self)@,
                Some(e) => {
                    &&& old(self)@.contains(e)
                    &&& final(self)@ == old(self)@.remove(e)
                    &&& forall|x: FrontierEntry| old(self)@.contains(x) ==> precedes(e, x)
                },
            },
    {
        proof {
            broadcast use vstd::seq_lib::group_to_multiset_ensures;
        }
        let n = self.entries.len();
        if n == 0 {
            return None;
        }
        let ghost s = self.entries@;
        proof {
            assert forall|x: FrontierEntry| s.to_multiset().contains(x) implies precedes(s[0], x) by {
                let k = choose|k: int| 0 <= k < s.len() && s[k] == x;
                lemma_root_precedes(s, k);
            }
        }
        self.swap(0, n - 1);
        let e = self.entries.pop().unwrap();
        proof {
            let t = self.entries@;
            let u = s.update(0, s[n - 1]).update(n - 1, s[0]);
            assert(u.drop_last() == t);
            assert(u == t.push(e));
            assert(e == s[0]);
            broadcast use vstd::multiset::group_multiset_axioms;

            assert(t.to_multiset().insert(e).remove(e) =~= t.to_multiset());
        }
        if n > 1 {
            self.sift_down(0);
        }
        Some(e)
    }
}

fn precedes_exec(a: &FrontierEntry, b: &FrontierEntry) -> (r: bool)
    ensures
        r == precedes(*a, *b),
{
    a.estimated_total_cost < b.estimated_total_cost || (a.estimated_total_cost
        == b.estimated_total_cost && a.cost_so_far <= b.cost_so_far)
}

} // verus!
