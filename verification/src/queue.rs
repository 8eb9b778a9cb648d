//! The priority queue of a search: a binary heap that gives out the least
//! entry first.
use crate::geograph::NodeId;
use crate::geoloc::Distance;
use vstd::multiset::Multiset;
use vstd::prelude::*;

verus! {

broadcast use vstd::seq_lib::group_to_multiset_ensures;

/// What waits in the queue: a tentative length and the node it is for.
pub type Entry = (Distance, NodeId);

/// Whether `a` leaves the queue no later than `b`: the shorter length first,
/// and of two equal lengths the lower identifier.
pub open spec fn precedes(a: Entry, b: Entry) -> bool {
    a.0.0 < b.0.0 || (a.0.0 == b.0.0 && a.1 <= b.1)
}

/// Whether `least` is in `entries` and precedes all of them.
pub open spec fn is_least(entries: Multiset<Entry>, least: Entry) -> bool {
    &&& entries.contains(least)
    &&& forall|other: Entry| entries.contains(other) ==> precedes(least, other)
}

/// The order of the queue is total, so a multiset has at most one least entry.
pub proof fn lemma_least_is_unique(entries: Multiset<Entry>, a: Entry, b: Entry)
    requires
        is_least(entries, a),
        is_least(entries, b),
    ensures
        a == b,
{
    assert(precedes(a, b) && precedes(b, a));
}

fn comes_first(a: Entry, b: Entry) -> (r: bool)
    ensures
        r == precedes(a, b),
{
    a.0.0 < b.0.0 || (a.0.0 == b.0.0 && a.1 <= b.1)
}

spec fn parent(i: int) -> int {
    (i - 1) / 2
}

/// Every entry but the first is preceded by its parent.
spec fn ordered(s: Seq<Entry>) -> bool {
    forall|i: int| 0 < i < s.len() ==> precedes(s[parent(i)], #[trigger] s[i])
}

/// `s` is ordered but for what stands at `hole`, which may precede its parent.
spec fn ordered_above(s: Seq<Entry>, hole: int) -> bool {
    &&& forall|i: int| 0 < i < s.len() && i != hole ==> precedes(s[parent(i)], #[trigger] s[i])
    &&& forall|i: int|
        0 < i < s.len() && parent(i) == hole && hole > 0 ==> precedes(
            s[parent(hole)],
            #[trigger] s[i],
        )
}

/// `s` is ordered but for what stands at `hole`, which its children may precede.
spec fn ordered_below(s: Seq<Entry>, hole: int) -> bool {
    &&& forall|i: int|
        0 < i < s.len() && parent(i) != hole ==> precedes(s[parent(i)], #[trigger] s[i])
    &&& forall|i: int|
        0 < i < s.len() && parent(i) == hole && hole > 0 ==> precedes(
            s[parent(hole)],
            #[trigger] s[i],
        )
}

proof fn lemma_first_precedes_all(s: Seq<Entry>, i: int)
    requires
        ordered(s),
        0 <= i < s.len(),
    ensures
        precedes(s[0], s[i]),
    decreases i,
{
    if i > 0 {
        lemma_first_precedes_all(s, parent(i));
        assert(precedes(s[parent(i)], s[i]));
    }
}

proof fn lemma_exchange_keeps_entries(s: Seq<Entry>, i: int, j: int)
    requires
        0 <= i < s.len(),
        0 <= j < s.len(),
    ensures
        s.update(i, s[j]).update(j, s[i]).to_multiset() == s.to_multiset(),
{
    let t = s.update(i, s[j]);
    assert(t.to_multiset() == s.to_multiset().insert(s[j]).remove(s[i]));
    assert(t.update(j, s[i]).to_multiset() == t.to_multiset().insert(s[i]).remove(t[j]));
    assert(s.to_multiset().count(s[i]) > 0);
    assert(s.to_multiset().count(s[j]) > 0);
    assert(s.to_multiset().insert(s[j]).remove(s[i]).insert(s[i]).remove(t[j])
        =~= s.to_multiset());
}

fn exchange(v: &mut Vec<Entry>, i: usize, j: usize)
    requires
        i < old(v)@.len(),
        j < old(v)@.len(),
    ensures
        final(v)@ == old(v)@.update(i as int, old(v)@[j as int]).update(j as int, old(v)@[i as int]),
        final(v)@.to_multiset() == old(v)@.to_multiset(),
        final(v)@.len() == old(v)@.len(),
{
    proof {
        lemma_exchange_keeps_entries(v@, i as int, j as int);
    }
    let a = v[i];
    let b = v[j];
    v[i] = b;
    v[j] = a;
}

fn sift_up(v: &mut Vec<Entry>, start: usize)
    requires
        start < old(v)@.len(),
        ordered_above(old(v)@, start as int),
    ensures
        ordered(final(v)@),
        final(v)@.to_multiset() == old(v)@.to_multiset(),
{
    let mut k = start;
    while k > 0 && !comes_first(v[(k - 1) / 2], v[k])
        invariant
            k < v@.len(),
            ordered_above(v@, k as int),
            v@.to_multiset() == old(v)@.to_multiset(),
        decreases k,
    {
        let p = (k - 1) / 2;
        let ghost s = v@;
        exchange(v, p, k);
        proof {
            let t = v@;
            assert(precedes(s[k as int], s[p as int]));
            assert forall|i: int| 0 < i < t.len() && i != p implies precedes(
                t[parent(i)],
                #[trigger] t[i],
            ) by {
                if i == k {
                } else if parent(i) == p {
                    assert(precedes(s[p as int], s[i]));
                } else if parent(i) == k {
                    assert(precedes(s[parent(k as int)], s[i]));
                } else {
                    assert(precedes(s[parent(i)], s[i]));
                }
            }
            assert forall|i: int| 0 < i < t.len() && parent(i) == p && p > 0 implies precedes(
                t[parent(p as int)],
                #[trigger] t[i],
            ) by {
                assert(precedes(s[parent(p as int)], s[p as int]));
                if i != k {
                    assert(precedes(s[p as int], s[i]));
                }
            }
        }
        k = p;
    }
    proof {
        let t = v@;
        assert forall|i: int| 0 < i < t.len() implies precedes(t[parent(i)], #[trigger] t[i]) by {
            if i != k {
                assert(precedes(t[parent(i)], t[i]));
            }
        }
    }
}

fn sift_down(v: &mut Vec<Entry>)
    requires
        old(v)@.len() > 0,
        ordered_below(old(v)@, 0),
    ensures
        ordered(final(v)@),
        final(v)@.to_multiset() == old(v)@.to_multiset(),
{
    let n = v.len();
    let mut k: usize = 0;
    let mut settled = false;
    while !settled
        invariant
            n == v@.len(),
            k < n,
            ordered_below(v@, k as int),
            settled ==> ordered(v@),
            v@.to_multiset() == old(v)@.to_multiset(),
        decreases n - k, if settled { 0int } else { 1int },
    {
        if n < 2 || k > (n - 2) / 2 {
            proof {
                let t = v@;
                assert forall|i: int| 0 < i < t.len() implies precedes(
                    t[parent(i)],
                    #[trigger] t[i],
                ) by {
                    assert(parent(i) != k);
                }
            }
            settled = true;
        } else {
            let left = 2 * k + 1;
            let right = left + 1;
            let child = if right < n && !comes_first(v[left], v[right]) {
                right
            } else {
                left
            };
            if comes_first(v[k], v[child]) {
                proof {
                    let t = v@;
                    assert forall|i: int| 0 < i < t.len() implies precedes(
                        t[parent(i)],
                        #[trigger] t[i],
                    ) by {
                        if parent(i) == k {
                            assert(i == left || i == right);
                            assert(precedes(t[child as int], t[i]));
                        }
                    }
                }
                settled = true;
            } else {
                let ghost s = v@;
                exchange(v, k, child);
                proof {
                    let t = v@;
                    assert(precedes(s[child as int], s[k as int]));
                    assert forall|i: int| 0 < i < t.len() && parent(i) != child implies precedes(
                        t[parent(i)],
                        #[trigger] t[i],
                    ) by {
                        if i == child {
                        } else if parent(i) == k {
                            assert(i == left || i == right);
                            assert(precedes(s[child as int], s[i]));
                        } else if i == k {
                            assert(precedes(s[parent(k as int)], s[child as int]));
                        } else {
                            assert(precedes(s[parent(i)], s[i]));
                        }
                    }
                    assert forall|i: int|
                        0 < i < t.len() && parent(i) == child && child > 0 implies precedes(
                        t[parent(child as int)],
                        #[trigger] t[i],
                    ) by {
                        assert(precedes(s[parent(i)], s[i]));
                    }
                }
                k = child;
            }
        }
    }
}

/// A priority queue of entries that gives out the least entry first.
pub struct MinQueue {
    entries: Vec<Entry>,
}

impl View for MinQueue {
    type V = Multiset<Entry>;

    /// The entries that wait in the queue.
    closed spec fn view(&self) -> Multiset<Entry> {
        self.entries@.to_multiset()
    }
}

impl MinQueue {
    #[verifier::type_invariant]
    spec fn in_order(&self) -> bool {
        ordered(self.entries@)
    }

    /// An empty queue.
    pub fn new() -> (queue: MinQueue)
        ensures
            queue@ == Multiset::<Entry>::empty(),
    {
        let queue = MinQueue { entries: Vec::new() };
        assert(queue.entries@.to_multiset() =~= Multiset::<Entry>::empty());
        queue
    }

    /// How many entries wait in the queue.
    pub fn len(&self) -> (n: usize)
        ensures
            n == self@.len(),
    {
        self.entries.len()
    }

    /// Whether no entry waits in the queue.
    pub fn is_empty(&self) -> (b: bool)
        ensures
            b == (self@.len() == 0),
    {
        self.entries.len() == 0
    }

    /// Adds `entry` to the queue.
    pub fn push(&mut self, entry: Entry)
        ensures
            final(self)@ == old(self)@.insert(entry),
    {
        proof {
            use_type_invariant(&*self);
        }
        // The entries leave the queue while they are out of order.
        let mut entries: Vec<Entry> = Vec::new();
        core::mem::swap(&mut self.entries, &mut entries);
        let ghost before = entries@;
        entries.push(entry);
        proof {
            let s = entries@;
            assert forall|i: int| 0 < i < s.len() && i != s.len() - 1 implies precedes(
                s[parent(i)],
                #[trigger] s[i],
            ) by {
                assert(precedes(before[parent(i)], before[i]));
            }
        }
        let last = entries.len() - 1;
        sift_up(&mut entries, last);
        core::mem::swap(&mut self.entries, &mut entries);
    }

    /// Takes the least entry out of the queue, if the queue has any.
    pub fn pop(&mut self) -> (popped: Option<Entry>)
        ensures
            popped is None <==> old(self)@.len() == 0,
            popped is None ==> final(self)@ == old(self)@,
            popped matches Some(entry) ==> is_least(old(self)@, entry) && final(self)@ == old(
                self,
            )@.remove(entry),
    {
        proof {
            use_type_invariant(&*self);
        }
        let mut entries: Vec<Entry> = Vec::new();
        core::mem::swap(&mut self.entries, &mut entries);
        let ghost before = entries@;
        let popped = match entries.pop() {
            None => None,
            Some(last) => {
                assert(before =~= entries@.push(last));
                if entries.len() == 0 {
                    assert(before.to_multiset().remove(last) =~= entries@.to_multiset());
                    assert forall|other: Entry|
                        before.to_multiset().contains(other) implies precedes(last, other) by {
                        assert(before.contains(other));
                    }
                    Some(last)
                } else {
                    let top = entries[0];
                    let ghost rest = entries@;
                    entries[0] = last;
                    proof {
                        let s = entries@;
                        assert(s == rest.update(0, last));
                        assert(s.to_multiset() =~= before.to_multiset().remove(top));
                        assert forall|i: int| 0 < i < s.len() && parent(i) != 0 implies precedes(
                            s[parent(i)],
                            #[trigger] s[i],
                        ) by {
                            assert(precedes(before[parent(i)], before[i]));
                        }
                        assert forall|other: Entry|
                            before.to_multiset().contains(other) implies precedes(top, other) by {
                            assert(before.contains(other));
                            let j = choose|j: int| 0 <= j < before.len() && before[j] == other;
                            lemma_first_precedes_all(before, j);
                        }
                        assert(before.contains(top)) by {
                            assert(before[0] == top);
                        }
                    }
                    sift_down(&mut entries);
                    Some(top)
                }
            },
        };
        core::mem::swap(&mut self.entries, &mut entries);
        popped
    }
}

} // verus!
