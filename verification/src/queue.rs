use vstd::multiset::Multiset;
use vstd::prelude::*;
use vstd::seq_lib::{to_multiset_build, to_multiset_contains, to_multiset_insert, to_multiset_len, to_multiset_remove};

verus! {

/// What the queue holds: a key and the item it belongs to.
pub type Entry = (u128, usize);

/// The order in which entries leave the queue: by key, and among equal keys
/// by item.
pub open spec fn entry_le(a: Entry, b: Entry) -> bool {
    a.0 < b.0 || (a.0 == b.0 && a.1 <= b.1)
}

spec fn parent(i: int) -> int {
    (i - 1) / 2
}

/// No entry precedes the one above it in the tree that the array lays out.
spec fn is_heap(s: Seq<Entry>) -> bool {
    forall|i: int| 0 < i < s.len() ==> entry_le(s[parent(i)], #[trigger] s[i])
}

/// `is_heap` but for the entry at `hole`, which may precede the one above
/// it; the entries below `hole` already follow the one above it.
spec fn is_heap_but_above(s: Seq<Entry>, hole: int) -> bool {
    &&& forall|i: int| 0 < i < s.len() && i != hole ==> entry_le(s[parent(i)], #[trigger] s[i])
    &&& forall|i: int|
        0 < i < s.len() && parent(i) == hole && hole > 0 ==> entry_le(
            s[parent(hole)],
            #[trigger] s[i],
        )
}

/// `is_heap` but for the entries right below `hole`, which may precede it;
/// they already follow the entry above `hole`.
spec fn is_heap_but_below(s: Seq<Entry>, hole: int) -> bool {
    &&& forall|i: int|
        0 < i < s.len() && parent(i) != hole ==> entry_le(s[parent(i)], #[trigger] s[i])
    &&& forall|i: int|
        0 < i < s.len() && parent(i) == hole && hole > 0 ==> entry_le(
            s[parent(hole)],
            #[trigger] s[i],
        )
}

proof fn lemma_update_to_multiset(s: Seq<Entry>, i: int, e: Entry)
    requires
        0 <= i < s.len(),
    ensures
        s.update(i, e).to_multiset() == s.to_multiset().remove(s[i]).insert(e),
{
    to_multiset_remove(s, i);
    to_multiset_insert(s.remove(i), i, e);
    assert(s.remove(i).insert(i, e) =~= s.update(i, e));
}

proof fn lemma_swap_to_multiset(s: Seq<Entry>, i: int, j: int)
    requires
        0 <= i < s.len(),
        0 <= j < s.len(),
    ensures
        s.update(i, s[j]).update(j, s[i]).to_multiset() == s.to_multiset(),
{
    let mid = s.update(i, s[j]);
    lemma_update_to_multiset(s, i, s[j]);
    lemma_update_to_multiset(mid, j, s[i]);
    to_multiset_contains(s, s[i]);
    to_multiset_contains(s, s[j]);
    assert(s.contains(s[i]));
    assert(s.contains(s[j]));
    assert(mid.update(j, s[i]).to_multiset() =~= s.to_multiset());
}

/// The first entry of a heap precedes all of them.
proof fn lemma_first_is_least(s: Seq<Entry>, i: int)
    requires
        is_heap(s),
        0 <= i < s.len(),
    ensures
        entry_le(s[0], s[i]),
    decreases i,
{
    if i > 0 {
        lemma_first_is_least(s, parent(i));
    }
}

fn le(a: Entry, b: Entry) -> (r: bool)
    ensures
        r == entry_le(a, b),
{
    a.0 < b.0 || (a.0 == b.0 && a.1 <= b.1)
}

fn swap_entries(data: &mut Vec<Entry>, i: usize, j: usize)
    requires
        i < old(data)@.len(),
        j < old(data)@.len(),
    ensures
        final(data)@ == old(data)@.update(i as int, old(data)@[j as int]).update(
            j as int,
            old(data)@[i as int],
        ),
        final(data)@.to_multiset() == old(data)@.to_multiset(),
{
    let a = data[i];
    let b = data[j];
    data.set(i, b);
    data.set(j, a);
    proof {
        lemma_swap_to_multiset(old(data)@, i as int, j as int);
    }
}

/// Moves the last entry up until the one above it precedes it.
fn sift_up(data: &mut Vec<Entry>)
    requires
        old(data)@.len() > 0,
        is_heap_but_above(old(data)@, old(data)@.len() - 1),
    ensures
        is_heap(final(data)@),
        final(data)@.to_multiset() == old(data)@.to_multiset(),
{
    let mut i: usize = data.len() - 1;
    while i > 0 && !le(data[(i - 1) / 2], data[i])
        invariant
            i < data@.len(),
            is_heap_but_above(data@, i as int),
            data@.to_multiset() == old(data)@.to_multiset(),
        ensures
            is_heap(data@),
        decreases i,
    {
        let p: usize = (i - 1) / 2;
        let ghost before = data@;
        swap_entries(data, i, p);
        proof {
            assert(parent(i as int) == p);
            assert forall|j: int| 0 < j < data@.len() && j != p implies entry_le(
                data@[parent(j)],
                #[trigger] data@[j],
            ) by {
                if j == i {
                } else if parent(j) == i {
                    assert(entry_le(before[p as int], before[j]));
                } else if parent(j) == p {
                    assert(entry_le(before[p as int], before[j]));
                } else {
                    assert(entry_le(before[parent(j)], before[j]));
                }
            }
            assert forall|j: int| 0 < j < data@.len() && parent(j) == p && p > 0 implies entry_le(
                data@[parent(p as int)],
                #[trigger] data@[j],
            ) by {
                assert(entry_le(before[parent(p as int)], before[p as int]));
                if j != i {
                    assert(entry_le(before[p as int], before[j]));
                }
            }
        }
        i = p;
    }
}

/// Moves the first entry down until it precedes the entries right below it.
fn sift_down(data: &mut Vec<Entry>)
    requires
        is_heap_but_below(old(data)@, 0),
    ensures
        is_heap(final(data)@),
        final(data)@.to_multiset() == old(data)@.to_multiset(),
{
    let n: usize = data.len();
    let mut i: usize = 0;
    loop
        invariant
            n == data@.len(),
            i <= n,
            is_heap_but_below(data@, i as int),
            data@.to_multiset() == old(data)@.to_multiset(),
        ensures
            is_heap(data@),
        decreases n - i,
    {
        if i >= n / 2 {
            proof {
                assert forall|j: int| 0 < j < n implies entry_le(
                    data@[parent(j)],
                    #[trigger] data@[j],
                ) by {
                    assert(parent(j) != i);
                }
            }
            break ;
        }
        let left: usize = 2 * i + 1;
        let right: usize = left + 1;
        let mut least: usize = left;
        if right < n && !le(data[left], data[right]) {
            least = right;
        }
        if le(data[i], data[least]) {
            proof {
                assert forall|j: int| 0 < j < n implies entry_le(
                    data@[parent(j)],
                    #[trigger] data@[j],
                ) by {
                    if parent(j) == i {
                        assert(j == left || j == right);
                    }
                }
            }
            break ;
        }
        let ghost before = data@;
        swap_entries(data, i, least);
        proof {
            assert(parent(least as int) == i);
            assert forall|j: int| 0 < j < n && parent(j) != least implies entry_le(
                data@[parent(j)],
                #[trigger] data@[j],
            ) by {
                if j == least {
                } else if parent(j) == i {
                    assert(j == left || j == right);
                } else if j == i {
                    assert(entry_le(before[parent(i as int)], before[least as int]));
                } else {
                    assert(entry_le(before[parent(j)], before[j]));
                }
            }
            assert forall|j: int| 0 < j < n && parent(j) == least implies entry_le(
                data@[parent(least as int)],
                #[trigger] data@[j],
            ) by {
                assert(entry_le(before[least as int], before[j]));
            }
        }
        i = least;
    }
}

/// A priority queue of keyed items that hands out the least entry first.
pub struct MinQueue {
    data: Vec<Entry>,
}

impl View for MinQueue {
    type V = Multiset<Entry>;

    /// The entries in the queue, each as often as it was put in and not yet
    /// taken out.
    closed spec fn view(&self) -> Multiset<Entry> {
        self.data@.to_multiset()
    }
}

impl MinQueue {
    /// The queue keeps its entries in the order that `pop` relies on.
    pub closed spec fn wf(&self) -> bool {
        is_heap(self.data@)
    }

    /// A queue that holds nothing.
    pub fn new() -> (queue: MinQueue)
        ensures
            queue.wf(),
            queue@ == Multiset::<Entry>::empty(),
    {
        let queue = MinQueue { data: Vec::new() };
        proof {
            to_multiset_len(queue.data@);
            vstd::multiset::lemma_multiset_empty_len(queue.data@.to_multiset());
            assert(queue.data@.to_multiset() =~= Multiset::<Entry>::empty());
        }
        queue
    }

    /// The number of entries.
    pub fn len(&self) -> (n: usize)
        ensures
            n == self@.len(),
    {
        proof {
            to_multiset_len(self.data@);
        }
        self.data.len()
    }

    /// Whether the queue holds nothing.
    pub fn is_empty(&self) -> (empty: bool)
        ensures
            empty == (self@.len() == 0),
    {
        proof {
            to_multiset_len(self.data@);
        }
        self.data.len() == 0
    }

    /// Puts in `item` under `key`.
    pub fn push(&mut self, key: u128, item: usize)
        requires
            old(self).wf(),
        ensures
            final(self).wf(),
            final(self)@ == old(self)@.insert((key, item)),
    {
        push_entry(&mut self.data, (key, item));
    }

    /// Takes out the least entry, if there is any.
    pub fn pop(&mut self) -> (least: Option<Entry>)
        requires
            old(self).wf(),
        ensures
            final(self).wf(),
            match least {
                Some(e) => {
                    &&& old(self)@.count(e) > 0
                    &&& final(self)@ == old(self)@.remove(e)
                    &&& forall|x: Entry| #[trigger] old(self)@.count(x) > 0 ==> entry_le(e, x)
                },
                None => old(self)@.len() == 0 && final(self)@ == old(self)@,
            },
    {
        proof {
            to_multiset_len(self.data@);
        }
        pop_entry(&mut self.data)
    }
}

fn push_entry(data: &mut Vec<Entry>, e: Entry)
    requires
        is_heap(old(data)@),
    ensures
        is_heap(final(data)@),
        final(data)@.to_multiset() == old(data)@.to_multiset().insert(e),
{
    data.push(e);
    proof {
        to_multiset_build(old(data)@, e);
        assert forall|i: int| 0 < i < data@.len() && i != data@.len() - 1 implies entry_le(
            data@[parent(i)],
            #[trigger] data@[i],
        ) by {
            assert(entry_le(old(data)@[parent(i)], old(data)@[i]));
        }
    }
    sift_up(data);
}

fn pop_entry(data: &mut Vec<Entry>) -> (least: Option<Entry>)
    requires
        is_heap(old(data)@),
    ensures
        is_heap(final(data)@),
        match least {
            Some(e) => {
                &&& old(data)@.to_multiset().count(e) > 0
                &&& final(data)@.to_multiset() == old(data)@.to_multiset().remove(e)
                &&& forall|x: Entry|
                    #[trigger] old(data)@.to_multiset().count(x) > 0 ==> entry_le(e, x)
            },
            None => old(data)@.len() == 0 && final(data)@ == old(data)@,
        },
{
    let n = data.len();
    if n == 0 {
        return None;
    }
    let first = data[0];
    proof {
        to_multiset_contains(old(data)@, first);
        assert(old(data)@.contains(first));
        assert forall|x: Entry| #[trigger]
            old(data)@.to_multiset().count(x) > 0 implies entry_le(first, x) by {
            to_multiset_contains(old(data)@, x);
            let i = choose|i: int| 0 <= i < old(data)@.len() && old(data)@[i] == x;
            lemma_first_is_least(old(data)@, i);
        }
    }
    swap_entries(data, 0, n - 1);
    let ghost swapped = data@;
    let taken = data.pop();
    proof {
        assert(data@ == swapped.remove(n - 1));
        to_multiset_remove(swapped, n - 1);
        assert forall|i: int| 0 < i < data@.len() && parent(i) != 0 implies entry_le(
            data@[parent(i)],
            #[trigger] data@[i],
        ) by {
            assert(entry_le(old(data)@[parent(i)], old(data)@[i]));
        }
    }
    sift_down(data);
    Some(first)
}

} // verus!
