//! Sets of physical row indices, kept as strictly ascending vectors.

use vstd::prelude::*;

verus! {

pub open spec fn sorted_strict(s: Seq<usize>) -> bool {
    forall|i: int, j: int| 0 <= i < j < s.len() ==> s[i] < s[j]
}

/// The indices `0 .. n`.
pub open spec fn full_index_set(n: nat) -> Set<usize> {
    Set::new(|x: usize| (x as nat) < n)
}

/// A set of row indices. The indices are held in ascending order, so
/// iteration over the set is deterministic.
#[derive(Debug, Clone)]
pub struct RowSet {
    items: Vec<usize>,
}

impl RowSet {
    /// The indices in ascending order.
    pub closed spec fn seq_view(&self) -> Seq<usize> {
        self.items@
    }

    /// The set of indices.
    pub open spec fn view(&self) -> Set<usize> {
        self.seq_view().to_set()
    }

    pub open spec fn wf(&self) -> bool {
        sorted_strict(self.seq_view())
    }

    pub fn new() -> (r: RowSet)
        ensures
            r.wf(),
            r.view() == Set::<usize>::empty(),
            r.seq_view() == Seq::<usize>::empty(),
    {
        let r = RowSet { items: Vec::new() };
        proof {
            assert(r.view() =~= Set::<usize>::empty());
        }
        r
    }

    /// The set of all indices below `n`.
    pub fn full(n: usize) -> (r: RowSet)
        ensures
            r.wf(),
            r.view() == full_index_set(n as nat),
            r.seq_view().len() == n,
            forall|k: int| 0 <= k < n ==> r.seq_view()[k] == k,
    {
        let mut items: Vec<usize> = Vec::new();
        let mut i: usize = 0;
        while i < n
            invariant
                i <= n,
                items@.len() == i,
                forall|k: int| 0 <= k < i ==> items@[k] == k,
            decreases n - i,
        {
            items.push(i);
            i += 1;
        }
        let r = RowSet { items };
        proof {
            assert forall|x: usize| r.view().contains(x) implies full_index_set(n as nat).contains(
                x,
            ) by {
                let k = choose|k: int| 0 <= k < r.seq_view().len() && r.seq_view()[k] == x;
            }
            assert forall|x: usize| full_index_set(n as nat).contains(x) implies r.view().contains(
                x,
            ) by {
                assert(r.seq_view()[x as int] == x);
            }
            assert(r.view() =~= full_index_set(n as nat));
        }
        r
    }

    pub fn len(&self) -> (r: usize)
        ensures
            r == self.seq_view().len(),
    {
        self.items.len()
    }

    pub fn index_at(&self, k: usize) -> (r: usize)
        requires
            k < self.seq_view().len(),
        ensures
            r == self.seq_view()[k as int],
    {
        self.items[k]
    }

    pub fn contains(&self, x: usize) -> (r: bool)
        ensures
            r == self.view().contains(x),
    {
        let n = self.items.len();
        let mut i: usize = 0;
        while i < n
            invariant
                n == self.seq_view().len(),
                i <= n,
                forall|k: int| 0 <= k < i ==> self.seq_view()[k] != x,
            decreases n - i,
        {
            if self.items[i] == x {
                proof {
                    assert(self.seq_view().contains(x));
                }
                return true;
            }
            i += 1;
        }
        proof {
            assert(!self.seq_view().contains(x));
        }
        false
    }

    /// Keeps the indices also contained in `other`.
    pub fn intersect(&self, other: &RowSet) -> (r: RowSet)
        requires
            self.wf(),
        ensures
            r.wf(),
            r.view() == self.view().intersect(other.view()),
    {
        let n = self.items.len();
        let mut items: Vec<usize> = Vec::new();
        let mut i: usize = 0;
        while i < n
            invariant
                n == self.seq_view().len(),
                i <= n,
                self.wf(),
                sorted_strict(items@),
                forall|x: usize| items@.contains(x) ==> self.view().contains(x)
                    && other.view().contains(x),
                forall|k: int| 0 <= k < i ==> (self.view().contains(#[trigger] self.seq_view()[k])
                    && other.view().contains(self.seq_view()[k]) ==> items@.contains(
                    self.seq_view()[k],
                )),
                forall|k: int| 0 <= k < items@.len() ==> exists|j: int|
                    0 <= j < i && self.seq_view()[j] == #[trigger] items@[k],
            decreases n - i,
        {
            let x = self.items[i];
            if other.contains(x) {
                proof {
                    assert(self.seq_view().contains(x));
                    if items@.len() > 0 {
                        let lk = items@.len() - 1;
                        let j = choose|j: int|
                            0 <= j < i && self.seq_view()[j] == items@[lk];
                        assert(self.seq_view()[j] < self.seq_view()[i as int]);
                    }
                }
                let ghost before = items@;
                items.push(x);
                proof {
                    assert forall|a: int, b: int|
                        0 <= a < b < items@.len() implies items@[a] < items@[b] by {
                        if b < items@.len() - 1 {
                            assert(before[a] < before[b]);
                        } else {
                            assert(items@[a] == before[a]);
                        }
                    }
                    assert forall|y: usize| before.contains(y) implies items@.contains(y) by {
                        let k = choose|k: int| 0 <= k < before.len() && before[k] == y;
                        assert(items@[k] == y);
                    }
                    assert(items@.last() == x);
                    assert(items@.contains(x));
                    assert forall|k: int|
                        0 <= k < items@.len() implies exists|j: int|
                            0 <= j < i + 1 && self.seq_view()[j] == #[trigger] items@[k] by {
                        if k < items@.len() - 1 {
                            let j = choose|j: int|
                                0 <= j < i && self.seq_view()[j] == before[k];
                            assert(0 <= j < i + 1 && self.seq_view()[j] == items@[k]);
                        } else {
                            assert(self.seq_view()[i as int] == items@[k]);
                        }
                    }
                }
            }
            i += 1;
        }
        let r = RowSet { items };
        proof {
            assert forall|x: usize| self.view().contains(x) && other.view().contains(x)
                implies r.view().contains(x) by {
                let k = choose|k: int|
                    0 <= k < self.seq_view().len() && self.seq_view()[k] == x;
                assert(r.seq_view().contains(x));
            }
            assert(r.view() =~= self.view().intersect(other.view()));
        }
        r
    }

    /// Adds the indices of `other`.
    pub fn union(&self, other: &RowSet, bound: usize) -> (r: RowSet)
        requires
            self.wf(),
            forall|x: usize| self.view().contains(x) ==> x < bound,
            forall|x: usize| other.view().contains(x) ==> x < bound,
        ensures
            r.wf(),
            r.view() == self.view().union(other.view()),
    {
        let mut items: Vec<usize> = Vec::new();
        let mut i: usize = 0;
        while i < bound
            invariant
                i <= bound,
                self.wf(),
                sorted_strict(items@),
                forall|x: usize| items@.contains(x) ==> x < i && (self.view().contains(x)
                    || other.view().contains(x)),
                forall|x: usize| x < i && (self.view().contains(x) || other.view().contains(x))
                    ==> items@.contains(x),
            decreases bound - i,
        {
            if self.contains(i) || other.contains(i) {
                let ghost before = items@;
                items.push(i);
                proof {
                    assert forall|a: int, b: int|
                        0 <= a < b < items@.len() implies items@[a] < items@[b] by {
                        if b < items@.len() - 1 {
                            assert(before[a] < before[b]);
                        } else {
                            assert(items@[a] == before[a]);
                            assert(before.contains(before[a]));
                        }
                    }
                    assert forall|x: usize|
                        x < i + 1 && (self.view().contains(x) || other.view().contains(x))
                        implies items@.contains(x) by {
                        if x < i {
                            assert(before.contains(x));
                            let k = choose|k: int| 0 <= k < before.len() && before[k] == x;
                            assert(items@[k] == x);
                        } else {
                            assert(items@.last() == x);
                        }
                    }
                }
            }
            i += 1;
        }
        let r = RowSet { items };
        proof {
            assert forall|x: usize| self.view().contains(x) || other.view().contains(x)
                implies r.view().contains(x) by {
                assert(x < bound);
                assert(r.seq_view().contains(x));
            }
            assert(r.view() =~= self.view().union(other.view()));
        }
        r
    }

    /// The indices below `n` that are not in this set.
    pub fn complement(&self, n: usize) -> (r: RowSet)
        ensures
            r.wf(),
            r.view() == full_index_set(n as nat).difference(self.view()),
    {
        let mut items: Vec<usize> = Vec::new();
        let mut i: usize = 0;
        while i < n
            invariant
                i <= n,
                sorted_strict(items@),
                forall|x: usize| items@.contains(x) ==> x < i && !self.view().contains(x),
                forall|x: usize| x < i && !self.view().contains(x) ==> items@.contains(x),
            decreases n - i,
        {
            if !self.contains(i) {
                let ghost before = items@;
                items.push(i);
                proof {
                    assert forall|a: int, b: int|
                        0 <= a < b < items@.len() implies items@[a] < items@[b] by {
                        if b < items@.len() - 1 {
                            assert(before[a] < before[b]);
                        } else {
                            assert(items@[a] == before[a]);
                            assert(before.contains(before[a]));
                        }
                    }
                    assert forall|x: usize| x < i + 1 && !self.view().contains(x)
                        implies items@.contains(x) by {
                        if x < i {
                            assert(before.contains(x));
                            let k = choose|k: int| 0 <= k < before.len() && before[k] == x;
                            assert(items@[k] == x);
                        } else {
                            assert(items@.last() == x);
                        }
                    }
                }
            }
            i += 1;
        }
        let r = RowSet { items };
        proof {
            assert forall|x: usize| full_index_set(n as nat).contains(x) && !self.view().contains(
                x,
            ) implies r.view().contains(x) by {
                assert(r.seq_view().contains(x));
            }
            assert(r.view() =~= full_index_set(n as nat).difference(self.view()));
        }
        r
    }

    /// Appends an index larger than every present one.
    pub fn push_ascending(&mut self, x: usize)
        requires
            old(self).wf(),
            forall|k: int| 0 <= k < old(self).seq_view().len()
                ==> old(self).seq_view()[k] < x,
        ensures
            final(self).wf(),
            final(self).seq_view() == old(self).seq_view().push(x),
            final(self).view() == old(self).view().insert(x),
    {
        let ghost before = self.items@;
        self.items.push(x);
        proof {
            assert forall|a: int, b: int|
                0 <= a < b < self.items@.len() implies self.items@[a] < self.items@[b] by {
                if b < self.items@.len() - 1 {
                    assert(before[a] < before[b]);
                } else {
                    assert(self.items@[a] == before[a]);
                }
            }
            assert forall|y: usize| self.view().contains(y) implies old(self).view().insert(
                x,
            ).contains(y) by {
                let k = choose|k: int|
                    0 <= k < self.items@.len() && self.items@[k] == y;
                if k < self.items@.len() - 1 {
                    assert(before[k] == y);
                    assert(before.contains(y));
                }
            }
            assert forall|y: usize| old(self).view().insert(x).contains(y)
                implies self.view().contains(y) by {
                if y == x {
                    assert(self.items@.last() == x);
                    assert(self.items@.contains(y));
                } else {
                    let k = choose|k: int| 0 <= k < before.len() && before[k] == y;
                    assert(self.items@[k] == y);
                    assert(self.items@.contains(y));
                }
            }
            assert(self.view() =~= old(self).view().insert(x));
        }
    }

    /// An identical copy.
    pub fn duplicate(&self) -> (r: RowSet)
        ensures
            r.seq_view() == self.seq_view(),
            r.view() == self.view(),
            r.wf() == self.wf(),
    {
        let n = self.items.len();
        let mut items: Vec<usize> = Vec::new();
        let mut i: usize = 0;
        while i < n
            invariant
                n == self.seq_view().len(),
                i <= n,
                items@ =~= self.seq_view().take(i as int),
            decreases n - i,
        {
            items.push(self.items[i]);
            proof {
                assert(items@ =~= self.seq_view().take(i + 1));
            }
            i += 1;
        }
        proof {
            assert(self.seq_view().take(n as int) =~= self.seq_view());
        }
        RowSet { items }
    }
}

/// The ascending enumeration of a bounded set of indices.
pub open spec fn asc_seq_of(s: Set<usize>, b: nat) -> Seq<usize>
    decreases b,
{
    if b == 0 {
        Seq::empty()
    } else if s.contains((b - 1) as usize) {
        asc_seq_of(s, (b - 1) as nat) + seq![(b - 1) as usize]
    } else {
        asc_seq_of(s, (b - 1) as nat)
    }
}

/// Sets that agree below the bound enumerate alike.
pub proof fn lemma_asc_congruent(s1: Set<usize>, s2: Set<usize>, b: nat)
    requires
        forall|x: usize| (x as nat) < b ==> (s1.contains(x) <==> s2.contains(x)),
    ensures
        asc_seq_of(s1, b) == asc_seq_of(s2, b),
    decreases b,
{
    if b > 0 {
        lemma_asc_congruent(s1, s2, (b - 1) as nat);
    }
}

/// A strictly sorted sequence is the ascending enumeration of its set.
pub proof fn lemma_sorted_enum(q: Seq<usize>, s: Set<usize>, b: nat)
    requires
        b <= usize::MAX,
        sorted_strict(q),
        q.to_set() == s,
        forall|x: usize| s.contains(x) ==> (x as nat) < b,
    ensures
        q == asc_seq_of(s, b),
    decreases b,
{
    if b == 0 {
        if q.len() > 0 {
            assert(q.contains(q[0]));
            assert(s.contains(q[0]));
        }
        assert(q =~= asc_seq_of(s, 0));
    } else {
        let top = (b - 1) as usize;
        if s.contains(top) {
            assert(q.contains(top));
            assert(exists|k: int| 0 <= k < q.len() && q[k] == top);
            let k = choose|k: int| 0 <= k < q.len() && q[k] == top;
            if k < q.len() - 1 {
                assert(q[k] < q[k + 1]);
                assert(q.contains(q[k + 1]));
                assert(s.contains(q[k + 1]));
                assert((q[k + 1] as nat) < b);
                assert(false);
            }
            assert(k == q.len() - 1);
            let q2 = q.drop_last();
            assert(sorted_strict(q2)) by {
                assert(forall|i: int, j: int|
                    0 <= i < j < q2.len() ==> q2[i] == q[i] && q2[j] == q[j]);
            }
            let s2 = s.remove(top);
            assert(q2.to_set() =~= s2) by {
                assert forall|x: usize| q2.to_set().contains(x) implies s2.contains(x) by {
                    let j = choose|j: int| 0 <= j < q2.len() && q2[j] == x;
                    assert(q[j] == x);
                    assert(q.contains(x));
                    assert(q[j] < q[q.len() - 1]);
                }
                assert forall|x: usize| s2.contains(x) implies q2.to_set().contains(x) by {
                    assert(q.contains(x));
                    let j = choose|j: int| 0 <= j < q.len() && q[j] == x;
                    assert(j < q.len() - 1 || q[j] == top);
                    assert(q2[j] == x);
                    assert(q2.contains(x));
                }
            }
            assert forall|x: usize| s2.contains(x) implies (x as nat) < b - 1 by {
                assert(s.contains(x));
            }
            lemma_sorted_enum(q2, s2, (b - 1) as nat);
            lemma_asc_congruent(s2, s, (b - 1) as nat);
            assert(q =~= q2 + seq![top]);
        } else {
            assert forall|x: usize| s.contains(x) implies (x as nat) < b - 1 by {}
            lemma_sorted_enum(q, s, (b - 1) as nat);
        }
    }
}

} // verus!
