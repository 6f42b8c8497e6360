//! Sets of cluster numbers.

use vstd::prelude::*;

verus! {

/// A set of numbers below a fixed limit.
#[derive(Debug)]
pub struct ClusterSet {
    flags: Vec<bool>,
}

impl View for ClusterSet {
    type V = Set<u32>;

    closed spec fn view(&self) -> Set<u32> {
        Set::new(|c: u32| c < self.flags@.len() && self.flags@[c as int])
    }
}

/// How many of the first `n` numbers are in a set.
pub open spec fn members_below(set: Set<u32>, n: int) -> nat
    decreases n,
{
    if n <= 0 {
        0
    } else {
        members_below(set, n - 1) + if set.contains((n - 1) as u32) {
            1nat
        } else {
            0nat
        }
    }
}

/// How many numbers a set holds.
pub open spec fn size(set: Set<u32>) -> nat {
    members_below(set, 0x1_0000_0000)
}

proof fn lemma_members_bound(set: Set<u32>, n: int)
    requires
        n >= 0,
    ensures
        members_below(set, n) <= n,
    decreases n,
{
    if n > 0 {
        lemma_members_bound(set, n - 1);
    }
}

/// A set holds no more numbers than there are.
pub proof fn lemma_size(set: Set<u32>)
    ensures
        size(set) <= 0x1_0000_0000,
{
    lemma_members_bound(set, 0x1_0000_0000);
}

/// Whether `c` is the lowest number of a set that is not in another.
pub open spec fn is_lowest_outside(set: Set<u32>, avoid: Set<u32>, c: u32) -> bool {
    &&& set.contains(c) && !avoid.contains(c)
    &&& forall|x: u32| #[trigger] set.contains(x) && x < c ==> avoid.contains(x)
}

impl ClusterSet {
    /// The limit that the numbers stay below.
    pub closed spec fn limit(&self) -> nat {
        self.flags@.len()
    }

    /// No number of the set reaches the limit.
    pub proof fn lemma_below_limit(&self, c: u32)
        ensures
            self@.contains(c) ==> c < self.limit(),
    {
    }

    /// The limit that the numbers stay below.
    pub fn bound(&self) -> (limit: usize)
        ensures
            limit == self.limit(),
    {
        self.flags.len()
    }

    /// The empty set.
    pub fn new(limit: usize) -> (set: ClusterSet)
        ensures
            set@ == Set::<u32>::empty(),
            set.limit() == limit,
    {
        let mut flags: Vec<bool> = Vec::new();
        let mut i: usize = 0;
        while i < limit
            invariant
                i <= limit,
                flags@.len() == i,
                forall|k: int| 0 <= k < i ==> !#[trigger] flags@[k],
            decreases limit - i,
        {
            flags.push(false);
            i = i + 1;
        }
        let set: ClusterSet = ClusterSet { flags };
        assert(set@ =~= Set::<u32>::empty());
        set
    }

    /// Tells whether a number is in the set.
    pub fn contains(&self, c: u32) -> (yes: bool)
        ensures
            yes == self@.contains(c),
    {
        (c as u64) < self.flags.len() as u64 && self.flags[c as usize]
    }

    /// Adds a number.
    pub fn insert(&mut self, c: u32)
        requires
            c < old(self).limit(),
        ensures
            final(self)@ == old(self)@.insert(c),
            final(self).limit() == old(self).limit(),
    {
        let len: usize = self.flags.len();
        self.flags.set(c as usize, true);
        assert(self@ =~= old(self)@.insert(c));
    }

    /// Takes a number out.
    pub fn remove(&mut self, c: u32)
        ensures
            final(self)@ == old(self)@.remove(c),
            final(self).limit() == old(self).limit(),
    {
        if (c as u64) < self.flags.len() as u64 {
            self.flags.set(c as usize, false);
        }
        assert(self@ =~= old(self)@.remove(c));
    }

    /// Adds every number of a list.
    pub fn insert_all(&mut self, list: &Vec<u32>)
        requires
            forall|i: int| 0 <= i < list@.len() ==> #[trigger] list@[i] < old(self).limit(),
        ensures
            final(self)@ == old(self)@.union(list@.to_set()),
            final(self).limit() == old(self).limit(),
    {
        let ghost start = self@;
        let ghost limit = self.limit();
        let mut i: usize = 0;
        assert(start.union(list@.take(0).to_set()) =~= start);
        while i < list.len()
            invariant
                i <= list@.len(),
                self.limit() == limit,
                forall|k: int| 0 <= k < list@.len() ==> #[trigger] list@[k] < limit,
                self@ == start.union(list@.take(i as int).to_set()),
            decreases list@.len() - i,
        {
            let c: u32 = list[i];
            self.insert(c);
            proof {
                let taken = list@.take(i + 1);
                assert(taken =~= list@.take(i as int).push(c));
                assert(taken.to_set() =~= list@.take(i as int).to_set().insert(c)) by {
                    assert forall|x: u32|
                        taken.to_set().contains(x) <==> list@.take(i as int).to_set().insert(
                            c,
                        ).contains(x) by {
                        if list@.take(i as int).contains(x) {
                            let k = choose|k: int|
                                0 <= k < list@.take(i as int).len() && list@.take(i as int)[k] == x;
                            assert(taken[k] == x);
                        }
                        assert(taken[i as int] == c);
                        if taken.contains(x) && x != c {
                            let k = choose|k: int| 0 <= k < taken.len() && taken[k] == x;
                            assert(list@.take(i as int)[k] == x);
                        }
                    }
                }
                assert(self@ =~= start.union(taken.to_set()));
            }
            i = i + 1;
        }
        assert(list@.take(i as int) =~= list@);
    }

    /// How many numbers the set holds.
    pub fn len(&self) -> (count: u64)
        ensures
            count == size(self@),
    {
        let mut count: u64 = 0;
        let mut i: usize = 0;
        while i < self.flags.len() && i as u64 <= u32::MAX as u64
            invariant
                i <= self.flags@.len(),
                i <= 0x1_0000_0000,
                count <= i,
                count == members_below(self@, i as int),
            decreases self.flags@.len() - i,
        {
            if self.flags[i] {
                count = count + 1;
            }
            i = i + 1;
        }
        proof {
            lemma_no_more(self@, i as int, 0x1_0000_0000);
        }
        count
    }

    /// The lowest number of the set that is not in another.
    pub fn lowest_outside(&self, avoid: &ClusterSet) -> (lowest: Option<u32>)
        ensures
            match lowest {
                Some(c) => is_lowest_outside(self@, avoid@, c),
                None => forall|x: u32| #[trigger] self@.contains(x) ==> avoid@.contains(x),
            },
    {
        let mut c: u32 = 0;
        loop
            invariant
                forall|x: u32| #[trigger] self@.contains(x) && x < c ==> avoid@.contains(x),
            decreases u32::MAX - c,
        {
            if self.contains(c) && !avoid.contains(c) {
                return Some(c);
            }
            if c == u32::MAX || c as u64 >= self.flags.len() as u64 {
                return None;
            }
            c = c + 1;
        }
    }

    /// The lowest number of the set.
    pub fn first(&self) -> (lowest: Option<u32>)
        ensures
            match lowest {
                Some(c) => self@.contains(c) && forall|x: u32| #[trigger]
                    self@.contains(x) ==> c <= x,
                None => self@ == Set::<u32>::empty(),
            },
    {
        let none: ClusterSet = ClusterSet::new(0);
        let lowest: Option<u32> = self.lowest_outside(&none);
        proof {
            if lowest is None {
                assert(self@ =~= Set::<u32>::empty());
            }
        }
        lowest
    }

    /// Tells whether two sets hold the same numbers.
    pub fn same(&self, other: &ClusterSet) -> (same: bool)
        ensures
            same == (self@ == other@),
    {
        let mut c: u32 = 0;
        loop
            invariant
                forall|x: u32| x < c ==> (#[trigger] self@.contains(x) <==> other@.contains(x)),
            decreases u32::MAX - c,
        {
            if self.contains(c) != other.contains(c) {
                assert(self@ != other@);
                return false;
            }
            if c == u32::MAX || (c as u64 >= self.flags.len() as u64 && c as u64
                >= other.flags.len() as u64) {
                assert(self@ =~= other@);
                return true;
            }
            c = c + 1;
        }
    }
}

impl Clone for ClusterSet {
    fn clone(&self) -> (copy: Self)
        ensures
            copy@ == self@,
            copy.limit() == self.limit(),
    {
        let copy: ClusterSet = ClusterSet { flags: crate::views::copy_list(&self.flags) };
        assert(copy@ =~= self@);
        copy
    }
}

proof fn lemma_no_more(set: Set<u32>, from: int, to: int)
    requires
        0 <= from <= to <= 0x1_0000_0000,
        forall|c: u32| c >= from ==> !#[trigger] set.contains(c),
    ensures
        members_below(set, from) == members_below(set, to),
    decreases to,
{
    if from < to {
        lemma_no_more(set, from, to - 1);
    }
}

} // verus!
