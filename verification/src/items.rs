//! The explorer's bag, as the kinds of the resources it holds.
use vstd::prelude::*;
use crate::resources::{BasicKind, ComplexKind, ResourceKind};

verus! {

/// How many entries of `s` are `k`.
pub open spec fn count_of(s: Seq<ResourceKind>, k: ResourceKind) -> nat
    decreases s.len(),
{
    if s.len() == 0 {
        0
    } else {
        count_of(s.drop_last(), k) + if s.last() == k { 1nat } else { 0nat }
    }
}

/// Law: putting a resource in the bag adds one to the count of its kind and
/// leaves the count of every other kind as it was.
pub proof fn lemma_put_then_count(bag: Seq<ResourceKind>, k: ResourceKind, other: ResourceKind)
    ensures
        count_of(bag.push(k), k) == count_of(bag, k) + 1,
        other != k ==> count_of(bag.push(k), other) == count_of(bag, other),
{
    assert(bag.push(k).drop_last() =~= bag);
}

/// Law: taking a resource that is last in the bag removes exactly one of its
/// kind.
pub proof fn lemma_take_then_count(bag: Seq<ResourceKind>, k: ResourceKind)
    requires
        taken(bag, k) is Some,
    ensures
        count_of(after_take(bag, k), k) + 1 == count_of(bag, k),
{
}

/// Taking `k` out of `bag` does not fail: no `k` stands anywhere but,
/// possibly, in the last place.
pub open spec fn take_ok(bag: Seq<ResourceKind>, k: ResourceKind) -> bool {
    forall|i: int| 0 <= i < bag.len() - 1 ==> bag[i] != k
}

/// What taking `k` out of `bag` hands back: the last entry, if it is a `k`.
pub open spec fn taken(bag: Seq<ResourceKind>, k: ResourceKind) -> Option<ResourceKind> {
    if bag.len() > 0 && bag.last() == k {
        Some(k)
    } else {
        None
    }
}

/// The bag after taking `k` out of it.
pub open spec fn after_take(bag: Seq<ResourceKind>, k: ResourceKind) -> Seq<ResourceKind> {
    if bag.len() > 0 && bag.last() == k {
        bag.drop_last()
    } else {
        bag
    }
}

/// The explorer's bag of resources.
pub struct Inventory {
    bag: Vec<ResourceKind>,
}

impl View for Inventory {
    type V = Seq<ResourceKind>;

    closed spec fn view(&self) -> Seq<ResourceKind> {
        self.bag@
    }
}

impl Inventory {
    pub fn new(bag: Vec<ResourceKind>) -> (r: Inventory)
        ensures
            r@ == bag@,
    {
        Inventory { bag }
    }

    /// The bag itself, for direct changes.
    pub fn get_bag(&mut self) -> (r: &mut Vec<ResourceKind>)
        ensures
            r@ == old(self)@,
            final(self)@ == final(r)@,
    {
        &mut self.bag
    }

    /// Puts a resource away in the bag.
    pub fn put_in_bag(&mut self, resource: ResourceKind)
        ensures
            final(self)@ == old(self)@.push(resource),
    {
        self.bag.push(resource);
    }

    /// Whether taking `first` and then `second` out of the bag goes through
    /// and hands both back.
    pub fn can_take_pair(&self, first: ResourceKind, second: ResourceKind) -> (r: bool)
        ensures
            r == ({
                let after = after_take(self@, first);
                &&& take_ok(self@, first)
                &&& taken(self@, first) is Some
                &&& take_ok(after, second)
                &&& taken(after, second) is Some
            }),
    {
        let n = self.bag.len();
        if n < 2 {
            return false;
        }
        if self.bag[n - 1] != first || self.bag[n - 2] != second {
            return false;
        }
        let ghost after = after_take(self@, first);
        assert(after == self@.drop_last());
        let mut i: usize = 0;
        while i < n - 1
            invariant
                n == self.bag@.len(),
                n >= 2,
                after == self.bag@.drop_last(),
                0 <= i <= n - 1,
                forall|j: int| 0 <= j < i ==> self.bag@[j] != first,
                forall|j: int| 0 <= j < i && j < n - 2 ==> after[j] != second,
            decreases n - 1 - i,
        {
            if self.bag[i] == first {
                return false;
            }
            if i < n - 2 && self.bag[i] == second {
                assert(after[i as int] == second);
                return false;
            }
            i = i + 1;
        }
        true
    }

    /// How many resources of the given kind the bag holds.
    pub fn has_resource(&self, resource_type: ResourceKind) -> (n: usize)
        ensures
            n == count_of(self@, resource_type),
    {
        let mut n: usize = 0;
        let mut i: usize = 0;
        while i < self.bag.len()
            invariant
                0 <= i <= self.bag@.len(),
                n == count_of(self.bag@.take(i as int), resource_type),
                n <= i,
            decreases self.bag@.len() - i,
        {
            assert(self.bag@.take(i + 1).drop_last() =~= self.bag@.take(i as int));
            if self.bag[i] == resource_type {
                n = n + 1;
            }
            i = i + 1;
        }
        assert(self.bag@.take(i as int) =~= self.bag@);
        n
    }

    /// Takes a basic resource of the given kind out of the bag.
    pub fn get_basic(&mut self, what: BasicKind) -> (r: Option<ResourceKind>)
        requires
            take_ok(old(self)@, ResourceKind::Basic(what)),
        ensures
            r == taken(old(self)@, ResourceKind::Basic(what)),
            final(self)@ == after_take(old(self)@, ResourceKind::Basic(what)),
    {
        let ghost start = self.bag@;
        let n = self.bag.len();
        let mut ret: Option<ResourceKind> = None;
        let mut i: usize = 0;
        while i < n
            invariant
                n == start.len(),
                0 <= i <= n,
                take_ok(start, ResourceKind::Basic(what)),
                ret is None ==> self.bag@ == start,
                ret is None ==> forall|j: int| 0 <= j < i ==> start[j] != ResourceKind::Basic(what),
                ret is Some ==> i == n && n > 0 && start.last() == ResourceKind::Basic(what)
                    && ret == Some(ResourceKind::Basic(what)) && self.bag@ == start.drop_last(),
            decreases n - i,
        {
            match self.bag[i] {
                ResourceKind::Basic(a) => {
                    if ret.is_none() && a == what {
                        ret = Some(self.bag.remove(i));
                    }
                },
                _ => {
                    ret = None;
                },
            }
            i = i + 1;
        }
        ret
    }

    /// Takes a complex resource of the given kind out of the bag.
    pub fn get_complex(&mut self, what: ComplexKind) -> (r: Option<ResourceKind>)
        requires
            take_ok(old(self)@, ResourceKind::Complex(what)),
        ensures
            r == taken(old(self)@, ResourceKind::Complex(what)),
            final(self)@ == after_take(old(self)@, ResourceKind::Complex(what)),
    {
        let ghost start = self.bag@;
        let n = self.bag.len();
        let mut ret: Option<ResourceKind> = None;
        let mut i: usize = 0;
        while i < n
            invariant
                n == start.len(),
                0 <= i <= n,
                take_ok(start, ResourceKind::Complex(what)),
                ret is None ==> self.bag@ == start,
                ret is None ==> forall|j: int| 0 <= j < i ==> start[j] != ResourceKind::Complex(what),
                ret is Some ==> i == n && n > 0 && start.last() == ResourceKind::Complex(what)
                    && ret == Some(ResourceKind::Complex(what)) && self.bag@ == start.drop_last(),
            decreases n - i,
        {
            match self.bag[i] {
                ResourceKind::Complex(b) => {
                    if ret.is_none() && what == b {
                        ret = Some(self.bag.remove(i));
                    }
                },
                _ => {
                    ret = None;
                },
            }
            i = i + 1;
        }
        ret
    }
}

} // verus!
