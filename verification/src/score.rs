//! Scores: the running score of the explorer and the expected gain of a plan.
use vstd::prelude::*;
use core::cmp::Ordering;
use core::ops::Add;

verus! {

/// The explorer's running score.
pub struct Score {
    pub s: i32,
}

impl Score {
    /// `self += rhs`.
    pub fn add_assign(&mut self, rhs: Score)
        requires
            i32::MIN <= old(self).s + rhs.s <= i32::MAX,
        ensures
            final(self).s == old(self).s + rhs.s,
    {
        self.s = self.s + rhs.s;
    }

    /// `self -= rhs`.
    pub fn sub_assign(&mut self, rhs: Score)
        requires
            i32::MIN <= old(self).s - rhs.s <= i32::MAX,
        ensures
            final(self).s == old(self).s - rhs.s,
    {
        self.s = self.s - rhs.s;
    }
}

/// The score a plan is expected to bring.
#[derive(Clone, Copy, Debug)]
pub struct Expectedscore {
    pub s: i32,
}

impl Expectedscore {
    pub fn new(s: i32) -> (r: Expectedscore)
        ensures
            r.s == s,
    {
        Expectedscore { s }
    }

    /// The same amount as a running score.
    pub fn to_score(self) -> (r: Score)
        ensures
            r.s == self.s,
    {
        Score { s: self.s }
    }
}

impl Add for Expectedscore {
    type Output = Expectedscore;

    fn add(self, rhs: Expectedscore) -> (r: Expectedscore) {
        Expectedscore { s: self.s + rhs.s }
    }
}

impl vstd::std_specs::ops::AddSpecImpl for Expectedscore {
    open spec fn obeys_add_spec() -> bool {
        true
    }

    open spec fn add_req(self, rhs: Expectedscore) -> bool {
        i32::MIN <= self.s + rhs.s <= i32::MAX
    }

    open spec fn add_spec(self, rhs: Expectedscore) -> Expectedscore {
        Expectedscore { s: (self.s + rhs.s) as i32 }
    }
}

impl PartialEq for Expectedscore {
    fn eq(&self, other: &Expectedscore) -> (r: bool) {
        self.s == other.s
    }
}

impl vstd::std_specs::cmp::PartialEqSpecImpl for Expectedscore {
    open spec fn obeys_eq_spec() -> bool {
        true
    }

    open spec fn eq_spec(&self, other: &Expectedscore) -> bool {
        self.s == other.s
    }
}

impl PartialOrd for Expectedscore {
    fn partial_cmp(&self, other: &Expectedscore) -> (r: Option<Ordering>) {
        self.s.partial_cmp(&other.s)
    }
}

impl vstd::std_specs::cmp::PartialOrdSpecImpl for Expectedscore {
    open spec fn obeys_partial_cmp_spec() -> bool {
        true
    }

    open spec fn partial_cmp_spec(&self, other: &Expectedscore) -> Option<Ordering> {
        if self.s < other.s {
            Some(Ordering::Less)
        } else if self.s == other.s {
            Some(Ordering::Equal)
        } else {
            Some(Ordering::Greater)
        }
    }
}

} // verus!
