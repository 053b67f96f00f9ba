use vstd::prelude::*;

use crate::errors::GameError;

verus! {

/// A ledger of per-resource-kind balances: one integer slot per resource
/// kind, indexed by the kind's stable position in the catalog.
///
/// The ledger itself carries no non-negativity invariant; affordability is
/// enforced at the call site by checking `covers` before `substract`.
pub struct Resources(pub Vec<i32>);

impl View for Resources {
    type V = Seq<i32>;

    open spec fn view(&self) -> Seq<i32> {
        self.0@
    }
}

/// The number of slots two ledgers are compared over: the shorter length.
pub open spec fn zip_len(a: Seq<i32>, b: Seq<i32>) -> int {
    if a.len() <= b.len() {
        a.len() as int
    } else {
        b.len() as int
    }
}

/// `a` covers `b` when every compared slot of `a` is at least the
/// corresponding slot of `b`.
pub open spec fn covers_spec(a: Seq<i32>, b: Seq<i32>) -> bool {
    forall|i: int| 0 <= i < zip_len(a, b) ==> a[i] >= b[i]
}

impl Resources {
    /// The balance at position `r`, or `InvalidResourceIndex` if the ledger
    /// has no such slot.
    pub fn get(&self, r: usize) -> (result: Result<i32, GameError>)
        ensures
            r < self@.len() ==> result == Ok::<i32, GameError>(self@[r as int]),
            r >= self@.len() ==> result == Err::<i32, GameError>(GameError::InvalidResourceIndex),
    {
        if r < self.0.len() {
            Ok(self.0[r])
        } else {
            Err(GameError::InvalidResourceIndex)
        }
    }

    /// Overwrite the balance at position `r`; used for initial seeding.
    pub fn set(&mut self, r: usize, v: i32) -> (result: Result<(), GameError>)
        ensures
            r < old(self)@.len() ==> {
                &&& result == Ok::<(), GameError>(())
                &&& final(self)@ == old(self)@.update(r as int, v)
            },
            r >= old(self)@.len() ==> {
                &&& result == Err::<(), GameError>(GameError::InvalidResourceIndex)
                &&& final(self)@ == old(self)@
            },
    {
        if r < self.0.len() {
            self.0[r] = v;
            Ok(())
        } else {
            Err(GameError::InvalidResourceIndex)
        }
    }

    /// Add `v` to the balance at position `r` and return the new amount, or
    /// `InvalidResourceIndex` if the ledger has no such slot.
    pub fn update(&mut self, r: usize, v: i32) -> (result: Result<i32, GameError>)
        requires
            r < old(self)@.len() ==> i32::MIN <= old(self)@[r as int] + v <= i32::MAX,
        ensures
            r < old(self)@.len() ==> {
                &&& result == Ok::<i32, GameError>((old(self)@[r as int] + v) as i32)
                &&& final(self)@ == old(self)@.update(r as int, (old(self)@[r as int] + v) as i32)
            },
            r >= old(self)@.len() ==> {
                &&& result == Err::<i32, GameError>(GameError::InvalidResourceIndex)
                &&& final(self)@ == old(self)@
            },
    {
        if r < self.0.len() {
            let new_amount = self.0[r] + v;
            self.0[r] = new_amount;
            Ok(new_amount)
        } else {
            Err(GameError::InvalidResourceIndex)
        }
    }

    /// The number of resource slots.
    pub fn len(&self) -> (n: usize)
        ensures
            n == self@.len(),
    {
        self.0.len()
    }

    /// The sole affordability predicate: true exactly when every compared
    /// slot of this ledger is at least the corresponding slot of `other`.
    pub fn covers(&self, other: &Resources) -> (result: bool)
        ensures
            result == covers_spec(self@, other@),
    {
        let n = if self.0.len() <= other.0.len() {
            self.0.len()
        } else {
            other.0.len()
        };
        let mut i: usize = 0;
        while i < n
            invariant
                0 <= i <= n,
                n == zip_len(self@, other@),
                forall|j: int| 0 <= j < i ==> self@[j] >= other@[j],
            decreases n - i,
        {
            if self.0[i] < other.0[i] {
                return false;
            }
            i += 1;
        }
        true
    }

    /// Elementwise difference, returned as a new ledger over the compared
    /// slots. Performs no non-negativity check: callers that need a
    /// non-negative outcome must check `covers` first.
    pub fn substract(&mut self, cost: &Resources) -> (result: Resources)
        requires
            forall|i: int| #![trigger old(self)@[i]] 0 <= i < zip_len(old(self)@, cost@)
                ==> i32::MIN <= old(self)@[i] - cost@[i] <= i32::MAX,
        ensures
            final(self)@ == old(self)@,
            result@.len() == zip_len(old(self)@, cost@),
            forall|i: int| 0 <= i < result@.len() ==> result@[i] == old(self)@[i] - cost@[i],
    {
        let n = if self.0.len() <= cost.0.len() {
            self.0.len()
        } else {
            cost.0.len()
        };
        let mut out: Vec<i32> = Vec::new();
        let mut i: usize = 0;
        while i < n
            invariant
                0 <= i <= n,
                n == zip_len(self@, cost@),
                forall|j: int| #![trigger self@[j]] 0 <= j < n
                    ==> i32::MIN <= self@[j] - cost@[j] <= i32::MAX,
                out@.len() == i,
                forall|j: int| 0 <= j < i ==> out@[j] == self@[j] - cost@[j],
            decreases n - i,
        {
            out.push(self.0[i] - cost.0[i]);
            i += 1;
        }
        Resources(out)
    }

    /// A copy of this ledger with the same balances.
    pub fn duplicate(&self) -> (result: Resources)
        ensures
            result@ == self@,
    {
        let mut out: Vec<i32> = Vec::new();
        let mut i: usize = 0;
        while i < self.0.len()
            invariant
                0 <= i <= self@.len(),
                out@.len() == i,
                forall|j: int| 0 <= j < i ==> out@[j] == self@[j],
            decreases self@.len() - i,
        {
            out.push(self.0[i]);
            i += 1;
        }
        proof {
            assert(out@ =~= self@);
        }
        Resources(out)
    }
}

/// When one ledger covers another, the elementwise difference has no
/// negative slot. Without `covers` having held beforehand, `substract`
/// may well produce negative balances.
pub proof fn lemma_covers_substract_nonneg(a: Seq<i32>, b: Seq<i32>)
    requires
        covers_spec(a, b),
    ensures
        forall|i: int| 0 <= i < zip_len(a, b) ==> a[i] - b[i] >= 0,
{
}

} // verus!
