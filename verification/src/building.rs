use vstd::prelude::*;

use crate::grid::Coord;
use crate::resources::Resources;

verus! {

/// A per-tick production policy, carried by each building archetype.
///
/// Rules are deterministic functions of the ledger and the tick index alone,
/// so tick processing stays order-independent across buildings of one type.
#[derive(Clone, Copy, PartialEq, Eq, Structural, Debug)]
pub enum UpdateRule {
    /// On every tick whose index is a multiple of `period`, add `amount`
    /// to the resource at position `kind`.
    Produce { period: i32, kind: usize, amount: i32 },
    /// Produce nothing.
    Idle,
}

/// A rule is valid for a ledger of `slots` slots when its period is positive
/// and its resource position exists.
pub open spec fn rule_wf(r: UpdateRule, slots: int) -> bool {
    match r {
        UpdateRule::Produce { period, kind, amount } => period > 0 && (kind as int) < slots,
        UpdateRule::Idle => true,
    }
}

/// The ledger balances after one application of a rule, over unbounded
/// integers.
pub open spec fn apply_rule_spec(r: UpdateRule, led: Seq<int>, tick: int) -> Seq<int> {
    match r {
        UpdateRule::Produce { period, kind, amount } => if tick % (period as int) == 0 {
            led.update(kind as int, led[kind as int] + amount)
        } else {
            led
        },
        UpdateRule::Idle => led,
    }
}

/// The balances of a ledger as unbounded integers.
pub open spec fn to_int_seq(s: Seq<i32>) -> Seq<int> {
    s.map_values(|v: i32| v as int)
}

/// The ledger after every building's rule has run once, in placement order.
pub open spec fn apply_all_spec(bs: Seq<Building>, led: Seq<int>, tick: int) -> Seq<int>
    decreases bs.len(),
{
    if bs.len() == 0 {
        led
    } else {
        apply_rule_spec(bs.last().update_rule, apply_all_spec(bs.drop_last(), led, tick), tick)
    }
}

/// Every balance fits a 32-bit slot.
pub open spec fn ledger_fits_i32(s: Seq<int>) -> bool {
    forall|i: int| 0 <= i < s.len() ==> i32::MIN <= #[trigger] s[i] <= i32::MAX
}

/// Applying one valid rule keeps the slot count.
pub proof fn lemma_apply_rule_len(r: UpdateRule, led: Seq<int>, tick: int)
    requires
        rule_wf(r, led.len() as int),
    ensures
        apply_rule_spec(r, led, tick).len() == led.len(),
{
}

/// Applying every valid rule keeps the slot count.
pub proof fn lemma_apply_all_len(bs: Seq<Building>, led: Seq<int>, tick: int)
    requires
        forall|k: int| 0 <= k < bs.len() ==> rule_wf((#[trigger] bs[k]).update_rule, led.len() as int),
    ensures
        apply_all_spec(bs, led, tick).len() == led.len(),
    decreases bs.len(),
{
    if bs.len() > 0 {
        lemma_apply_all_len(bs.drop_last(), led, tick);
        lemma_apply_rule_len(bs.last().update_rule, apply_all_spec(bs.drop_last(), led, tick), tick);
    }
}

impl UpdateRule {
    /// Apply this rule once to `res` for the given tick index.
    pub fn apply(self, res: &mut Resources, tick: i32)
        requires
            rule_wf(self, old(res)@.len() as int),
            tick >= 0,
            (match self {
                UpdateRule::Produce { period, kind, amount } => tick % period == 0
                    ==> i32::MIN <= old(res)@[kind as int] + amount <= i32::MAX,
                UpdateRule::Idle => true,
            }),
        ensures
            final(res)@.len() == old(res)@.len(),
            to_int_seq(final(res)@) == apply_rule_spec(self, to_int_seq(old(res)@), tick as int),
    {
        match self {
            UpdateRule::Produce { period, kind, amount } => {
                if tick % period == 0 {
                    let _ = res.update(kind, amount);
                    proof {
                        assert(to_int_seq(res@) =~= apply_rule_spec(
                            self,
                            to_int_seq(old(res)@),
                            tick as int,
                        ));
                    }
                } else {
                    proof {
                        assert(to_int_seq(res@) =~= to_int_seq(old(res)@));
                    }
                }
            },
            UpdateRule::Idle => {
                proof {
                    assert(to_int_seq(res@) =~= to_int_seq(old(res)@));
                }
            },
        }
    }
}

/// A building: either an immutable archetype in the catalog (top-left at the
/// origin) or a placed instance, which carries a copy of the archetype's
/// footprint, cost and update rule anchored at its own top-left cell.
pub struct Building {
    pub btype: usize,
    pub topleft: Coord,
    pub dimxy: Coord,
    pub cost: Resources,
    pub update_rule: UpdateRule,
}

impl Building {
    /// A building is valid for a ledger of `slots` slots when its footprint
    /// is non-negative, its cost has one non-negative slot per resource
    /// kind, and its rule is valid.
    pub open spec fn wf(self, slots: int) -> bool {
        &&& 0 <= self.dimxy.x
        &&& 0 <= self.dimxy.y
        &&& self.cost@.len() == slots
        &&& forall|i: int| 0 <= i < slots ==> self.cost@[i] >= 0
        &&& rule_wf(self.update_rule, slots)
    }

    /// A new archetype, anchored at the origin.
    pub fn new_type(btype: usize, dimxy: Coord, cost: Resources, update_rule: UpdateRule) -> (b:
        Building)
        ensures
            b.btype == btype,
            b.topleft == (Coord { x: 0, y: 0 }),
            b.dimxy == dimxy,
            b.cost@ == cost@,
            b.update_rule == update_rule,
    {
        Building { btype, topleft: Coord::new(0, 0), dimxy, cost, update_rule }
    }

    /// This building re-anchored at `topleft`: the token that is actually
    /// placed on the map.
    pub fn new_token(self, topleft: Coord) -> (b: Building)
        ensures
            b.btype == self.btype,
            b.topleft == topleft,
            b.dimxy == self.dimxy,
            b.cost@ == self.cost@,
            b.update_rule == self.update_rule,
    {
        let mut t = self;
        t.topleft = topleft;
        t
    }

    /// A copy of this building with equal fields.
    pub fn duplicate(&self) -> (b: Building)
        ensures
            b.btype == self.btype,
            b.topleft == self.topleft,
            b.dimxy == self.dimxy,
            b.cost@ == self.cost@,
            b.update_rule == self.update_rule,
    {
        Building {
            btype: self.btype,
            topleft: self.topleft,
            dimxy: self.dimxy,
            cost: self.cost.duplicate(),
            update_rule: self.update_rule,
        }
    }
}

} // verus!
