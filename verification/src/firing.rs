use vstd::prelude::*;

verus! {

/// Rounds left in a firearm's magazine.
#[derive(Clone, Copy, Debug, PartialEq, Eq, Structural)]
pub struct Ammo(pub u32);

/// What pulling the trigger does.
#[derive(Clone, Copy, Debug, PartialEq, Eq, Structural)]
pub enum FireOutcome {
    Fired,
    /// The last shot was too recent.
    Cooldown,
    /// The magazine is empty.
    Empty,
}

/// The firing rule: an empty magazine never fires; otherwise the gun fires
/// unless it is still cooling down from its last shot (`cooling`: a last
/// shot exists and less than the effective cooldown has passed since).
pub fn try_fire(ammo: &Ammo, cooling: bool) -> (r: FireOutcome)
    ensures
        r == if ammo.0 == 0 {
            FireOutcome::Empty
        } else if cooling {
            FireOutcome::Cooldown
        } else {
            FireOutcome::Fired
        },
{
    if ammo.0 == 0 {
        return FireOutcome::Empty;
    }
    if cooling {
        return FireOutcome::Cooldown;
    }
    FireOutcome::Fired
}

/// Pulls the trigger of an equipped gun: a shot that fires spends exactly
/// one round; otherwise the magazine is untouched.
pub fn fire(ammo: &mut Ammo, cooling: bool) -> (r: FireOutcome)
    ensures
        r == if old(ammo).0 == 0 {
            FireOutcome::Empty
        } else if cooling {
            FireOutcome::Cooldown
        } else {
            FireOutcome::Fired
        },
        r == FireOutcome::Fired ==> final(ammo).0 == old(ammo).0 - 1,
        r != FireOutcome::Fired ==> final(ammo).0 == old(ammo).0,
{
    let outcome = try_fire(ammo, cooling);
    if outcome == FireOutcome::Fired {
        ammo.0 = ammo.0 - 1;
    }
    outcome
}

} // verus!
