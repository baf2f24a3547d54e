use vstd::prelude::*;

verus! {

/// The three mutually exclusive placements of an item, as a plain value.
#[derive(Clone, Copy, Debug, PartialEq, Eq, Structural)]
pub enum ItemState {
    OnGround,
    Equipped,
    Stored,
}

impl ItemState {
    /// The state an item is in, read from which of the three state markers it
    /// carries; checked in the order ground, equipped, stored. `None` when it
    /// carries none.
    pub fn of(on_ground: bool, equipped: bool, stored: bool) -> (r: Option<ItemState>)
        ensures
            r == if on_ground {
                Some(ItemState::OnGround)
            } else if equipped {
                Some(ItemState::Equipped)
            } else if stored {
                Some(ItemState::Stored)
            } else {
                None::<ItemState>
            },
    {
        if on_ground {
            Some(ItemState::OnGround)
        } else if equipped {
            Some(ItemState::Equipped)
        } else if stored {
            Some(ItemState::Stored)
        } else {
            None
        }
    }
}

/// Where an item is: lying on the ground, equipped by a holder, or stored
/// in a container. Holders and containers are named by entity id. The enum
/// gives every item exactly one placement.
#[derive(Clone, Copy, Debug, PartialEq, Eq, Structural)]
pub enum Placement {
    OnGround,
    EquippedBy(u64),
    StoredIn(u64),
}

impl Placement {
    pub open spec fn spec_kind(self) -> ItemState {
        match self {
            Placement::OnGround => ItemState::OnGround,
            Placement::EquippedBy(_) => ItemState::Equipped,
            Placement::StoredIn(_) => ItemState::Stored,
        }
    }

    pub open spec fn spec_link(self) -> Option<u64> {
        match self {
            Placement::OnGround => None,
            Placement::EquippedBy(holder) => Some(holder),
            Placement::StoredIn(container) => Some(container),
        }
    }

    /// The plain state this placement is in.
    pub fn kind(&self) -> (r: ItemState)
        ensures
            r == self.spec_kind(),
    {
        match self {
            Placement::OnGround => ItemState::OnGround,
            Placement::EquippedBy(_) => ItemState::Equipped,
            Placement::StoredIn(_) => ItemState::Stored,
        }
    }

    /// The holder or container the item is linked to, if any.
    pub fn link(&self) -> (r: Option<u64>)
        ensures
            r == self.spec_link(),
    {
        match self {
            Placement::OnGround => None,
            Placement::EquippedBy(holder) => Some(*holder),
            Placement::StoredIn(container) => Some(*container),
        }
    }
}

/// What is wrong with an item that carries `marker_count` state markers:
/// nothing when it carries exactly one.
pub fn axis_violation(marker_count: usize) -> (r: Option<&'static str>)
    ensures
        r is None <==> marker_count == 1,
        marker_count == 0 ==> r == Some("item has no state marker"),
        marker_count > 1 ==> r == Some("item has more than one state marker"),
{
    if marker_count == 0 {
        Some("item has no state marker")
    } else if marker_count == 1 {
        None
    } else {
        Some("item has more than one state marker")
    }
}

} // verus!
