use vstd::prelude::*;

use crate::state::ItemState;

verus! {

/// Where the view of `model` hangs when the item is in `state`: a grounded
/// view under the model itself (the model's transform places it); an
/// equipped view under the holder's hand socket, or the holder when it has
/// none, or the model when the link is missing; a stored view under the
/// container's inventory panel, and no view at all without a panel.
/// `link` is the holder or container, `socket` the holder's hand socket,
/// `panel` the container's inventory panel.
pub fn view_parent(
    model: u64,
    state: ItemState,
    link: Option<u64>,
    socket: Option<u64>,
    panel: Option<u64>,
) -> (r: Option<u64>)
    ensures
        r == match state {
            ItemState::OnGround => Some(model),
            ItemState::Equipped => match link {
                Some(holder) => match socket {
                    Some(s) => Some(s),
                    None => Some(holder),
                },
                None => Some(model),
            },
            ItemState::Stored => match link {
                Some(_) => panel,
                None => None::<u64>,
            },
        },
{
    match state {
        ItemState::OnGround => Some(model),
        ItemState::Equipped => match link {
            Some(holder) => match socket {
                Some(s) => Some(s),
                None => Some(holder),
            },
            None => Some(model),
        },
        ItemState::Stored => match link {
            Some(_) => panel,
            None => None,
        },
    }
}

/// How a tint is put on a view.
#[derive(Clone, Copy, Debug, PartialEq, Eq, Structural)]
pub enum TintPlan {
    /// A 3D view: swap in the tinted material, first stashing the untinted
    /// one when `stash` holds (it is not stashed yet).
    Material { stash: bool },
    /// A 2D view: set the background to the tint, first stashing the
    /// untinted color when `stash` holds.
    Background { stash: bool },
    /// The view has neither a material nor a background: nothing to tint.
    Nothing,
}

/// Decides how to tint a view. A material takes precedence over a
/// background; the untinted look is stashed only once, so tinting twice
/// still restores the original.
pub fn plan_tint(has_material: bool, material_stashed: bool, has_background: bool, color_stashed: bool) -> (r: TintPlan)
    ensures
        r == if has_material {
            TintPlan::Material { stash: !material_stashed }
        } else if has_background {
            TintPlan::Background { stash: !color_stashed }
        } else {
            TintPlan::Nothing
        },
{
    if has_material {
        TintPlan::Material { stash: !material_stashed }
    } else if has_background {
        TintPlan::Background { stash: !color_stashed }
    } else {
        TintPlan::Nothing
    }
}

} // verus!
