//! The engine's standard actions.
use crate::action_table::Action;
use vstd::prelude::*;

verus! {

/// Interact with whatever is in front of the player: talk, harvest, open.
pub fn interact() -> (r: Action)
    ensures
        r.0@ == "interact"@,
{
    Action("interact")
}

/// Back out of a menu or dialogue.
pub fn cancel() -> (r: Action)
    ensures
        r.0@ == "cancel"@,
{
    Action("cancel")
}

/// Swing or apply the selected tool.
pub fn use_tool() -> (r: Action)
    ensures
        r.0@ == "use"@,
{
    Action("use")
}

/// Open the inventory.
pub fn inventory() -> (r: Action)
    ensures
        r.0@ == "inventory"@,
{
    Action("inventory")
}

/// Open the pause menu.
pub fn menu() -> (r: Action)
    ensures
        r.0@ == "menu"@,
{
    Action("menu")
}

/// Move faster while held.
pub fn sprint() -> (r: Action)
    ensures
        r.0@ == "sprint"@,
{
    Action("sprint")
}

/// Select the next hotbar slot.
pub fn next_slot() -> (r: Action)
    ensures
        r.0@ == "next_slot"@,
{
    Action("next_slot")
}

/// Select the previous hotbar slot.
pub fn previous_slot() -> (r: Action)
    ensures
        r.0@ == "previous_slot"@,
{
    Action("previous_slot")
}

} // verus!
