//! The settings switches of the main window: which setting a toggle flips
//! and whether the engine hears of it.
use vstd::prelude::*;

verus! {

/// A setting that a toggle flips.
#[derive(Clone, Copy, Debug, PartialEq, Eq, Structural)]
pub enum Switch {
    DiscordRpc,
    CensorshipRemove,
    NoDriveLine,
    HideUid,
    HideNotificationDots,
    CustomAddons,
}

/// What a flip of a setting asks for besides saving it.
#[derive(Clone, Copy, Debug, PartialEq, Eq, Structural)]
pub enum Follow {
    /// Nothing more.
    Nothing,
    /// The engine applies the new settings.
    EngineUpdate,
    /// Discord shows the launcher as idle, or nothing, by the new value.
    DiscordPresence,
}

/// The settings switches.
pub struct SettingsHandler;

impl SettingsHandler {
    /// The setting behind a toggle's position, and what its flip asks for
    /// (positions 0, 6 and 7 do nothing yet).
    pub fn toggled(index: i32) -> (r: Option<(Switch, Follow)>)
        ensures
            r == (if index == 1 {
                Some((Switch::DiscordRpc, Follow::DiscordPresence))
            } else if index == 2 {
                Some((Switch::CensorshipRemove, Follow::EngineUpdate))
            } else if index == 3 {
                Some((Switch::NoDriveLine, Follow::EngineUpdate))
            } else if index == 4 {
                Some((Switch::HideUid, Follow::EngineUpdate))
            } else if index == 5 {
                Some((Switch::HideNotificationDots, Follow::EngineUpdate))
            } else if index == 8 {
                Some((Switch::CustomAddons, Follow::Nothing))
            } else {
                None
            }),
    {
        if index == 1 {
            Some((Switch::DiscordRpc, Follow::DiscordPresence))
        } else if index == 2 {
            Some((Switch::CensorshipRemove, Follow::EngineUpdate))
        } else if index == 3 {
            Some((Switch::NoDriveLine, Follow::EngineUpdate))
        } else if index == 4 {
            Some((Switch::HideUid, Follow::EngineUpdate))
        } else if index == 5 {
            Some((Switch::HideNotificationDots, Follow::EngineUpdate))
        } else if index == 8 {
            Some((Switch::CustomAddons, Follow::Nothing))
        } else {
            None
        }
    }

    /// A flip sets a setting to the opposite of what it held (an unset
    /// custom-add-on switch counts as off).
    pub fn flipped(current: Option<bool>) -> (r: bool)
        ensures
            r == !(match current {
                Some(v) => v,
                None => false,
            }),
    {
        match current {
            Some(v) => !v,
            None => true,
        }
    }
}

} // verus!
