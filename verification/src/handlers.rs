//! The window's smaller handlers: what the launch menu and the bottom icons
//! do, where a popup's answer goes, what a repair runs, the toast, and
//! which theme is selected.
use vstd::prelude::*;
use crate::idset::{owned, same_text};
use crate::text::{concat_chars, decimal, decimal_chars, from_chars, to_chars};

verus! {

// ---------------------------------------------------------------------
// Buttons

/// What an entry of the launch menu does.
#[derive(Clone, Copy, Debug, PartialEq, Eq, Structural)]
pub enum MenuAction {
    RepairAurora,
    CheckForUpdates,
    AddDesktopShortcut,
    OpenModsFolder,
    KillGame,
}

/// What a bottom icon does to the window.
#[derive(Clone, Copy, Debug, PartialEq, Eq, Structural)]
pub enum IconAction {
    ToggleMenu,
    ToggleModManager,
}

/// One checkbox of the repair popup.
pub struct Checkbox {
    pub label: String,
    pub required: bool,
    pub checked: bool,
}

/// The window's buttons.
pub struct ButtonHandler;

impl ButtonHandler {
    /// The launch menu's entries by position (3 and others do nothing).
    pub fn launch_menu_action(index: i32) -> (r: Option<MenuAction>)
        ensures
            r == (if index == 0 {
                Some(MenuAction::RepairAurora)
            } else if index == 1 {
                Some(MenuAction::CheckForUpdates)
            } else if index == 2 {
                Some(MenuAction::AddDesktopShortcut)
            } else if index == 4 {
                Some(MenuAction::OpenModsFolder)
            } else if index == 5 {
                Some(MenuAction::KillGame)
            } else {
                None
            }),
    {
        if index == 0 {
            Some(MenuAction::RepairAurora)
        } else if index == 1 {
            Some(MenuAction::CheckForUpdates)
        } else if index == 2 {
            Some(MenuAction::AddDesktopShortcut)
        } else if index == 4 {
            Some(MenuAction::OpenModsFolder)
        } else if index == 5 {
            Some(MenuAction::KillGame)
        } else {
            None
        }
    }

    /// The bottom icons by position (2 and 3 open links through popups).
    pub fn bottom_icon_action(index: i32) -> (r: Option<IconAction>)
        ensures
            r == (if index == 0 {
                Some(IconAction::ToggleMenu)
            } else if index == 1 {
                Some(IconAction::ToggleModManager)
            } else {
                None
            }),
    {
        if index == 0 {
            Some(IconAction::ToggleMenu)
        } else if index == 1 {
            Some(IconAction::ToggleModManager)
        } else {
            None
        }
    }

    /// The repair popup's checkboxes: validate the files (checked), clean
    /// the cache (unchecked), remove injected files (checked).
    pub fn repair_checkboxes() -> (r: Vec<Checkbox>)
        ensures
            r@.len() == 3,
            r@[0].label@ == "Validate Aurora Files"@ && r@[0].required && r@[0].checked,
            r@[1].label@ == "Clean Cache"@ && r@[1].required && !r@[1].checked,
            r@[2].label@ == "Remove Injected Files"@ && r@[2].required && r@[2].checked,
    {
        let mut v: Vec<Checkbox> = Vec::new();
        v.push(Checkbox { label: owned("Validate Aurora Files"), required: true, checked: true });
        v.push(Checkbox { label: owned("Clean Cache"), required: true, checked: false });
        v.push(Checkbox { label: owned("Remove Injected Files"), required: true, checked: true });
        v
    }
}

// ---------------------------------------------------------------------
// Popups

/// Where a popup's "yes" goes.
#[derive(Clone, Copy, Debug, PartialEq, Eq, Structural)]
pub enum ConfirmAction {
    OpenDiscord,
    OpenGameBanana,
    DeleteScreenshots,
    DeleteAddon,
    StartUpdate,
    DeleteLuaScript,
    Exit,
    IgnoreChecksum,
    Repair,
}

/// Where a popup's "no" goes.
#[derive(Clone, Copy, Debug, PartialEq, Eq, Structural)]
pub enum CancelAction {
    Exit,
    KeepScreenshots,
    RevertIgnoreChecksum,
}

pub open spec fn spec_confirm_action(id: Seq<char>) -> Option<ConfirmAction> {
    if id == "discord-popup"@ {
        Some(ConfirmAction::OpenDiscord)
    } else if id == "gamebanana-popup"@ {
        Some(ConfirmAction::OpenGameBanana)
    } else if id == "screenshot-delete"@ {
        Some(ConfirmAction::DeleteScreenshots)
    } else if id == "addon-delete"@ {
        Some(ConfirmAction::DeleteAddon)
    } else if id == "update-popup"@ {
        Some(ConfirmAction::StartUpdate)
    } else if id == "lua-delete"@ {
        Some(ConfirmAction::DeleteLuaScript)
    } else if id == "beta-phase-inactive"@ {
        Some(ConfirmAction::Exit)
    } else if id == "ignore-checksum"@ {
        Some(ConfirmAction::IgnoreChecksum)
    } else if id == "repair"@ {
        Some(ConfirmAction::Repair)
    } else {
        None
    }
}

pub open spec fn spec_cancel_action(id: Seq<char>) -> Option<CancelAction> {
    if id == "beta-phase-inactive"@ {
        Some(CancelAction::Exit)
    } else if id == "screenshot-delete"@ {
        Some(CancelAction::KeepScreenshots)
    } else if id == "ignore-checksum"@ {
        Some(CancelAction::RevertIgnoreChecksum)
    } else {
        None
    }
}

/// The popup's answers.
pub struct PopupHandler;

impl PopupHandler {
    /// What "yes" on the popup with this ID does.
    pub fn confirm_action(id: &str) -> (r: Option<ConfirmAction>)
        ensures
            r == spec_confirm_action(id@),
    {
        if same_text(id, "discord-popup") {
            Some(ConfirmAction::OpenDiscord)
        } else if same_text(id, "gamebanana-popup") {
            Some(ConfirmAction::OpenGameBanana)
        } else if same_text(id, "screenshot-delete") {
            Some(ConfirmAction::DeleteScreenshots)
        } else if same_text(id, "addon-delete") {
            Some(ConfirmAction::DeleteAddon)
        } else if same_text(id, "update-popup") {
            Some(ConfirmAction::StartUpdate)
        } else if same_text(id, "lua-delete") {
            Some(ConfirmAction::DeleteLuaScript)
        } else if same_text(id, "beta-phase-inactive") {
            Some(ConfirmAction::Exit)
        } else if same_text(id, "ignore-checksum") {
            Some(ConfirmAction::IgnoreChecksum)
        } else if same_text(id, "repair") {
            Some(ConfirmAction::Repair)
        } else {
            None
        }
    }

    /// What "no" on the popup with this ID does.
    pub fn cancel_action(id: &str) -> (r: Option<CancelAction>)
        ensures
            r == spec_cancel_action(id@),
    {
        if same_text(id, "beta-phase-inactive") {
            Some(CancelAction::Exit)
        } else if same_text(id, "screenshot-delete") {
            Some(CancelAction::KeepScreenshots)
        } else if same_text(id, "ignore-checksum") {
            Some(CancelAction::RevertIgnoreChecksum)
        } else {
            None
        }
    }
}

// ---------------------------------------------------------------------
// Repair

/// One step of a repair.
#[derive(Clone, Copy, Debug, PartialEq, Eq, Structural)]
pub enum RepairStep {
    KillProcesses,
    Validate,
    Sanitize,
    CleanCache,
}

/// The repair of Aurora's files.
pub struct RepairHandler;

impl RepairHandler {
    /// The steps a repair runs, in order: the game is stopped first, then
    /// the chosen steps run (validation, removal of injected files, cache
    /// cleaning).
    pub fn plan(validate_files: bool, clean_cache: bool, remove_files: bool) -> (r: Vec<RepairStep>)
        ensures
            r@ == seq![RepairStep::KillProcesses] + (if validate_files { seq![RepairStep::Validate] } else { seq![] })
                + (if remove_files { seq![RepairStep::Sanitize] } else { seq![] }) + (if clean_cache {
                seq![RepairStep::CleanCache]
            } else {
                seq![]
            }),
    {
        let mut v: Vec<RepairStep> = Vec::new();
        v.push(RepairStep::KillProcesses);
        if validate_files {
            v.push(RepairStep::Validate);
        }
        if remove_files {
            v.push(RepairStep::Sanitize);
        }
        if clean_cache {
            v.push(RepairStep::CleanCache);
        }
        assert(v@ =~= seq![RepairStep::KillProcesses] + (if validate_files { seq![RepairStep::Validate] } else { seq![] })
            + (if remove_files { seq![RepairStep::Sanitize] } else { seq![] }) + (if clean_cache {
            seq![RepairStep::CleanCache]
        } else {
            seq![]
        }));
        v
    }
}

// ---------------------------------------------------------------------
// Toast

/// The toast shown at the bottom of the window.
pub struct ToastHandler {
    text: String,
    kind: String,
    active: bool,
}

impl ToastHandler {
    pub closed spec fn shown(&self) -> Option<(Seq<char>, Seq<char>)> {
        if self.active {
            Some((self.text@, self.kind@))
        } else {
            None
        }
    }

    pub fn new() -> (r: Self)
        ensures
            r.shown() is None,
    {
        ToastHandler { text: String::new(), kind: String::new(), active: false }
    }

    /// Shows a toast of a kind (`success`, `warning`, `error`, `info`).
    pub fn show(&mut self, text: &str, kind: &str)
        ensures
            final(self).shown() == Some((text@, kind@)),
    {
        self.text = owned(text);
        self.kind = owned(kind);
        self.active = true;
    }

    /// The toast the test button shows.
    pub fn trigger(&mut self)
        ensures
            final(self).shown() == Some(("Operation completed successfully."@, "success"@)),
    {
        self.show("Operation completed successfully.", "success");
    }

    /// The toast went away.
    pub fn dismiss(&mut self)
        ensures
            final(self).shown() is None,
    {
        self.active = false;
    }
}

// ---------------------------------------------------------------------
// Themes

/// The themes offered and the one selected.
pub struct ThemeHandler {
    ids: Vec<String>,
    selected: Option<usize>,
}

impl ThemeHandler {
    pub closed spec fn themes(&self) -> Seq<Seq<char>> {
        crate::text::strings_view(self.ids@)
    }

    pub closed spec fn selected_index(&self) -> Option<usize> {
        self.selected
    }

    pub fn new() -> (r: Self)
        ensures
            r.themes().len() == 0,
            r.selected_index() is None,
    {
        ThemeHandler { ids: Vec::new(), selected: None }
    }

    /// The theme list was read again; the saved choice selects its theme,
    /// else the first one. Returns the ID now selected where it differs from
    /// the saved one (the saved choice then changes to it).
    pub fn reload(&mut self, ids: Vec<String>, saved: &str) -> (r: Option<String>)
        ensures
            final(self).themes() == crate::text::strings_view(ids@),
            match final(self).selected_index() {
                Some(i) => i < ids@.len() && ((ids@[i as int]@ == saved@ && forall|j: int|
                    0 <= j < i ==> #[trigger] ids@[j]@ != saved@) || (i == 0 && forall|j: int|
                    0 <= j < ids@.len() ==> #[trigger] ids@[j]@ != saved@)),
                None => ids@.len() == 0,
            },
            match r {
                Some(new_id) => final(self).selected_index() matches Some(i) && new_id@ == ids@[i as int]@ && new_id@ != saved@,
                None => final(self).selected_index() matches Some(i) ==> ids@[i as int]@ == saved@,
            },
    {
        let found = crate::theme::find(&ids, saved);
        self.ids = ids;
        self.selected = found;
        match found {
            Some(i) => {
                if same_text(self.ids[i].as_str(), saved) {
                    None
                } else {
                    Some(owned(self.ids[i].as_str()))
                }
            },
            None => None,
        }
    }

    /// A theme is picked: it is selected where the list holds it.
    pub fn pick(&mut self, id: &str) -> (r: Option<usize>)
        ensures
            match r {
                Some(i) => i < final(self).themes().len() && final(self).themes()[i as int] == id@ && final(self).selected_index() == Some(i),
                None => (forall|j: int| 0 <= j < old(self).themes().len() ==> #[trigger] old(self).themes()[j] != id@)
                    && final(self).selected_index() == old(self).selected_index(),
            },
            final(self).themes() == old(self).themes(),
    {
        let mut i: usize = 0;
        while i < self.ids.len()
            invariant
                i <= self.ids@.len(),
                self.ids@ == old(self).ids@,
                self.selected == old(self).selected,
                forall|j: int| 0 <= j < i ==> #[trigger] self.themes()[j] != id@,
            decreases self.ids.len() - i,
        {
            assert(self.themes()[i as int] == self.ids@[i as int]@);
            if same_text(self.ids[i].as_str(), id) {
                self.selected = Some(i);
                return Some(i);
            }
            i = i + 1;
        }
        assert(self.themes() == old(self).themes());
        assert(forall|j: int| 0 <= j < old(self).themes().len() ==> #[trigger] old(self).themes()[j] != id@);
        None
    }

    /// Whether deleting a theme resets the saved choice: it does when the
    /// deleted theme is the saved one.
    pub fn delete_resets(saved: Option<&str>, deleted: &str) -> (r: bool)
        ensures
            r == (saved matches Some(s) && s@ == deleted@),
    {
        match saved {
            Some(s) => same_text(s, deleted),
            None => false,
        }
    }

    /// What importing themes leads to: the last theme imported becomes the
    /// saved choice, and a toast reports success and one reports failures.
    pub fn import_outcome(imported: &Vec<String>, failed: usize) -> (r: (Option<String>, bool, bool))
        ensures
            match r.0 {
                Some(last) => imported@.len() > 0 && last@ == imported@.last()@,
                None => imported@.len() == 0,
            },
            r.1 == (imported@.len() > 0),
            r.2 == (failed > 0),
    {
        let last = if imported.len() > 0 {
            Some(owned(imported[imported.len() - 1].as_str()))
        } else {
            None
        };
        (last, imported.len() > 0, failed > 0)
    }
}

// ---------------------------------------------------------------------
// Moving mods out of the legacy folders

/// What the launcher shows once the legacy mod folders were migrated: the
/// toast text and kind, and whether the mod list is scanned again (when
/// any mod moved).
pub struct MigrationOutcome {
    pub text: String,
    pub kind: &'static str,
    pub rescan: bool,
}

/// The outcome of a migration that moved `migrated` mods and failed on
/// `failed` (`Ok`), or could not run (`Err`, with the reason).
pub open spec fn spec_migration(result: Result<(usize, usize), Seq<char>>) -> (Seq<char>, Seq<char>, bool) {
    match result {
        Ok((migrated, failed)) => if failed == 0 {
            ("Migrated "@ + decimal(migrated as nat) + " mod(s)."@, "success"@, migrated > 0)
        } else {
            (
                "Migrated "@ + decimal(migrated as nat) + " mod(s), "@ + decimal(failed as nat)
                    + " could not be moved."@,
                "error"@,
                migrated > 0,
            )
        },
        Err(e) => ("Migration failed - "@ + e, "error"@, false),
    }
}

fn join3(a: &[char], b: &[char], c: &[char]) -> (r: Vec<char>)
    ensures
        r@ == a@ + b@ + c@,
{
    concat_chars(concat_chars(a, b).as_slice(), c)
}

pub fn migration_outcome(result: Result<(usize, usize), String>) -> (r: MigrationOutcome)
    ensures
        (r.text@, r.kind@, r.rescan) == spec_migration(
            match result {
                Ok(p) => Ok(p),
                Err(e) => Err(e@),
            },
        ),
{
    match result {
        Ok((migrated, failed)) => {
            let n = decimal_chars(migrated);
            if failed == 0 {
                let t = join3(to_chars("Migrated ").as_slice(), n.as_slice(), to_chars(" mod(s).").as_slice());
                MigrationOutcome { text: from_chars(t.as_slice()), kind: "success", rescan: migrated > 0 }
            } else {
                let head = join3(to_chars("Migrated ").as_slice(), n.as_slice(), to_chars(" mod(s), ").as_slice());
                let t = join3(head.as_slice(), decimal_chars(failed).as_slice(), to_chars(" could not be moved.").as_slice());
                MigrationOutcome { text: from_chars(t.as_slice()), kind: "error", rescan: migrated > 0 }
            }
        },
        Err(e) => {
            let t = concat_chars(to_chars("Migration failed - ").as_slice(), to_chars(e.as_str()).as_slice());
            MigrationOutcome { text: from_chars(t.as_slice()), kind: "error", rescan: false }
        },
    }
}

} // verus!
