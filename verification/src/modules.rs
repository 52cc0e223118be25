//! The modules page (third-party `.asi` and `.dll` files loaded with the
//! game): which files are modules, how one is switched, named and found by
//! a search, and the page's selection.
use vstd::prelude::*;
use crate::filenames::{extension, extension_exec};
use crate::idset::{owned, same_text, IdSet};
use crate::text::{
    concat_chars, contains_seq, decimal, decimal_chars, ends_with, ends_with_chars, find_chars,
    from_chars, lowercase, slice_chars, strings_view, to_chars, to_lowercase, trim, trim_chars,
    TrimSet,
};

verus! {

pub open spec fn disabled_suffix() -> Seq<char> {
    ".disabled"@
}

/// The name a module is shown under when the user gave it none: its file
/// stem (the file name before its last `.`, unless that dot leads it).
pub open spec fn spec_default_name(id: Seq<char>) -> Seq<char> {
    match crate::filenames::last_index_of(id, '.') {
        Some(i) => if i > 0 {
            id.subrange(0, i)
        } else {
            id
        },
        None => id,
    }
}

pub fn default_name(id: &str) -> (r: String)
    ensures
        r@ == spec_default_name(id@),
{
    let chars = to_chars(id);
    proof {
        crate::filenames::lemma_last_index_of(id@, '.');
    }
    match crate::filenames::last_index_of_exec(chars.as_slice(), '.') {
        Some(i) => if i > 0 {
            from_chars(slice_chars(chars.as_slice(), 0, i).as_slice())
        } else {
            from_chars(chars.as_slice())
        },
        None => from_chars(chars.as_slice()),
    }
}

/// A file of the modules folder as a module: its ID (the name without
/// `.disabled`) and whether it is on, where its extension (lower-cased) is
/// `asi` or `dll`.
pub open spec fn spec_module_entry(name: Seq<char>) -> Option<(Seq<char>, bool)> {
    let off = ends_with(name, disabled_suffix());
    let id = if off { name.subrange(0, name.len() - disabled_suffix().len()) } else { name };
    match extension(id) {
        Some(e) => if lowercase(e) == "asi"@ || lowercase(e) == "dll"@ {
            Some((id, !off))
        } else {
            None
        },
        None => None,
    }
}

pub fn module_entry(name: &str) -> (r: Option<(String, bool)>)
    ensures
        match r {
            Some((id, on)) => spec_module_entry(name@) == Some((id@, on)),
            None => spec_module_entry(name@) is None,
        },
{
    let chars = to_chars(name);
    let suffix = to_chars(".disabled");
    let off = ends_with_chars(chars.as_slice(), suffix.as_slice());
    let id = if off {
        slice_chars(chars.as_slice(), 0, chars.len() - suffix.len())
    } else {
        chars
    };
    match extension_exec(id.as_slice()) {
        Some(e) => {
            let lower = to_lowercase(from_chars(e.as_slice()).as_str());
            if same_text(lower.as_str(), "asi") || same_text(lower.as_str(), "dll") {
                Some((from_chars(id.as_slice()), !off))
            } else {
                None
            }
        },
        None => None,
    }
}

/// The file name a switch gives a module: the ID with `.disabled` behind
/// when switching it off, the bare ID when switching it on.
pub fn toggle_target(id: &str, enabled: bool) -> (r: String)
    ensures
        r@ == (if enabled { id@ + disabled_suffix() } else { id@ }),
{
    if enabled {
        let a = to_chars(id);
        let b = to_chars(".disabled");
        from_chars(concat_chars(a.as_slice(), b.as_slice()).as_slice())
    } else {
        owned(id)
    }
}

/// The closing toast of installing modules, as (kind, text): the first
/// failure if any, else what was installed.
pub open spec fn spec_install_summary(installed: Seq<Seq<char>>, failed: Seq<Seq<char>>) -> Option<(Seq<char>, Seq<char>)> {
    if failed.len() > 0 {
        Some(("error"@, "Install failed - "@ + failed[0]))
    } else if installed.len() == 1 {
        Some(("success"@, "Installed "@ + installed[0]))
    } else if installed.len() > 0 {
        Some(("success"@, "Installed "@ + decimal(installed.len()) + " modules"@))
    } else {
        None
    }
}

pub fn install_summary(installed: &Vec<String>, failed: &Vec<String>) -> (r: Option<(String, String)>)
    ensures
        match r {
            Some((k, t)) => spec_install_summary(strings_view(installed@), strings_view(failed@)) == Some((k@, t@)),
            None => spec_install_summary(strings_view(installed@), strings_view(failed@)) is None,
        },
{
    if failed.len() > 0 {
        assert(strings_view(failed@)[0] == failed@[0]@);
        let a = to_chars("Install failed - ");
        let b = to_chars(failed[0].as_str());
        return Some((owned("error"), from_chars(concat_chars(a.as_slice(), b.as_slice()).as_slice())));
    }
    if installed.len() == 1 {
        assert(strings_view(installed@)[0] == installed@[0]@);
        let a = to_chars("Installed ");
        let b = to_chars(installed[0].as_str());
        return Some((owned("success"), from_chars(concat_chars(a.as_slice(), b.as_slice()).as_slice())));
    }
    if installed.len() > 0 {
        let a = to_chars("Installed ");
        let n = decimal_chars(installed.len());
        let c = to_chars(" modules");
        let t = concat_chars(concat_chars(a.as_slice(), n.as_slice()).as_slice(), c.as_slice());
        return Some((owned("success"), from_chars(t.as_slice())));
    }
    None
}

/// A module of the modules folder.
pub struct Module {
    pub id: String,
    pub path: String,
    pub enabled: bool,
}

/// The modules page: the modules found, the IDs shown, the selection and
/// the search (trimmed and lower-cased).
pub struct ModulesHandler {
    scanned: Vec<Module>,
    displayed: Vec<String>,
    selected: IdSet,
    search: String,
}

/// Whether a module shows for a search: an empty search shows all; else
/// its shown name or its ID (lower-cased) must contain the search.
pub open spec fn spec_matches(search: Seq<char>, shown: Seq<char>, id: Seq<char>) -> bool {
    search.len() == 0 || contains_seq(lowercase(shown), search) || contains_seq(lowercase(id), search)
}

impl ModulesHandler {
    pub closed spec fn ids(&self) -> Seq<Seq<char>> {
        self.scanned@.map_values(|m: Module| m.id@)
    }

    pub closed spec fn modules(&self) -> Seq<Module> {
        self.scanned@
    }

    pub closed spec fn shown(&self) -> Seq<Seq<char>> {
        strings_view(self.displayed@)
    }

    pub closed spec fn selected_set(&self) -> Set<Seq<char>> {
        self.selected.view()
    }

    pub closed spec fn search_text(&self) -> Seq<char> {
        self.search@
    }

    pub fn new() -> (r: Self)
        ensures
            r.ids().len() == 0,
            r.shown().len() == 0,
            r.selected_set() == Set::<Seq<char>>::empty(),
            r.search_text().len() == 0,
    {
        ModulesHandler { scanned: Vec::new(), displayed: Vec::new(), selected: IdSet::new(), search: String::new() }
    }

    /// A scan found these modules.
    pub fn set_scanned(&mut self, modules: Vec<Module>)
        ensures
            final(self).ids() == modules@.map_values(|m: Module| m.id@),
            final(self).modules() == modules@,
            final(self).shown() == old(self).shown(),
            final(self).selected_set() == old(self).selected_set(),
            final(self).search_text() == old(self).search_text(),
    {
        self.scanned = modules;
    }

    /// The search, as typed: kept trimmed and in lower case.
    pub fn set_search(&mut self, text: &str)
        ensures
            final(self).search_text() == lowercase(trim(text@, TrimSet::Whitespace)),
            final(self).ids() == old(self).ids(),
            final(self).selected_set() == old(self).selected_set(),
    {
        let t = from_chars(trim_chars(to_chars(text).as_slice(), TrimSet::Whitespace).as_slice());
        self.search = to_lowercase(t.as_str());
    }

    /// Whether a module shows for the search, given the name it is shown
    /// under.
    pub fn matches(&self, shown: &str, id: &str) -> (r: bool)
        ensures
            r == spec_matches(self.search_text(), shown@, id@),
    {
        let needle = to_chars(self.search.as_str());
        if needle.len() == 0 {
            return true;
        }
        let s = to_lowercase(shown);
        if find_chars(to_chars(s.as_str()).as_slice(), needle.as_slice()).is_some() {
            return true;
        }
        let i = to_lowercase(id);
        find_chars(to_chars(i.as_str()).as_slice(), needle.as_slice()).is_some()
    }

    /// A rebuild shows these IDs; the selection keeps only IDs still found.
    pub fn show(&mut self, displayed: Vec<String>)
        ensures
            final(self).shown() == strings_view(displayed@),
            final(self).selected_set() == old(self).selected_set().intersect(old(self).ids().to_set()),
            final(self).ids() == old(self).ids(),
            final(self).search_text() == old(self).search_text(),
    {
        let ghost ids = self.ids();
        let ghost sel = self.selected.view();
        let mut kept = IdSet::new();
        let mut i: usize = 0;
        while i < self.scanned.len()
            invariant
                i <= self.scanned@.len(),
                ids == self.scanned@.map_values(|m: Module| m.id@),
                sel == self.selected.view(),
                kept.view() == sel.intersect(ids.subrange(0, i as int).to_set()),
                self.scanned@ == old(self).scanned@,
                self.displayed@ == old(self).displayed@,
                self.search@ == old(self).search@,
                self.selected.view() == old(self).selected.view(),
            decreases self.scanned.len() - i,
        {
            let ghost before = ids.subrange(0, i as int);
            let ghost after = ids.subrange(0, i + 1);
            assert(after =~= before.push(ids[i as int]));
            assert(after.to_set() =~= before.to_set().insert(ids[i as int])) by {
                assert forall|x: Seq<char>| #[trigger] after.to_set().contains(x) <==> before.to_set().insert(ids[i as int]).contains(x) by {
                    if after.contains(x) {
                        let t = choose|t: int| 0 <= t < after.len() && after[t] == x;
                        if t < before.len() {
                            assert(before[t] == x);
                        }
                    }
                    if before.contains(x) {
                        let t = choose|t: int| 0 <= t < before.len() && before[t] == x;
                        assert(after[t] == x);
                    }
                    if x == ids[i as int] {
                        assert(after[i as int] == x);
                    }
                }
            }
            assert(ids[i as int] == self.scanned@[i as int].id@);
            if self.selected.contains(self.scanned[i].id.as_str()) {
                kept.insert(self.scanned[i].id.as_str());
            }
            assert(kept.view() =~= sel.intersect(after.to_set()));
            i = i + 1;
        }
        assert(ids.subrange(0, ids.len() as int) =~= ids);
        self.selected = kept;
        self.displayed = displayed;
    }

    /// Whether every shown module is selected (and some are shown).
    pub fn all_selected(&self) -> (r: bool)
        ensures
            r == (self.shown().len() > 0 && forall|i: int| 0 <= i < self.shown().len() ==> self.selected_set().contains(
                #[trigger] self.shown()[i],
            )),
    {
        if self.displayed.len() == 0 {
            return false;
        }
        let mut i: usize = 0;
        while i < self.displayed.len()
            invariant
                i <= self.displayed@.len(),
                forall|k: int| 0 <= k < i ==> self.selected_set().contains(#[trigger] self.shown()[k]),
            decreases self.displayed.len() - i,
        {
            assert(self.shown()[i as int] == self.displayed@[i as int]@);
            if !self.selected.contains(self.displayed[i].as_str()) {
                return false;
            }
            i = i + 1;
        }
        true
    }

    /// Selects a module, or unselects a selected one; returns whether it is
    /// selected now.
    pub fn toggle_selected(&mut self, id: &str) -> (r: bool)
        ensures
            r == !old(self).selected_set().contains(id@),
            r ==> final(self).selected_set() == old(self).selected_set().insert(id@),
            !r ==> final(self).selected_set() == old(self).selected_set().remove(id@),
            final(self).shown() == old(self).shown(),
            final(self).ids() == old(self).ids(),
    {
        self.selected.toggle(id)
    }

    /// How many modules are selected.
    pub fn selected_count(&self) -> (r: usize)
        ensures
            r == self.selected_set().len(),
    {
        self.selected.len()
    }

    /// "Select all": clears the selection where every shown module is
    /// selected, else selects exactly the shown modules.
    pub fn select_all(&mut self)
        ensures
            (old(self).shown().len() > 0 && forall|i: int| 0 <= i < old(self).shown().len() ==> old(self).selected_set().contains(
                #[trigger] old(self).shown()[i],
            )) ==> final(self).selected_set() == Set::<Seq<char>>::empty(),
            !(old(self).shown().len() > 0 && forall|i: int| 0 <= i < old(self).shown().len() ==> old(self).selected_set().contains(
                #[trigger] old(self).shown()[i],
            )) ==> final(self).selected_set() == old(self).shown().to_set(),
            final(self).shown() == old(self).shown(),
            final(self).ids() == old(self).ids(),
    {
        if self.all_selected() {
            self.selected.clear();
        } else {
            self.selected = IdSet::from_ids(&self.displayed);
        }
    }

    /// The selected modules (paths and whether they are on), in scan order.
    pub fn selected_modules(&self) -> (r: Vec<(String, String, bool)>)
        ensures
            r@.map_values(|x: (String, String, bool)| (x.0@, x.1@, x.2)) == self.modules().filter(
                |m: Module| self.selected_set().contains(m.id@),
            ).map_values(|m: Module| (m.id@, m.path@, m.enabled)),
    {
        let ghost keep = |m: Module| self.selected_set().contains(m.id@);
        let ghost view = |m: Module| (m.id@, m.path@, m.enabled);
        let ghost all = self.modules();
        let mut out: Vec<(String, String, bool)> = Vec::new();
        let mut i: usize = 0;
        while i < self.scanned.len()
            invariant
                i <= self.scanned@.len(),
                all == self.modules(),
                keep == (|m: Module| self.selected_set().contains(m.id@)),
                view == (|m: Module| (m.id@, m.path@, m.enabled)),
                out@.map_values(|x: (String, String, bool)| (x.0@, x.1@, x.2)) == all.subrange(0, i as int).filter(
                    keep,
                ).map_values(view),
            decreases self.scanned.len() - i,
        {
            proof {
                reveal(Seq::filter);
                assert(all.subrange(0, i + 1).drop_last() =~= all.subrange(0, i as int));
                assert(all.subrange(0, i + 1).last() == self.scanned@[i as int]);
            }
            if self.selected.contains(self.scanned[i].id.as_str()) {
                let ghost before = out@.map_values(|x: (String, String, bool)| (x.0@, x.1@, x.2));
                let m = &self.scanned[i];
                out.push((owned(m.id.as_str()), owned(m.path.as_str()), m.enabled));
                proof {
                    let f = all.subrange(0, i as int).filter(keep);
                    assert(all.subrange(0, i + 1).filter(keep) == f.push(all[i as int]));
                    assert(f.push(all[i as int]).map_values(view) =~= f.map_values(view).push(view(all[i as int])));
                }
                assert(out@.map_values(|x: (String, String, bool)| (x.0@, x.1@, x.2)) =~= before.push(
                    view(self.scanned@[i as int]),
                ));
            }
            i = i + 1;
        }
        assert(all.subrange(0, all.len() as int) =~= all);
        out
    }

    /// Unselects everything (after the selected modules were deleted).
    pub fn clear_selection(&mut self)
        ensures
            final(self).selected_set() == Set::<Seq<char>>::empty(),
            final(self).shown() == old(self).shown(),
    {
        self.selected.clear();
    }

    /// The paths of the modules that are on, which the game is launched
    /// with.
    pub fn enabled_paths(&self) -> (r: Vec<String>)
        ensures
            strings_view(r@) == self.modules().filter(|m: Module| m.enabled).map_values(|m: Module| m.path@),
    {
        let ghost keep = |m: Module| m.enabled;
        let ghost all = self.scanned@;
        let mut out: Vec<String> = Vec::new();
        let mut i: usize = 0;
        while i < self.scanned.len()
            invariant
                i <= self.scanned@.len(),
                all == self.scanned@,
                keep == (|m: Module| m.enabled),
                strings_view(out@) == all.subrange(0, i as int).filter(keep).map_values(|m: Module| m.path@),
            decreases self.scanned.len() - i,
        {
            proof {
                reveal(Seq::filter);
                assert(all.subrange(0, i + 1).drop_last() =~= all.subrange(0, i as int));
                assert(all.subrange(0, i + 1).last() == all[i as int]);
            }
            if self.scanned[i].enabled {
                let ghost before = strings_view(out@);
                out.push(owned(self.scanned[i].path.as_str()));
                assert(strings_view(out@) =~= before.push(all[i as int].path@));
                assert(all.subrange(0, i + 1).filter(keep).map_values(|m: Module| m.path@) =~= all.subrange(0, i as int).filter(
                    keep,
                ).map_values(|m: Module| m.path@).push(all[i as int].path@));
            }
            i = i + 1;
        }
        assert(all.subrange(0, all.len() as int) =~= all);
        out
    }
}

} // verus!
