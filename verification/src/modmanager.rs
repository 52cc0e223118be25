//! The mod manager's rules: which files make a mod and how it is switched
//! on and off, how the mods folder is read into groups, which mods a search
//! and the filters show, when a mod is out of date, and the selection,
//! collapse and restart bookkeeping of the page.
use vstd::prelude::*;
use crate::characters::{character_for, spec_character_for};
use crate::filenames::{extension, extension_exec};
use crate::idset::{ids_view, owned, same_text, IdSet};
use crate::ordering::{arrange, is_stable_order, is_tally, keys_view, lemma_sorted_distinct, stable_order, tally, tally_view, KeyView, SortKey};
use crate::text::{
    concat_chars, contains_seq, decimal, decimal_chars, eq_ignore_ascii_case,
    eq_ignore_ascii_case_chars, find_chars, from_chars, join, join_strings, lemma_contains_iff,
    lowercase, slice_chars, starts_with, starts_with_chars, strings_view, to_chars, to_lowercase,
    trim, trim_chars, TrimSet,
};

verus! {

/// Where an installed mod came from on GameBanana.
pub struct ModSource {
    pub mod_id: u32,
    pub file_id: u32,
    pub file_name: String,
    pub md5: String,
    pub author: String,
    pub name: String,
}

/// A mod as the mods folder shows it.
pub struct Mod {
    pub folder_name: String,
    pub display_name: String,
    pub path: String,
    pub version: Option<String>,
    pub author: Option<String>,
    pub support_link: Option<String>,
    pub icon: Option<String>,
    pub image_url: Option<String>,
    pub has_icon_png: bool,
    pub is_enabled: bool,
    pub has_json: bool,
    pub source: Option<ModSource>,
}

/// A group folder (or the mods outside any group) with its mods.
pub struct Group {
    pub name: Option<String>,
    pub path: Option<String>,
    pub mods: Vec<Mod>,
}

/// Mods sort by their folder names.
pub open spec fn folder_keys(mods: Seq<Mod>) -> Seq<KeyView> {
    mods.map_values(|m: Mod| (0u8, 0i128, m.folder_name@))
}

/// The groups a scan reports: the mods outside any group first, where
/// there are any, then the group folders in the order they were read.
pub fn scanned_groups(root: Group, groups: Vec<Group>) -> (r: Vec<Group>)
    ensures
        root.mods@.len() > 0 ==> r@ == seq![root] + groups@,
        root.mods@.len() == 0 ==> r@ == groups@,
{
    let mut out = groups;
    if root.mods.len() > 0 {
        out.insert(0, root);
    }
    out
}

impl Group {
    /// A group without mods.
    pub fn new(name: Option<String>, path: Option<String>) -> (r: Self)
        ensures
            r.name == name,
            r.path == path,
            r.mods@.len() == 0,
    {
        Group { name, path, mods: Vec::new() }
    }

    /// Puts the mods in the order of their folder names (as strings
    /// compare), mods with equal names keeping their order.
    pub fn sort_mods(&mut self)
        ensures
            exists|order: Seq<usize>|
                is_stable_order(folder_keys(old(self).mods@), order) && final(self).mods@.len() == order.len()
                    && forall|k: int| 0 <= k < order.len() ==> #[trigger] final(self).mods@[k] == old(self).mods@[order[k] as int],
            final(self).name == old(self).name,
            final(self).path == old(self).path,
    {
        let mut keys: Vec<SortKey> = Vec::new();
        let mut i: usize = 0;
        while i < self.mods.len()
            invariant
                i <= self.mods@.len(),
                keys@.len() == i,
                forall|k: int| 0 <= k < i ==> #[trigger] keys_view(keys@)[k] == folder_keys(self.mods@)[k],
            decreases self.mods.len() - i,
        {
            let key = SortKey { rank: 0, number: 0, text: to_chars(self.mods[i].folder_name.as_str()) };
            let ghost before = keys@;
            keys.push(key);
            assert(keys_view(keys@) =~= keys_view(before).push(crate::ordering::key_view(key)));
            i = i + 1;
        }
        assert(keys_view(keys@) =~= folder_keys(self.mods@));
        let order = stable_order(&keys);
        proof {
            assert forall|a: int, b: int| 0 <= a < b < order@.len() implies #[trigger] order@[a] != #[trigger] order@[b] by {
                lemma_sorted_distinct(keys_view(keys@), order@, a, b);
            }
        }
        let mut mods = Vec::new();
        std::mem::swap(&mut mods, &mut self.mods);
        self.mods = arrange(mods, &order);
    }

    /// Adds a mod at the end.
    pub fn add_mod(&mut self, m: Mod)
        ensures
            final(self).mods@ == old(self).mods@.push(m),
            final(self).name == old(self).name,
            final(self).path == old(self).path,
    {
        self.mods.push(m);
    }
}

// ---------------------------------------------------------------------
// Mod files

/// The extensions of the files a mod is made of.
pub open spec fn is_mod_extension(e: Seq<char>) -> bool {
    eq_ignore_ascii_case(e, "pak"@) || eq_ignore_ascii_case(e, "utoc"@) || eq_ignore_ascii_case(e, "ucas"@)
}

pub open spec fn spec_is_mod_file(name: Seq<char>) -> bool {
    extension(name) matches Some(e) && is_mod_extension(e)
}

pub open spec fn disabled_suffix() -> Seq<char> {
    ".disabled"@
}

/// A mod file switched off: its name with `.disabled` behind.
pub open spec fn spec_is_disabled_mod_file(name: Seq<char>) -> bool {
    let n = disabled_suffix().len();
    name.len() >= n && name.subrange(name.len() - n, name.len() as int) == disabled_suffix()
        && spec_is_mod_file(name.subrange(0, name.len() - n))
}

/// The file that switches a mod on and off.
pub open spec fn spec_is_pak_file(name: Seq<char>) -> bool {
    extension(name) matches Some(e) && eq_ignore_ascii_case(e, "pak"@)
}

fn is_mod_extension_exec(e: &[char]) -> (r: bool)
    ensures
        r == is_mod_extension(e@),
{
    let pak = to_chars("pak");
    let utoc = to_chars("utoc");
    let ucas = to_chars("ucas");
    eq_ignore_ascii_case_chars(e, pak.as_slice()) || eq_ignore_ascii_case_chars(e, utoc.as_slice())
        || eq_ignore_ascii_case_chars(e, ucas.as_slice())
}

fn is_mod_file_chars(name: &[char]) -> (r: bool)
    ensures
        r == spec_is_mod_file(name@),
{
    match extension_exec(name) {
        Some(e) => is_mod_extension_exec(e.as_slice()),
        None => false,
    }
}

/// Whether a file name (not `.` or `..`) is one of a mod's files.
pub fn is_mod_file(name: &str) -> (r: bool)
    ensures
        r == spec_is_mod_file(name@),
{
    let chars = to_chars(name);
    is_mod_file_chars(chars.as_slice())
}

fn is_disabled_chars(name: &[char]) -> (r: bool)
    ensures
        r == spec_is_disabled_mod_file(name@),
{
    let suffix = to_chars(".disabled");
    let n = suffix.len();
    if name.len() < n {
        return false;
    }
    let tail = slice_chars(name, name.len() - n, name.len());
    if !crate::text::eq_chars(tail.as_slice(), suffix.as_slice()) {
        return false;
    }
    let stem = slice_chars(name, 0, name.len() - n);
    is_mod_file_chars(stem.as_slice())
}

/// Whether a file name is a mod file switched off.
pub fn is_disabled_mod_file(name: &str) -> (r: bool)
    ensures
        r == spec_is_disabled_mod_file(name@),
{
    let chars = to_chars(name);
    is_disabled_chars(chars.as_slice())
}

fn is_pak_chars(name: &[char]) -> (r: bool)
    ensures
        r == spec_is_pak_file(name@),
{
    match extension_exec(name) {
        Some(e) => {
            let pak = to_chars("pak");
            eq_ignore_ascii_case_chars(e.as_slice(), pak.as_slice())
        },
        None => false,
    }
}

/// Whether a file name is the `.pak` file that switches a mod.
pub fn is_pak_file(name: &str) -> (r: bool)
    ensures
        r == spec_is_pak_file(name@),
{
    let chars = to_chars(name);
    is_pak_chars(chars.as_slice())
}

/// A switched-off file is never itself a file that is switched: its
/// extension is `disabled`.
pub proof fn law_disabled_is_not_pak(name: Seq<char>)
    requires
        spec_is_disabled_mod_file(name),
    ensures
        !spec_is_pak_file(name),
        !spec_is_mod_file(name),
{
    let n = disabled_suffix().len();
    let dot = name.len() - n;
    crate::filenames::lemma_last_index_of(name, '.');
    assert(name.subrange(dot, name.len() as int) == disabled_suffix());
    assert(disabled_suffix() =~= seq!['.', 'd', 'i', 's', 'a', 'b', 'l', 'e', 'd']) by {
        reveal_strlit(".disabled");
    }
    assert(name[dot] == '.') by {
        assert(name[dot] == name.subrange(dot, name.len() as int)[0]);
    }
    assert forall|k: int| dot < k < name.len() implies name[k] != '.' by {
        assert(name[k] == name.subrange(dot, name.len() as int)[k - dot]);
    }
    assert(crate::filenames::last_index_of(name, '.') == Some(dot)) by {
        lemma_last_is(name, '.', dot);
    }
    let e = name.subrange(dot + 1, name.len() as int);
    assert(e =~= seq!['d', 'i', 's', 'a', 'b', 'l', 'e', 'd']);
    assert(e.len() == 8);
    assert(!eq_ignore_ascii_case(e, "pak"@)) by {
        reveal_strlit("pak");
    }
    assert(!eq_ignore_ascii_case(e, "utoc"@)) by {
        reveal_strlit("utoc");
    }
    assert(!eq_ignore_ascii_case(e, "ucas"@)) by {
        reveal_strlit("ucas");
    }
}

proof fn lemma_last_is(s: Seq<char>, c: char, i: int)
    requires
        0 <= i < s.len(),
        s[i] == c,
        forall|k: int| i < k < s.len() ==> s[k] != c,
    ensures
        crate::filenames::last_index_of(s, c) == Some(i),
    decreases s.len(),
{
    if s.last() != c {
        assert forall|k: int| i < k < s.len() - 1 implies s.drop_last()[k] != c by {
            assert(s.drop_last()[k] == s[k]);
        }
        lemma_last_is(s.drop_last(), c, i);
    }
}

// ---------------------------------------------------------------------
// Switching a mod

/// Why a mod cannot be switched.
#[derive(Clone, Copy, Debug, PartialEq, Eq, Structural)]
pub enum ToggleError {
    NoPak,
}

pub open spec fn any_disabled(names: Seq<Seq<char>>) -> bool {
    exists|i: int| 0 <= i < names.len() && spec_is_disabled_mod_file(#[trigger] names[i])
}

/// A mod is on when none of its files is switched off.
pub open spec fn spec_mod_enabled(names: Seq<Seq<char>>) -> bool {
    !any_disabled(names)
}

/// The renames that switch a mod, as (index of the file, new name): a mod
/// with switched-off files is switched on by dropping `.disabled` from each
/// of them; otherwise each `.pak` file gets `.disabled` behind it.
pub open spec fn spec_toggle_plan(names: Seq<Seq<char>>) -> Seq<(int, Seq<char>)>
    decreases names.len(),
{
    toggle_plan_from(names, any_disabled(names), names.len() as int)
}

pub open spec fn toggle_plan_from(names: Seq<Seq<char>>, enabling: bool, upto: int) -> Seq<(int, Seq<char>)>
    decreases upto,
{
    if upto <= 0 || upto > names.len() {
        seq![]
    } else {
        let earlier = toggle_plan_from(names, enabling, upto - 1);
        let name = names[upto - 1];
        if enabling && spec_is_disabled_mod_file(name) {
            earlier.push((upto - 1, name.subrange(0, name.len() - disabled_suffix().len())))
        } else if !enabling && spec_is_pak_file(name) {
            earlier.push((upto - 1, name + disabled_suffix()))
        } else {
            earlier
        }
    }
}

pub open spec fn plan_view(v: Seq<(usize, String)>) -> Seq<(int, Seq<char>)> {
    v.map_values(|p: (usize, String)| (p.0 as int, p.1@))
}

impl ModManager {
    /// Whether a mod with these file names is switched on.
    pub fn is_enabled(names: &Vec<String>) -> (r: bool)
        ensures
            r == spec_mod_enabled(strings_view(names@)),
    {
        let ghost ns = strings_view(names@);
        let mut i: usize = 0;
        while i < names.len()
            invariant
                i <= names@.len(),
                ns == strings_view(names@),
                forall|j: int| 0 <= j < i ==> !spec_is_disabled_mod_file(#[trigger] ns[j]),
            decreases names.len() - i,
        {
            assert(ns[i as int] == names@[i as int]@);
            if is_disabled_mod_file(names[i].as_str()) {
                return false;
            }
            i = i + 1;
        }
        true
    }

    /// Whether any of the names is a mod file, on or off.
    pub fn contains_pak(names: &Vec<String>) -> (r: bool)
        ensures
            r == exists|i: int|
                0 <= i < names@.len() && (spec_is_mod_file(#[trigger] names@[i]@)
                    || spec_is_disabled_mod_file(names@[i]@)),
    {
        let mut i: usize = 0;
        while i < names.len()
            invariant
                i <= names@.len(),
                forall|j: int|
                    0 <= j < i ==> !spec_is_mod_file(#[trigger] names@[j]@) && !spec_is_disabled_mod_file(
                        names@[j]@,
                    ),
            decreases names.len() - i,
        {
            if is_mod_file(names[i].as_str()) || is_disabled_mod_file(names[i].as_str()) {
                return true;
            }
            i = i + 1;
        }
        false
    }

    /// The renames that switch a mod whose folder holds these file names
    /// (each with its index in the list); a mod with neither switched-off
    /// files nor a `.pak` file cannot be switched.
    pub fn toggle_plan(names: &Vec<String>) -> (r: Result<Vec<(usize, String)>, ToggleError>)
        ensures
            match r {
                Ok(plan) => plan_view(plan@) == spec_toggle_plan(strings_view(names@)) && plan@.len() > 0,
                Err(_) => spec_toggle_plan(strings_view(names@)).len() == 0,
            },
    {
        let ghost ns = strings_view(names@);
        let enabling = !Self::is_enabled(names);
        let mut plan: Vec<(usize, String)> = Vec::new();
        let mut i: usize = 0;
        while i < names.len()
            invariant
                i <= names@.len(),
                ns == strings_view(names@),
                enabling == any_disabled(ns),
                plan_view(plan@) == toggle_plan_from(ns, enabling, i as int),
            decreases names.len() - i,
        {
            let name = to_chars(names[i].as_str());
            assert(ns[i as int] == name@);
            let ghost before = plan@;
            if enabling && is_disabled_chars(name.as_slice()) {
                proof {
                    reveal_strlit(".disabled");
                }
                let stem = slice_chars(name.as_slice(), 0, name.len() - 9);
                plan.push((i, from_chars(stem.as_slice())));
                assert(plan_view(plan@) =~= plan_view(before).push((i as int, stem@)));
            } else if !enabling && is_pak_chars(name.as_slice()) {
                let suffix = to_chars(".disabled");
                let renamed = concat_chars(name.as_slice(), suffix.as_slice());
                plan.push((i, from_chars(renamed.as_slice())));
                assert(plan_view(plan@) =~= plan_view(before).push((i as int, renamed@)));
            }
            i = i + 1;
        }
        if plan.len() == 0 {
            Err(ToggleError::NoPak)
        } else {
            Ok(plan)
        }
    }
}

/// Switching a mod off and on again names its `.pak` files as before:
/// each rename of the second switch undoes the one the first switch made
/// to that file.
pub proof fn law_toggle_round_trip(name: Seq<char>)
    requires
        spec_is_pak_file(name),
    ensures
        spec_is_disabled_mod_file(name + disabled_suffix()),
        (name + disabled_suffix()).subrange(0, (name + disabled_suffix()).len() - disabled_suffix().len())
            == name,
{
    let d = name + disabled_suffix();
    assert(d.subrange(0, d.len() - disabled_suffix().len()) =~= name);
    assert(d.subrange(d.len() - disabled_suffix().len(), d.len() as int) =~= disabled_suffix());
    assert(spec_is_mod_file(name)) by {
        let e = extension(name)->0;
        assert(eq_ignore_ascii_case(e, "pak"@));
    }
}

/// A file's name after a switch that switches on (`enabling`) or off.
pub open spec fn switched_name(name: Seq<char>, enabling: bool) -> Seq<char> {
    if enabling && spec_is_disabled_mod_file(name) {
        name.subrange(0, name.len() - disabled_suffix().len())
    } else if !enabling && spec_is_pak_file(name) {
        name + disabled_suffix()
    } else {
        name
    }
}

/// The file names after the renames of a plan.
pub open spec fn apply_plan(names: Seq<Seq<char>>, plan: Seq<(int, Seq<char>)>) -> Seq<Seq<char>>
    decreases plan.len(),
{
    if plan.len() == 0 {
        names
    } else {
        apply_plan(names, plan.drop_last()).update(plan.last().0, plan.last().1)
    }
}

proof fn lemma_apply_toggle_plan(names: Seq<Seq<char>>, enabling: bool, upto: int)
    requires
        0 <= upto <= names.len(),
    ensures
        apply_plan(names, toggle_plan_from(names, enabling, upto)) == Seq::new(
            names.len(),
            |i: int| if i < upto { switched_name(names[i], enabling) } else { names[i] },
        ),
    decreases upto,
{
    if upto > 0 {
        lemma_apply_toggle_plan(names, enabling, upto - 1);
        let earlier = toggle_plan_from(names, enabling, upto - 1);
        let plan = toggle_plan_from(names, enabling, upto);
        if plan.len() > earlier.len() {
            assert(plan.drop_last() =~= earlier);
        }
        assert(apply_plan(names, plan) =~= Seq::new(
            names.len(),
            |i: int| if i < upto { switched_name(names[i], enabling) } else { names[i] },
        ));
    } else {
        assert(apply_plan(names, toggle_plan_from(names, enabling, upto)) =~= Seq::new(
            names.len(),
            |i: int| if i < upto { switched_name(names[i], enabling) } else { names[i] },
        ));
    }
}

/// A switch renames each file of the mod to its switched name.
pub proof fn lemma_toggle_applies(names: Seq<Seq<char>>)
    ensures
        apply_plan(names, spec_toggle_plan(names)) == names.map_values(
            |n: Seq<char>| switched_name(n, any_disabled(names)),
        ),
{
    lemma_apply_toggle_plan(names, any_disabled(names), names.len() as int);
    assert(apply_plan(names, spec_toggle_plan(names)) =~= names.map_values(
        |n: Seq<char>| switched_name(n, any_disabled(names)),
    ));
}

/// Switching a mod whose files are all on twice gives every file its name
/// back: the first switch turns its `.pak` files off, the second turns
/// them on again, and no other file is renamed.
pub proof fn law_toggle_twice_restores(names: Seq<Seq<char>>)
    requires
        !any_disabled(names),
    ensures
        ({
            let once = apply_plan(names, spec_toggle_plan(names));
            apply_plan(once, spec_toggle_plan(once)) == names
        }),
{
    lemma_toggle_applies(names);
    let once = apply_plan(names, spec_toggle_plan(names));
    lemma_toggle_applies(once);
    assert forall|i: int| 0 <= i < names.len() implies #[trigger] once[i] == switched_name(names[i], false) by {}
    assert forall|i: int| 0 <= i < names.len() && spec_is_pak_file(names[i]) implies spec_is_disabled_mod_file(
        #[trigger] once[i],
    ) && switched_name(once[i], true) == names[i] by {
        law_toggle_round_trip(names[i]);
    }
    assert forall|i: int| 0 <= i < names.len() && !spec_is_pak_file(names[i]) implies #[trigger] once[i]
        == names[i] && !spec_is_disabled_mod_file(once[i]) by {
        assert(!spec_is_disabled_mod_file(names[i]));
    }
    let twice = apply_plan(once, spec_toggle_plan(once));
    if exists|i: int| 0 <= i < names.len() && spec_is_pak_file(#[trigger] names[i]) {
        let j = choose|i: int| 0 <= i < names.len() && spec_is_pak_file(#[trigger] names[i]);
        assert(spec_is_disabled_mod_file(once[j]));
        assert(any_disabled(once));
        assert forall|i: int| 0 <= i < names.len() implies #[trigger] twice[i] == names[i] by {
            if spec_is_pak_file(names[i]) {
                assert(switched_name(once[i], true) == names[i]);
            }
        }
    } else {
        assert forall|i: int| 0 <= i < names.len() implies #[trigger] once[i] == names[i] by {
            assert(!spec_is_pak_file(names[i]));
        }
        assert(once =~= names);
        assert forall|i: int| 0 <= i < names.len() implies #[trigger] twice[i] == names[i] by {
            assert(!spec_is_pak_file(names[i]));
        }
    }
    assert(twice =~= names);
}

/// Whether some rename of a plan touches file `i`.
pub open spec fn renames_file(plan: Seq<(int, Seq<char>)>, i: int) -> bool {
    exists|j: int| 0 <= j < plan.len() && #[trigger] plan[j].0 == i
}

/// Whether every rename of a plan names a file of the list.
pub open spec fn plan_in_range(plan: Seq<(int, Seq<char>)>, len: int) -> bool {
    forall|j: int| 0 <= j < plan.len() ==> 0 <= #[trigger] plan[j].0 < len
}

/// The renames that undo the first `done` renames of a plan, latest first:
/// each file goes back to its name in `names`.
pub open spec fn spec_rollback_plan(names: Seq<Seq<char>>, plan: Seq<(int, Seq<char>)>, done: int) -> Seq<
    (int, Seq<char>),
> {
    Seq::new(done as nat, |j: int| (plan[done - 1 - j].0, names[plan[done - 1 - j].0]))
}

proof fn lemma_apply_untouched(s: Seq<Seq<char>>, p: Seq<(int, Seq<char>)>)
    requires
        plan_in_range(p, s.len() as int),
    ensures
        apply_plan(s, p).len() == s.len(),
        forall|i: int| 0 <= i < s.len() && !renames_file(p, i) ==> #[trigger] apply_plan(s, p)[i] == s[i],
    decreases p.len(),
{
    if p.len() > 0 {
        let q = p.drop_last();
        assert forall|j: int| 0 <= j < q.len() implies 0 <= #[trigger] q[j].0 < s.len() by {
            assert(q[j] == p[j]);
        }
        lemma_apply_untouched(s, q);
        assert forall|i: int| 0 <= i < s.len() && !renames_file(p, i) implies #[trigger] apply_plan(s, p)[i] == s[i] by {
            assert(p[p.len() - 1].0 != i);
            if renames_file(q, i) {
                let j = choose|j: int| 0 <= j < q.len() && #[trigger] q[j].0 == i;
                assert(p[j] == q[j]);
            }
        }
    }
}

proof fn lemma_apply_toward(s: Seq<Seq<char>>, p: Seq<(int, Seq<char>)>, t: Seq<Seq<char>>)
    requires
        plan_in_range(p, s.len() as int),
        t.len() == s.len(),
        forall|j: int| 0 <= j < p.len() ==> (#[trigger] p[j]).1 == t[p[j].0],
    ensures
        forall|i: int| 0 <= i < s.len() && renames_file(p, i) ==> #[trigger] apply_plan(s, p)[i] == t[i],
    decreases p.len(),
{
    if p.len() > 0 {
        let q = p.drop_last();
        assert forall|j: int| 0 <= j < q.len() implies 0 <= #[trigger] q[j].0 < s.len() by {
            assert(q[j] == p[j]);
        }
        assert forall|j: int| 0 <= j < q.len() implies (#[trigger] q[j]).1 == t[q[j].0] by {
            assert(q[j] == p[j]);
        }
        lemma_apply_toward(s, q, t);
        lemma_apply_untouched(s, q);
        assert forall|i: int| 0 <= i < s.len() && renames_file(p, i) implies #[trigger] apply_plan(s, p)[i] == t[i] by {
            let last = p[p.len() - 1];
            if last.0 != i {
                let j = choose|j: int| 0 <= j < p.len() && #[trigger] p[j].0 == i;
                assert(j < q.len());
                assert(q[j] == p[j]);
                assert(renames_file(q, i));
            }
        }
    }
}

/// Undoing the renames that were done puts every file name back: after the
/// first `done` renames of a plan and then the rollback plan for them, the
/// names are those before.
pub proof fn law_rollback_restores(names: Seq<Seq<char>>, plan: Seq<(int, Seq<char>)>, done: int)
    requires
        0 <= done <= plan.len(),
        plan_in_range(plan, names.len() as int),
    ensures
        apply_plan(apply_plan(names, plan.take(done)), spec_rollback_plan(names, plan, done)) == names,
{
    let pre = plan.take(done);
    let rb = spec_rollback_plan(names, plan, done);
    assert forall|j: int| 0 <= j < pre.len() implies 0 <= #[trigger] pre[j].0 < names.len() by {
        assert(pre[j] == plan[j]);
    }
    lemma_apply_untouched(names, pre);
    let mid = apply_plan(names, pre);
    assert forall|j: int| 0 <= j < rb.len() implies 0 <= #[trigger] rb[j].0 < mid.len() by {
        assert(rb[j].0 == plan[done - 1 - j].0);
    }
    assert forall|j: int| 0 <= j < rb.len() implies (#[trigger] rb[j]).1 == names[rb[j].0] by {}
    lemma_apply_untouched(mid, rb);
    lemma_apply_toward(mid, rb, names);
    let fin = apply_plan(mid, rb);
    assert forall|i: int| 0 <= i < names.len() implies #[trigger] fin[i] == names[i] by {
        if !renames_file(rb, i) {
            if renames_file(pre, i) {
                let j = choose|j: int| 0 <= j < pre.len() && #[trigger] pre[j].0 == i;
                assert(rb[done - 1 - j].0 == plan[j].0);
                assert(pre[j] == plan[j]);
            }
        }
    }
    assert(fin =~= names);
}

impl ModManager {
    /// The renames that undo the first `done` renames of a switch that
    /// stopped there, latest first, each giving a file back its name.
    pub fn rollback_plan(names: &Vec<String>, plan: &Vec<(usize, String)>, done: usize) -> (r: Vec<(usize, String)>)
        requires
            done <= plan@.len(),
            plan_in_range(plan_view(plan@), names@.len() as int),
        ensures
            plan_view(r@) == spec_rollback_plan(strings_view(names@), plan_view(plan@), done as int),
    {
        let ghost ns = strings_view(names@);
        let ghost pv = plan_view(plan@);
        let mut r: Vec<(usize, String)> = Vec::new();
        let mut k: usize = done;
        while k > 0
            invariant
                k <= done <= plan@.len(),
                pv == plan_view(plan@),
                ns == strings_view(names@),
                plan_in_range(pv, names@.len() as int),
                plan_view(r@) == spec_rollback_plan(ns, pv, done as int).subrange(0, (done - k) as int),
            decreases k,
        {
            k = k - 1;
            let idx = plan[k].0;
            assert(pv[k as int].0 == idx as int);
            assert(0 <= pv[k as int].0 < names@.len());
            let back = owned(names[idx].as_str());
            let ghost before = plan_view(r@);
            r.push((idx, back));
            proof {
                let rb = spec_rollback_plan(ns, pv, done as int);
                assert(ns[idx as int] == names@[idx as int]@);
                assert(rb[(done - 1 - k) as int] == (pv[k as int].0, ns[pv[k as int].0]));
                assert(plan_view(r@) =~= before.push((idx as int, back@)));
            }
            assert(plan_view(r@) =~= spec_rollback_plan(ns, pv, done as int).subrange(0, (done - k) as int));
        }
        r
    }
}

/// The mod manager's file rules.
pub struct ModManager;


// ---------------------------------------------------------------------
// Reading the mods folder

/// The name prefix of a group folder.
pub open spec fn group_prefix() -> Seq<char> {
    "AU GRP - "@
}

/// The name prefix of a folder an install is still filling.
pub open spec fn staging_prefix() -> Seq<char> {
    ".aurora-installing-"@
}

/// What a folder of the mods folder is.
pub enum EntryKind {
    /// An unfinished install, skipped.
    Staging,
    /// A group, with its name.
    Group(String),
    /// A folder that may hold a mod.
    Plain,
}

pub open spec fn spec_classify(name: Seq<char>) -> Option<Option<Seq<char>>> {
    if starts_with(name, staging_prefix()) {
        None
    } else if starts_with(name, group_prefix()) {
        Some(Some(name.subrange(group_prefix().len() as int, name.len() as int)))
    } else {
        Some(None)
    }
}

impl ModManager {
    /// What a folder of the mods folder is, by its name: an unfinished
    /// install, a group (named by what follows the prefix) or a plain folder.
    pub fn classify(name: &str) -> (r: EntryKind)
        ensures
            match r {
                EntryKind::Staging => spec_classify(name@) is None,
                EntryKind::Group(g) => spec_classify(name@) == Some(Some(g@)),
                EntryKind::Plain => spec_classify(name@) == Some(None::<Seq<char>>),
            },
    {
        let chars = to_chars(name);
        let staging = to_chars(".aurora-installing-");
        if starts_with_chars(chars.as_slice(), staging.as_slice()) {
            return EntryKind::Staging;
        }
        let prefix = to_chars("AU GRP - ");
        if starts_with_chars(chars.as_slice(), prefix.as_slice()) {
            let rest = slice_chars(chars.as_slice(), prefix.len(), chars.len());
            return EntryKind::Group(from_chars(rest.as_slice()));
        }
        EntryKind::Plain
    }

    /// The name a mod folder is shown under before its `mod.json` is read:
    /// the folder name without a trailing `_P`.
    pub fn base_display_name(folder_name: &str) -> (r: String)
        ensures
            r@ == (if folder_name@.len() >= 2 && folder_name@.subrange(
                folder_name@.len() - 2,
                folder_name@.len() as int,
            ) == "_P"@ {
                folder_name@.subrange(0, folder_name@.len() - 2)
            } else {
                folder_name@
            }),
    {
        let chars = to_chars(folder_name);
        let suffix = to_chars("_P");
        proof {
            reveal_strlit("_P");
        }
        if chars.len() >= 2 && crate::text::ends_with_chars(chars.as_slice(), suffix.as_slice()) {
            from_chars(slice_chars(chars.as_slice(), 0, chars.len() - 2).as_slice())
        } else {
            from_chars(chars.as_slice())
        }
    }
}

/// A link as given, or with `https://` in front where it names no scheme.
pub open spec fn spec_with_scheme(value: Seq<char>) -> Seq<char> {
    if starts_with(value, "http://"@) || starts_with(value, "https://"@) {
        value
    } else {
        "https://"@ + value
    }
}

pub fn with_scheme(value: &str) -> (r: String)
    ensures
        r@ == spec_with_scheme(value@),
{
    let v = to_chars(value);
    let http = to_chars("http://");
    let https = to_chars("https://");
    if starts_with_chars(v.as_slice(), http.as_slice()) || starts_with_chars(v.as_slice(), https.as_slice()) {
        from_chars(v.as_slice())
    } else {
        from_chars(concat_chars(https.as_slice(), v.as_slice()).as_slice())
    }
}

/// A `mod.json` text field as the page uses it: trimmed, and absent where
/// nothing is left.
pub fn trimmed_field(value: Option<&str>) -> (r: Option<String>)
    ensures
        match value {
            None => r is None,
            Some(v) => if trim(v@, TrimSet::Whitespace).len() == 0 {
                r is None
            } else {
                r matches Some(x) && x@ == trim(v@, TrimSet::Whitespace)
            },
        },
{
    match value {
        None => None,
        Some(v) => {
            let t = trim_chars(to_chars(v).as_slice(), TrimSet::Whitespace);
            if t.len() == 0 {
                None
            } else {
                Some(from_chars(t.as_slice()))
            }
        },
    }
}

/// The author a mod is filed under: its trimmed author, unless that is
/// empty or `Unknown`.
pub open spec fn spec_mod_author(author: Option<Seq<char>>) -> Option<Seq<char>> {
    match author {
        Some(a) => {
            let t = trim(a, TrimSet::Whitespace);
            if t.len() == 0 || t == "Unknown"@ {
                None
            } else {
                Some(t)
            }
        },
        None => None,
    }
}

pub open spec fn opt_view(o: Option<String>) -> Option<Seq<char>> {
    match o {
        Some(s) => Some(s@),
        None => None,
    }
}

pub fn mod_author(m: &Mod) -> (r: Option<String>)
    ensures
        opt_view(r) == spec_mod_author(opt_view(m.author)),
{
    match &m.author {
        None => None,
        Some(a) => {
            let t = trim_chars(to_chars(a.as_str()).as_slice(), TrimSet::Whitespace);
            let unknown = to_chars("Unknown");
            if t.len() == 0 || crate::text::eq_chars(t.as_slice(), unknown.as_slice()) {
                None
            } else {
                Some(from_chars(t.as_slice()))
            }
        },
    }
}

/// The character a mod shows: by its `icon` field, else by the name it is
/// shown under, else by its folder name.
pub open spec fn spec_mod_character(icon: Option<Seq<char>>, shown_name: Seq<char>, folder_name: Seq<char>) -> Option<
    Seq<char>,
> {
    let by_icon = match icon {
        Some(i) => spec_character_for(i),
        None => None,
    };
    if by_icon is Some {
        by_icon
    } else if spec_character_for(shown_name) is Some {
        spec_character_for(shown_name)
    } else {
        spec_character_for(folder_name)
    }
}

pub fn mod_character(m: &Mod, shown_name: &str) -> (r: Option<&'static str>)
    ensures
        match r {
            Some(s) => spec_mod_character(opt_view(m.icon), shown_name@, m.folder_name@) == Some(s@),
            None => spec_mod_character(opt_view(m.icon), shown_name@, m.folder_name@) is None,
        },
{
    let by_icon = match &m.icon {
        Some(i) => character_for(i.as_str()),
        None => None,
    };
    if by_icon.is_some() {
        return by_icon;
    }
    let by_name = character_for(shown_name);
    if by_name.is_some() {
        return by_name;
    }
    character_for(m.folder_name.as_str())
}

// ---------------------------------------------------------------------
// Installing

/// What an install error is known as, by the text of its error chain: a
/// mod already there, or an archive that asks for a password.
pub open spec fn spec_expected_install_failure(chain: Seq<char>) -> Option<Seq<char>> {
    if contains_seq(chain, "a mod with this name already exists"@) {
        Some("is already installed"@)
    } else if contains_seq(chain, "Password required"@) {
        Some("is password protected, so Aurora cannot extract it"@)
    } else {
        None
    }
}

pub fn expected_install_failure(chain: &str) -> (r: Option<&'static str>)
    ensures
        match r {
            Some(s) => spec_expected_install_failure(chain@) == Some(s@),
            None => spec_expected_install_failure(chain@) is None,
        },
{
    let c = to_chars(chain);
    let exists = to_chars("a mod with this name already exists");
    if find_chars(c.as_slice(), exists.as_slice()).is_some() {
        return Some("is already installed");
    }
    let password = to_chars("Password required");
    if find_chars(c.as_slice(), password.as_slice()).is_some() {
        return Some("is password protected, so Aurora cannot extract it");
    }
    None
}

/// The closing toast of a batch of installs or additions, as (kind, text):
/// `verb` names what succeeded ("Installed", "Added"), and `nothing_done`
/// heads the error when nothing did. No toast when nothing was attempted.
pub open spec fn spec_batch_summary(
    verb: Seq<char>,
    nothing_done: Seq<char>,
    done: Seq<Seq<char>>,
    failed: Seq<Seq<char>>,
) -> Option<(Seq<char>, Seq<char>)> {
    let ok = if done.len() == 0 {
        seq![]
    } else if done.len() == 1 {
        verb + " "@ + done[0]
    } else {
        verb + " "@ + decimal(done.len()) + " mods"@
    };
    if failed.len() == 0 {
        if ok.len() == 0 {
            None
        } else {
            Some(("success"@, ok))
        }
    } else {
        let errors = join(failed, "; "@);
        if ok.len() == 0 {
            Some(("error"@, nothing_done + " - "@ + errors))
        } else {
            Some(("error"@, ok + ", "@ + decimal(failed.len()) + " failed - "@ + errors))
        }
    }
}

fn cat(a: &[char], b: &[char]) -> (r: Vec<char>)
    ensures
        r@ == a@ + b@,
{
    concat_chars(a, b)
}

pub fn batch_summary(verb: &str, nothing_done: &str, done: &Vec<String>, failed: &Vec<String>) -> (r:
    Option<(String, String)>)
    ensures
        match r {
            Some((k, t)) => spec_batch_summary(verb@, nothing_done@, strings_view(done@), strings_view(failed@))
                == Some((k@, t@)),
            None => spec_batch_summary(verb@, nothing_done@, strings_view(done@), strings_view(failed@))
                is None,
        },
{
    let v = to_chars(verb);
    let space = to_chars(" ");
    let ok: Vec<char> = if done.len() == 0 {
        Vec::new()
    } else if done.len() == 1 {
        let name = to_chars(done[0].as_str());
        assert(strings_view(done@)[0] == done@[0]@);
        cat(cat(v.as_slice(), space.as_slice()).as_slice(), name.as_slice())
    } else {
        let n = decimal_chars(done.len());
        let mods = to_chars(" mods");
        cat(cat(cat(v.as_slice(), space.as_slice()).as_slice(), n.as_slice()).as_slice(), mods.as_slice())
    };
    if failed.len() == 0 {
        if ok.len() == 0 {
            None
        } else {
            Some((owned("success"), from_chars(ok.as_slice())))
        }
    } else {
        let errors = join_strings(failed, "; ");
        if ok.len() == 0 {
            let dash = to_chars(" - ");
            let head = to_chars(nothing_done);
            let text = cat(cat(head.as_slice(), dash.as_slice()).as_slice(), errors.as_slice());
            Some((owned("error"), from_chars(text.as_slice())))
        } else {
            let comma = to_chars(", ");
            let n = decimal_chars(failed.len());
            let tail = to_chars(" failed - ");
            let text = cat(
                cat(cat(cat(ok.as_slice(), comma.as_slice()).as_slice(), n.as_slice()).as_slice(), tail.as_slice()).as_slice(),
                errors.as_slice(),
            );
            Some((owned("error"), from_chars(text.as_slice())))
        }
    }
}

/// Where each dropped path joins: a path with a key (its folder and its
/// lower-cased stem, for a mod file) joins the first earlier path with the
/// same key; any other path is a unit of its own. Returns the units as
/// lists of indices.
pub fn group_siblings(keys: &Vec<Option<(String, String)>>) -> (r: Vec<Vec<usize>>)
    ensures
        forall|u: int, k: int| 0 <= u < r@.len() && 0 <= k < r@[u]@.len() ==> #[trigger] r@[u]@[k] < keys@.len(),
        forall|i: int| 0 <= i < keys@.len() ==> #[trigger] in_some_unit(r@, i),
        forall|u: int| 0 <= u < r@.len() ==> #[trigger] r@[u]@.len() > 0,
        forall|u: int, k: int, l: int|
            0 <= u < r@.len() && 0 <= k < l < r@[u]@.len() ==> #[trigger] r@[u]@[k] < #[trigger] r@[u]@[l],
        forall|u: int, v: int| 0 <= u < v < r@.len() ==> #[trigger] r@[u]@[0] < #[trigger] r@[v]@[0],
        forall|u: int, k: int|
            0 <= u < r@.len() && 0 < k < r@[u]@.len() ==> keys@[#[trigger] r@[u]@[k] as int] is Some
                && same_key(keys@[r@[u]@[k] as int], keys@[r@[u]@[0] as int]),
        forall|u: int, v: int|
            0 <= u < v < r@.len() ==> !(keys@[#[trigger] r@[u]@[0] as int] is Some && same_key(
                keys@[r@[u]@[0] as int],
                keys@[#[trigger] r@[v]@[0] as int],
            )),
{
    let mut units: Vec<Vec<usize>> = Vec::new();
    let mut i: usize = 0;
    while i < keys.len()
        invariant
            i <= keys@.len(),
            forall|u: int, k: int| 0 <= u < units@.len() && 0 <= k < units@[u]@.len() ==> #[trigger] units@[u]@[k] < i,
            forall|j: int| 0 <= j < i ==> #[trigger] in_some_unit(units@, j),
            forall|u: int| 0 <= u < units@.len() ==> #[trigger] units@[u]@.len() > 0,
            forall|u: int, k: int, l: int|
                0 <= u < units@.len() && 0 <= k < l < units@[u]@.len() ==> #[trigger] units@[u]@[k] < #[trigger] units@[u]@[l],
            forall|u: int, v: int| 0 <= u < v < units@.len() ==> #[trigger] units@[u]@[0] < #[trigger] units@[v]@[0],
            forall|u: int, k: int|
                0 <= u < units@.len() && 0 < k < units@[u]@.len() ==> keys@[#[trigger] units@[u]@[k] as int] is Some
                    && same_key(keys@[units@[u]@[k] as int], keys@[units@[u]@[0] as int]),
            forall|u: int, v: int|
                0 <= u < v < units@.len() ==> !(keys@[#[trigger] units@[u]@[0] as int] is Some && same_key(
                    keys@[units@[u]@[0] as int],
                    keys@[#[trigger] units@[v]@[0] as int],
                )),
        decreases keys.len() - i,
    {
        let found = match &keys[i] {
            Some(key) => find_unit(keys, &units, key, i),
            None => None,
        };
        match found {
            Some(at) => {
                let ghost old_units = units@;
                let mut unit = units.remove(at);
                unit.push(i);
                units.insert(at, unit);
                assert forall|u: int| 0 <= u < units@.len() && u != at implies #[trigger] units@[u] == old_units[u] by {}
                assert(units@[at as int]@ == old_units[at as int]@.push(i));
                assert forall|j: int| 0 <= j < i + 1 implies #[trigger] in_some_unit(units@, j) by {
                    if j == i {
                        assert(units@[at as int]@[old_units[at as int]@.len() as int] == j);
                    } else {
                        assert(in_some_unit(old_units, j));
                        let (u, k) = choose|u: int, k: int|
                            0 <= u < old_units.len() && 0 <= k < old_units[u]@.len() && #[trigger] old_units[u]@[k] == j;
                        if u == at {
                            assert(units@[u]@[k] == j);
                        } else {
                            assert(units@[u]@[k] == j);
                        }
                    }
                }
            },
            None => {
                let ghost old_units = units@;
                let mut unit: Vec<usize> = Vec::new();
                unit.push(i);
                units.push(unit);
                assert forall|u: int| 0 <= u < old_units.len() implies #[trigger] units@[u] == old_units[u] by {}
                assert forall|j: int| 0 <= j < i + 1 implies #[trigger] in_some_unit(units@, j) by {
                    if j == i {
                        assert(units@[old_units.len() as int]@[0] == j);
                    } else {
                        assert(in_some_unit(old_units, j));
                        let (u, k) = choose|u: int, k: int|
                            0 <= u < old_units.len() && 0 <= k < old_units[u]@.len() && #[trigger] old_units[u]@[k] == j;
                        assert(units@[u]@[k] == j);
                    }
                }
            },
        }
        i = i + 1;
    }
    units
}

/// Some unit holds the index.
pub open spec fn in_some_unit(units: Seq<Vec<usize>>, i: int) -> bool {
    exists|u: int, k: int| 0 <= u < units.len() && 0 <= k < units[u]@.len() && #[trigger] units[u]@[k] == i
}

pub open spec fn same_key(a: Option<(String, String)>, b: Option<(String, String)>) -> bool {
    a matches Some(x) && b matches Some(y) && x.0@ == y.0@ && x.1@ == y.1@
}

fn find_unit(keys: &Vec<Option<(String, String)>>, units: &Vec<Vec<usize>>, key: &(String, String), i: usize) -> (r: Option<usize>)
    requires
        i < keys@.len(),
        keys@[i as int] == Some(*key),
        forall|u: int| 0 <= u < units@.len() ==> #[trigger] units@[u]@.len() > 0,
        forall|u: int, k: int| 0 <= u < units@.len() && 0 <= k < units@[u]@.len() ==> #[trigger] units@[u]@[k] < i,
    ensures
        match r {
            Some(at) => at < units@.len() && same_key(keys@[units@[at as int]@[0] as int], keys@[i as int]),
            None => forall|u: int| 0 <= u < units@.len() ==> !same_key(keys@[#[trigger] units@[u]@[0] as int], keys@[i as int]),
        },
{
    let mut u: usize = 0;
    while u < units.len()
        invariant
            u <= units@.len(),
            i < keys@.len(),
            keys@[i as int] == Some(*key),
            forall|w: int| 0 <= w < units@.len() ==> #[trigger] units@[w]@.len() > 0,
            forall|w: int, k: int| 0 <= w < units@.len() && 0 <= k < units@[w]@.len() ==> #[trigger] units@[w]@[k] < i,
            forall|w: int| 0 <= w < u ==> !same_key(keys@[#[trigger] units@[w]@[0] as int], keys@[i as int]),
        decreases units.len() - u,
    {
        let first = units[u][0];
        assert(units@[u as int]@[0] < i);
        match &keys[first] {
            Some(k) => {
                if same_text(k.0.as_str(), key.0.as_str()) && same_text(k.1.as_str(), key.1.as_str()) {
                    return Some(u);
                }
            },
            None => {},
        }
        u = u + 1;
    }
    None
}


// ---------------------------------------------------------------------
// Updates

/// One file of a mod as GameBanana lists it.
pub struct RemoteFile {
    pub id: u32,
    pub name: String,
    pub md5: String,
}

/// The position of the file that stands for an installed one: the first
/// with its ID, else the first with its name.
pub fn newest_file(files: &Vec<RemoteFile>, source: &ModSource) -> (r: Option<usize>)
    ensures
        match r {
            Some(i) => i < files@.len() && ((files@[i as int].id == source.file_id && (forall|j: int|
                0 <= j < i ==> #[trigger] files@[j].id != source.file_id)) || ((forall|j: int|
                0 <= j < files@.len() ==> #[trigger] files@[j].id != source.file_id) && files@[i as int].name@
                == source.file_name@ && (forall|j: int|
                0 <= j < i ==> #[trigger] files@[j].name@ != source.file_name@))),
            None => forall|j: int|
                0 <= j < files@.len() ==> #[trigger] files@[j].id != source.file_id && files@[j].name@
                    != source.file_name@,
        },
{
    let mut i: usize = 0;
    while i < files.len()
        invariant
            i <= files@.len(),
            forall|j: int| 0 <= j < i ==> #[trigger] files@[j].id != source.file_id,
        decreases files.len() - i,
    {
        if files[i].id == source.file_id {
            return Some(i);
        }
        i = i + 1;
    }
    let mut k: usize = 0;
    while k < files.len()
        invariant
            k <= files@.len(),
            forall|j: int| 0 <= j < files@.len() ==> #[trigger] files@[j].id != source.file_id,
            forall|j: int| 0 <= j < k ==> #[trigger] files@[j].name@ != source.file_name@,
        decreases files.len() - k,
    {
        if same_text(files[k].name.as_str(), source.file_name.as_str()) {
            return Some(k);
        }
        k = k + 1;
    }
    None
}

/// An installed file is out of date when GameBanana lists a checksum for
/// its file and that checksum differs, ignoring ASCII case, from the
/// installed one.
pub fn outdated(newest_md5: &str, installed_md5: &str) -> (r: bool)
    ensures
        r == (newest_md5@.len() > 0 && !eq_ignore_ascii_case(newest_md5@, installed_md5@)),
{
    let a = to_chars(newest_md5);
    let b = to_chars(installed_md5);
    a.len() > 0 && !eq_ignore_ascii_case_chars(a.as_slice(), b.as_slice())
}

/// The tag a mod card carries.
#[derive(Clone, Copy, Debug, PartialEq, Eq, Structural)]
pub enum ModTag {
    Untagged,
    Local,
    UpToDate,
    UpdateAvailable,
}

/// A mod installed by hand is local; one from GameBanana is tagged by its
/// update check, where one was made (`Some(true)` out of date).
pub fn tag_for(has_source: bool, check: Option<bool>) -> (r: ModTag)
    ensures
        !has_source ==> r == ModTag::Local,
        has_source ==> r == (match check {
            Some(true) => ModTag::UpdateAvailable,
            Some(false) => ModTag::UpToDate,
            None => ModTag::Untagged,
        }),
{
    if !has_source {
        return ModTag::Local;
    }
    match check {
        Some(true) => ModTag::UpdateAvailable,
        Some(false) => ModTag::UpToDate,
        None => ModTag::Untagged,
    }
}

// ---------------------------------------------------------------------
// Moving settings with a mod

/// The key a setting moves to when a mod or group at `old` moves to `new`:
/// the key `old` itself, or a key below it (`old` and a path separator),
/// keeps what follows `old`; other keys stay.
pub open spec fn spec_rekeyed(key: Seq<char>, old: Seq<char>, new: Seq<char>, sep: char) -> Option<Seq<char>> {
    if key == old || (starts_with(key, old) && key.len() > old.len() && key[old.len() as int] == sep) {
        Some(new + key.subrange(old.len() as int, key.len() as int))
    } else {
        None
    }
}

pub fn rekeyed(key: &str, old: &str, new: &str, sep: char) -> (r: Option<String>)
    ensures
        opt_view(r) == spec_rekeyed(key@, old@, new@, sep),
{
    let k = to_chars(key);
    let o = to_chars(old);
    if starts_with_chars(k.as_slice(), o.as_slice()) && (k.len() == o.len() || k[o.len()] == sep) {
        assert(k.len() == o.len() ==> k@ =~= o@);
        let n = to_chars(new);
        let rest = slice_chars(k.as_slice(), o.len(), k.len());
        Some(from_chars(concat_chars(n.as_slice(), rest.as_slice()).as_slice()))
    } else {
        assert(k@ == o@ ==> k@.subrange(0, o@.len() as int) =~= o@);
        None
    }
}

/// Moving a setting from `old` to `new` and back gives the key back, where
/// `new` has no key below `old` and the key is at or below `old`.
pub proof fn law_rekey_round_trip(key: Seq<char>, old: Seq<char>, new: Seq<char>, sep: char)
    requires
        spec_rekeyed(key, old, new, sep) is Some,
    ensures
        spec_rekeyed(spec_rekeyed(key, old, new, sep)->0, new, old, sep) == Some(key),
{
    let moved = spec_rekeyed(key, old, new, sep)->0;
    let tail = key.subrange(old.len() as int, key.len() as int);
    assert(moved == new + tail);
    assert(moved.subrange(0, new.len() as int) =~= new);
    assert(moved.subrange(new.len() as int, moved.len() as int) =~= tail);
    if key == old {
        assert(tail.len() == 0);
        assert(moved =~= new);
    } else {
        assert(moved[new.len() as int] == tail[0]);
        assert(tail[0] == key[old.len() as int]);
    }
    assert(old + tail =~= key);
}

// ---------------------------------------------------------------------
// Groups

/// The name a group is renamed to: the trimmed text, unless it is empty or
/// holds a character that paths reserve.
pub open spec fn spec_group_rename(new_name: Seq<char>) -> Option<Seq<char>> {
    let t = trim(new_name, TrimSet::Whitespace);
    if t.len() == 0 || exists|i: int|
        0 <= i < t.len() && (t[i] == '/' || t[i] == '\\' || t[i] == ':' || t[i] == '*' || t[i] == '?'
            || t[i] == '"' || t[i] == '<' || t[i] == '>' || t[i] == '|') {
        None
    } else {
        Some(t)
    }
}

pub fn group_rename(new_name: &str) -> (r: Option<String>)
    ensures
        opt_view(r) == spec_group_rename(new_name@),
{
    let t = trim_chars(to_chars(new_name).as_slice(), TrimSet::Whitespace);
    if t.len() == 0 {
        return None;
    }
    let mut i: usize = 0;
    while i < t.len()
        invariant
            i <= t@.len(),
            t@ == trim(new_name@, TrimSet::Whitespace),
            forall|j: int|
                0 <= j < i ==> !(t@[j] == '/' || t@[j] == '\\' || t@[j] == ':' || t@[j] == '*' || t@[j] == '?'
                    || t@[j] == '"' || t@[j] == '<' || t@[j] == '>' || t@[j] == '|'),
        decreases t.len() - i,
    {
        let c = t[i];
        if c == '/' || c == '\\' || c == ':' || c == '*' || c == '?' || c == '"' || c == '<' || c == '>'
            || c == '|' {
            assert(t@[i as int] == c);
            return None;
        }
        i = i + 1;
    }
    Some(from_chars(t.as_slice()))
}

/// The name a new group with the selected mods takes: the trimmed text,
/// refused where it is empty or holds a character a file name cannot.
pub open spec fn spec_new_group_name(name: Seq<char>) -> Option<Seq<char>> {
    let t = trim(name, TrimSet::Whitespace);
    if t.len() == 0 || exists|i: int| 0 <= i < t.len() && crate::filenames::is_invalid_filename_char(t[i]) {
        None
    } else {
        Some(t)
    }
}

pub fn new_group_name(name: &str) -> (r: Option<String>)
    ensures
        opt_view(r) == spec_new_group_name(name@),
{
    let t = trim_chars(to_chars(name).as_slice(), TrimSet::Whitespace);
    if t.len() == 0 {
        return None;
    }
    let mut i: usize = 0;
    while i < t.len()
        invariant
            i <= t@.len(),
            t@ == trim(name@, TrimSet::Whitespace),
            forall|j: int| 0 <= j < i ==> !crate::filenames::is_invalid_filename_char(t@[j]),
        decreases t.len() - i,
    {
        if crate::filenames::is_invalid_filename_char_exec(t[i]) {
            assert(crate::filenames::is_invalid_filename_char(t@[i as int]));
            return None;
        }
        i = i + 1;
    }
    Some(from_chars(t.as_slice()))
}

/// The folder name of the `counter`-th try at a fresh group: `New Group`,
/// then `New Group 2`, `New Group 3`, ...
pub open spec fn spec_fresh_group_name(counter: nat) -> Seq<char> {
    if counter <= 1 {
        "New Group"@
    } else {
        "New Group "@ + decimal(counter)
    }
}

pub fn fresh_group_name(counter: usize) -> (r: String)
    ensures
        r@ == spec_fresh_group_name(counter as nat),
{
    if counter <= 1 {
        owned("New Group")
    } else {
        let head = to_chars("New Group ");
        let n = decimal_chars(counter);
        from_chars(concat_chars(head.as_slice(), n.as_slice()).as_slice())
    }
}

/// The name a linked copy of a mod takes in a group: the folder name, then
/// `name (2)`, `name (3)`, ... for the `counter`-th try.
pub open spec fn spec_copy_name(base: Seq<char>, counter: nat) -> Seq<char> {
    if counter <= 1 {
        base
    } else {
        base + " ("@ + decimal(counter) + ")"@
    }
}

pub fn copy_name(base: &str, counter: usize) -> (r: String)
    ensures
        r@ == spec_copy_name(base@, counter as nat),
{
    if counter <= 1 {
        owned(base)
    } else {
        let b = to_chars(base);
        let open = to_chars(" (");
        let n = decimal_chars(counter);
        let close = to_chars(")");
        let t = concat_chars(concat_chars(concat_chars(b.as_slice(), open.as_slice()).as_slice(), n.as_slice()).as_slice(), close.as_slice());
        from_chars(t.as_slice())
    }
}

/// Which mods of a group a group switch touches: when every mod is on (and
/// there is one), each mod is switched off; otherwise each mod that is off
/// is switched on.
pub open spec fn spec_group_toggle(enabled: Seq<bool>) -> Seq<bool> {
    let all_on = enabled.len() > 0 && forall|i: int| 0 <= i < enabled.len() ==> #[trigger] enabled[i];
    enabled.map_values(|e: bool| e == all_on)
}

pub fn group_toggle(enabled: &Vec<bool>) -> (r: Vec<bool>)
    ensures
        r@ == spec_group_toggle(enabled@),
{
    let mut all_on = enabled.len() > 0;
    let mut i: usize = 0;
    while i < enabled.len()
        invariant
            i <= enabled@.len(),
            all_on == (enabled@.len() > 0 && forall|j: int| 0 <= j < i ==> #[trigger] enabled@[j]),
        decreases enabled.len() - i,
    {
        if !enabled[i] {
            all_on = false;
        }
        i = i + 1;
    }
    let mut out: Vec<bool> = Vec::new();
    let mut k: usize = 0;
    while k < enabled.len()
        invariant
            k <= enabled@.len(),
            all_on == (enabled@.len() > 0 && forall|j: int| 0 <= j < enabled@.len() ==> #[trigger] enabled@[j]),
            out@ == enabled@.subrange(0, k as int).map_values(|e: bool| e == all_on),
        decreases enabled.len() - k,
    {
        out.push(enabled[k] == all_on);
        k = k + 1;
        assert(out@ =~= enabled@.subrange(0, k as int).map_values(|e: bool| e == all_on));
    }
    assert(enabled@.subrange(0, enabled@.len() as int) =~= enabled@);
    out
}

/// A group switch leaves the group all on or all off: every mod ends up in
/// the state opposite to "all on" before.
pub proof fn law_group_toggle_uniform(enabled: Seq<bool>)
    ensures
        forall|i: int| 0 <= i < enabled.len() ==> (enabled[i] != #[trigger] spec_group_toggle(enabled)[i])
            == !(enabled.len() > 0 && forall|j: int| 0 <= j < enabled.len() ==> #[trigger] enabled[j]),
{
}


// ---------------------------------------------------------------------
// The page's state

/// Which mods the status filter shows.
#[derive(Clone, Copy, Debug, PartialEq, Eq, Structural)]
pub enum StatusFilter {
    All,
    Enabled,
    Disabled,
}

/// The group filter's entry for the mods outside any group.
pub open spec fn ungrouped() -> Seq<char> {
    seq!['\u{1}', 'u', 'n', 'g', 'r', 'o', 'u', 'p', 'e', 'd']
}

fn ungrouped_text() -> (r: String)
    ensures
        r@ == ungrouped(),
{
    let v: Vec<char> = vec!['\u{1}', 'u', 'n', 'g', 'r', 'o', 'u', 'p', 'e', 'd'];
    assert(v@ =~= ungrouped());
    from_chars(v.as_slice())
}

/// Whether a mod passes the status filter, the author and character
/// filters and the search. `shown_name` is the name the mod is shown
/// under, `group_matches` whether its group's name matches the search.
pub open spec fn spec_mod_visible(
    status: StatusFilter,
    authors: Set<Seq<char>>,
    characters: Set<Seq<char>>,
    search: Seq<char>,
    enabled: bool,
    author: Option<Seq<char>>,
    icon: Option<Seq<char>>,
    shown_name: Seq<char>,
    folder_name: Seq<char>,
    group_matches: bool,
) -> bool {
    let wrong_status = match status {
        StatusFilter::Enabled => !enabled,
        StatusFilter::Disabled => enabled,
        StatusFilter::All => false,
    };
    &&& !wrong_status
    &&& (authors.len() == 0 || (spec_mod_author(author) matches Some(a) && authors.contains(a)))
    &&& (search.len() == 0 || group_matches || contains_seq(lowercase(shown_name), search) || contains_seq(
        lowercase(folder_name),
        search,
    ))
    &&& (characters.len() == 0 || (spec_mod_character(icon, shown_name, folder_name) matches Some(c)
        && characters.contains(c)))
}

/// A search hides only mods whose names do not match: a mod that the other
/// filters show stays shown under a search that its lowercased folder name
/// or shown name contains, or that its group's name matches.
pub proof fn law_search_matches_either_name(
    status: StatusFilter,
    authors: Set<Seq<char>>,
    characters: Set<Seq<char>>,
    search: Seq<char>,
    enabled: bool,
    author: Option<Seq<char>>,
    icon: Option<Seq<char>>,
    shown_name: Seq<char>,
    folder_name: Seq<char>,
    group_matches: bool,
)
    requires
        spec_mod_visible(status, authors, characters, Seq::<char>::empty(), enabled, author, icon, shown_name, folder_name, group_matches),
        contains_seq(lowercase(folder_name), search) || contains_seq(lowercase(shown_name), search) || group_matches,
    ensures
        spec_mod_visible(status, authors, characters, search, enabled, author, icon, shown_name, folder_name, group_matches),
{
}

/// A search only ever hides: a mod shown under a search is shown without
/// it, and a non-empty search that shows it matches its folder name, its
/// shown name or its group.
pub proof fn law_search_only_narrows(
    status: StatusFilter,
    authors: Set<Seq<char>>,
    characters: Set<Seq<char>>,
    search: Seq<char>,
    enabled: bool,
    author: Option<Seq<char>>,
    icon: Option<Seq<char>>,
    shown_name: Seq<char>,
    folder_name: Seq<char>,
    group_matches: bool,
)
    requires
        spec_mod_visible(status, authors, characters, search, enabled, author, icon, shown_name, folder_name, group_matches),
    ensures
        spec_mod_visible(status, authors, characters, Seq::<char>::empty(), enabled, author, icon, shown_name, folder_name, group_matches),
        search.len() > 0 ==> contains_seq(lowercase(folder_name), search) || contains_seq(lowercase(shown_name), search)
            || group_matches,
{
}

/// Each filter only hides, and only what it names: the status filter shows
/// just switched-on (`Enabled`) or switched-off (`Disabled`) mods and `All`
/// shows what either shows; an author or character filter shows just the
/// mods whose author or character it holds; lifting a filter hides nothing
/// that was shown.
pub proof fn law_filters_only_narrow(
    status: StatusFilter,
    authors: Set<Seq<char>>,
    characters: Set<Seq<char>>,
    search: Seq<char>,
    enabled: bool,
    author: Option<Seq<char>>,
    icon: Option<Seq<char>>,
    shown_name: Seq<char>,
    folder_name: Seq<char>,
    group_matches: bool,
)
    ensures
        spec_mod_visible(StatusFilter::Enabled, authors, characters, search, enabled, author, icon, shown_name, folder_name, group_matches) ==> enabled,
        spec_mod_visible(StatusFilter::Disabled, authors, characters, search, enabled, author, icon, shown_name, folder_name, group_matches) ==> !enabled,
        spec_mod_visible(StatusFilter::All, authors, characters, search, enabled, author, icon, shown_name, folder_name, group_matches)
            <==> (spec_mod_visible(StatusFilter::Enabled, authors, characters, search, enabled, author, icon, shown_name, folder_name, group_matches)
            || spec_mod_visible(StatusFilter::Disabled, authors, characters, search, enabled, author, icon, shown_name, folder_name, group_matches)),
        spec_mod_visible(status, authors, characters, search, enabled, author, icon, shown_name, folder_name, group_matches)
            ==> spec_mod_visible(StatusFilter::All, Set::<Seq<char>>::empty(), Set::<Seq<char>>::empty(), search, enabled, author, icon, shown_name, folder_name, group_matches),
        spec_mod_visible(status, authors, characters, search, enabled, author, icon, shown_name, folder_name, group_matches) && authors.len() > 0
            ==> (spec_mod_author(author) matches Some(a) && authors.contains(a)),
        spec_mod_visible(status, authors, characters, search, enabled, author, icon, shown_name, folder_name, group_matches) && characters.len() > 0
            ==> (spec_mod_character(icon, shown_name, folder_name) matches Some(c) && characters.contains(c)),
{
    assert(Set::<Seq<char>>::empty().len() == 0);
}

/// The mod manager page's state: the selected mods and empty groups, the
/// collapsed groups, the mods switched while the game runs (they need a
/// restart), and the search and filters.
pub struct ModManagerHandler {
    selected: IdSet,
    selected_groups: IdSet,
    collapsed: IdSet,
    restart_required: IdSet,
    status: StatusFilter,
    filter_characters: IdSet,
    filter_authors: IdSet,
    filter_group: String,
    search: String,
}

/// Whether a mod was installed from this GameBanana file.
pub open spec fn from_file(m: Mod, mod_id: u32, file_id: u32) -> bool {
    m.source matches Some(s) && s.mod_id == mod_id && s.file_id == file_id
}

impl ModManagerHandler {
    pub closed spec fn selected_set(&self) -> Set<Seq<char>> {
        self.selected.view()
    }

    pub closed spec fn selected_group_set(&self) -> Set<Seq<char>> {
        self.selected_groups.view()
    }

    pub closed spec fn collapsed_set(&self) -> Set<Seq<char>> {
        self.collapsed.view()
    }

    pub closed spec fn restart_set(&self) -> Set<Seq<char>> {
        self.restart_required.view()
    }

    pub closed spec fn status(&self) -> StatusFilter {
        self.status
    }

    pub closed spec fn character_filter(&self) -> Set<Seq<char>> {
        self.filter_characters.view()
    }

    pub closed spec fn author_filter(&self) -> Set<Seq<char>> {
        self.filter_authors.view()
    }

    pub closed spec fn group_filter(&self) -> Seq<char> {
        self.filter_group@
    }

    pub closed spec fn search_text(&self) -> Seq<char> {
        self.search@
    }

    /// Nothing selected, collapsed or waiting for a restart; no search and
    /// no filter.
    pub fn new() -> (r: Self)
        ensures
            r.selected_set() == Set::<Seq<char>>::empty(),
            r.selected_group_set() == Set::<Seq<char>>::empty(),
            r.collapsed_set() == Set::<Seq<char>>::empty(),
            r.restart_set() == Set::<Seq<char>>::empty(),
            r.status() == StatusFilter::All,
            r.character_filter() == Set::<Seq<char>>::empty(),
            r.author_filter() == Set::<Seq<char>>::empty(),
            r.group_filter().len() == 0,
            r.search_text().len() == 0,
    {
        ModManagerHandler {
            selected: IdSet::new(),
            selected_groups: IdSet::new(),
            collapsed: IdSet::new(),
            restart_required: IdSet::new(),
            status: StatusFilter::All,
            filter_characters: IdSet::new(),
            filter_authors: IdSet::new(),
            filter_group: String::new(),
            search: String::new(),
        }
    }

    /// A mod was switched. While the game runs, switching it marks it as
    /// needing a restart, and switching it back clears the mark.
    pub fn note_toggle(&mut self, id: &str, game_running: bool)
        ensures
            game_running ==> final(self).restart_set() == (if old(self).restart_set().contains(id@) {
                old(self).restart_set().remove(id@)
            } else {
                old(self).restart_set().insert(id@)
            }),
            !game_running ==> final(self).restart_set() == old(self).restart_set(),
            final(self).selected_set() == old(self).selected_set(),
            final(self).collapsed_set() == old(self).collapsed_set(),
    {
        if !game_running {
            return;
        }
        self.restart_required.toggle(id);
    }

    /// The game closed: every restart mark goes. Returns whether there were
    /// any, in which case the page is rebuilt.
    pub fn game_closed(&mut self) -> (r: bool)
        ensures
            r == (old(self).restart_set().len() != 0),
            final(self).restart_set() == Set::<Seq<char>>::empty(),
            final(self).selected_set() == old(self).selected_set(),
            final(self).collapsed_set() == old(self).collapsed_set(),
    {
        let pending = self.restart_required.len() != 0;
        self.restart_required.clear();
        pending
    }

    /// Whether a mod carries a restart mark.
    pub fn restart_required(&self, id: &str) -> (r: bool)
        ensures
            r == self.restart_set().contains(id@),
    {
        self.restart_required.contains(id)
    }

    /// Selects a mod, or unselects a selected one. Returns whether it is
    /// selected now.
    pub fn toggle_selected(&mut self, id: &str) -> (r: bool)
        ensures
            r == !old(self).selected_set().contains(id@),
            r ==> final(self).selected_set() == old(self).selected_set().insert(id@),
            !r ==> final(self).selected_set() == old(self).selected_set().remove(id@),
            final(self).restart_set() == old(self).restart_set(),
            final(self).collapsed_set() == old(self).collapsed_set(),
    {
        self.selected.toggle(id)
    }

    /// Whether a mod is selected.
    pub fn is_selected(&self, id: &str) -> (r: bool)
        ensures
            r == self.selected_set().contains(id@),
    {
        self.selected.contains(id)
    }

    /// How many mods are selected.
    pub fn selected_count(&self) -> (r: usize)
        ensures
            r == self.selected_set().len(),
    {
        self.selected.len()
    }

    /// "Select all": where every shown mod is selected already (as many
    /// selected as shown, and some shown) the selection is cleared, else it
    /// becomes exactly the shown mods.
    pub fn select_all(&mut self, displayed: &Vec<String>)
        ensures
            (displayed@.len() > 0 && old(self).selected_set().len() == displayed@.len())
                ==> final(self).selected_set() == Set::<Seq<char>>::empty(),
            !(displayed@.len() > 0 && old(self).selected_set().len() == displayed@.len())
                ==> final(self).selected_set() == crate::idset::ids_view(displayed@).to_set(),
            final(self).restart_set() == old(self).restart_set(),
            final(self).collapsed_set() == old(self).collapsed_set(),
    {
        let all = displayed.len() > 0 && self.selected.len() == displayed.len();
        if all {
            self.selected.clear();
        } else {
            self.selected = IdSet::from_ids(displayed);
        }
    }

    /// The selected mods among those shown, in the order shown.
    pub fn selected_ids(&self, displayed: &Vec<String>) -> (r: Vec<String>)
        ensures
            strings_view(r@) == crate::idset::ids_view(displayed@).filter(
                |i: Seq<char>| self.selected_set().contains(i),
            ),
    {
        let ghost keep = |i: Seq<char>| self.selected_set().contains(i);
        let ghost dv = crate::idset::ids_view(displayed@);
        let mut out: Vec<String> = Vec::new();
        let mut k: usize = 0;
        while k < displayed.len()
            invariant
                k <= displayed@.len(),
                dv == crate::idset::ids_view(displayed@),
                keep == (|i: Seq<char>| self.selected_set().contains(i)),
                strings_view(out@) == dv.subrange(0, k as int).filter(keep),
            decreases displayed.len() - k,
        {
            proof {
                reveal(Seq::filter);
                assert(dv.subrange(0, k + 1).drop_last() =~= dv.subrange(0, k as int));
                assert(dv.subrange(0, k + 1).last() == displayed@[k as int]@);
            }
            if self.selected.contains(displayed[k].as_str()) {
                let ghost before = strings_view(out@);
                out.push(crate::idset::owned(displayed[k].as_str()));
                assert(strings_view(out@) =~= before.push(displayed@[k as int]@));
            }
            k = k + 1;
        }
        assert(dv.subrange(0, dv.len() as int) =~= dv);
        out
    }

    /// What a drag onto a zone moves, and where: a mod dropped on the zone it
    /// already sits in goes back to the top level (the empty zone); a
    /// selected mod takes every selected mod shown along, in the order
    /// shown, when more than one is selected.
    pub fn drop_plan(&self, id: &str, zone: &str, current_zone: Option<&str>, displayed: &Vec<String>) -> (r: (
        Vec<String>,
        String,
    ))
        ensures
            r.1@ == (if zone@.len() > 0 && (current_zone matches Some(c) && c@ == zone@) {
                Seq::<char>::empty()
            } else {
                zone@
            }),
            strings_view(r.0@) == (if self.selected_set().contains(id@) && self.selected_set().len() > 1 {
                crate::idset::ids_view(displayed@).filter(|i: Seq<char>| self.selected_set().contains(i))
            } else {
                seq![id@]
            }),
    {
        let target = match current_zone {
            Some(c) => {
                if to_chars(zone).len() > 0 && crate::idset::same_text(c, zone) {
                    String::new()
                } else {
                    crate::idset::owned(zone)
                }
            },
            None => crate::idset::owned(zone),
        };
        proof {
            if !(zone@.len() > 0 && (current_zone matches Some(c) && c@ == zone@)) {
                assert(target@ == zone@);
            } else {
                assert(target@ =~= Seq::<char>::empty());
            }
        }
        if self.selected.contains(id) && self.selected.len() > 1 {
            (self.selected_ids(displayed), target)
        } else {
            let one = vec![crate::idset::owned(id)];
            assert(strings_view(one@) =~= seq![id@]);
            (one, target)
        }
    }

    /// Whether every one of the IDs is selected.
    pub fn all_selected(&self, ids: &Vec<String>) -> (r: bool)
        ensures
            r == forall|k: int| 0 <= k < ids@.len() ==> self.selected_set().contains(#[trigger] ids@[k]@),
    {
        let mut k: usize = 0;
        while k < ids.len()
            invariant
                k <= ids@.len(),
                forall|j: int| 0 <= j < k ==> self.selected_set().contains(#[trigger] ids@[j]@),
            decreases ids.len() - k,
        {
            if !self.selected.contains(ids[k].as_str()) {
                return false;
            }
            k = k + 1;
        }
        true
    }

    /// Unselects every mod, as after the selected mods were deleted.
    pub fn clear_selection(&mut self)
        ensures
            final(self).selected_set() == Set::<Seq<char>>::empty(),
            final(self).selected_group_set() == old(self).selected_group_set(),
            final(self).collapsed_set() == old(self).collapsed_set(),
            final(self).restart_set() == old(self).restart_set(),
    {
        self.selected.clear();
    }

    /// Hands out the selected groups, each once, and unselects them.
    pub fn take_selected_groups(&mut self) -> (r: Vec<String>)
        ensures
            ids_view(r@).to_set() == old(self).selected_group_set(),
            ids_view(r@).no_duplicates(),
            final(self).selected_group_set() == Set::<Seq<char>>::empty(),
            final(self).selected_set() == old(self).selected_set(),
            final(self).collapsed_set() == old(self).collapsed_set(),
    {
        self.selected_groups.take()
    }

    /// A group renamed from `from` to `to`: where it was collapsed, it stays
    /// collapsed under its new ID.
    pub fn group_moved(&mut self, from: &str, to: &str)
        ensures
            old(self).collapsed_set().contains(from@) ==> final(self).collapsed_set() == old(
                self,
            ).collapsed_set().remove(from@).insert(to@),
            !old(self).collapsed_set().contains(from@) ==> final(self).collapsed_set() == old(self).collapsed_set(),
            final(self).selected_set() == old(self).selected_set(),
            final(self).restart_set() == old(self).restart_set(),
    {
        if self.collapsed.remove(from) {
            self.collapsed.insert(to);
        }
    }

    /// Whether a scanned mod was installed from this GameBanana file.
    pub fn is_source_installed(groups: &Vec<Group>, mod_id: u32, file_id: u32) -> (r: bool)
        ensures
            r == exists|g: int, k: int|
                0 <= g < groups@.len() && 0 <= k < groups@[g].mods@.len() && from_file(
                    #[trigger] groups@[g].mods@[k],
                    mod_id,
                    file_id,
                ),
    {
        let mut g: usize = 0;
        while g < groups.len()
            invariant
                g <= groups@.len(),
                forall|a: int, k: int|
                    0 <= a < g && 0 <= k < groups@[a].mods@.len() ==> !from_file(#[trigger] groups@[a].mods@[k], mod_id, file_id),
            decreases groups.len() - g,
        {
            let mods = &groups[g].mods;
            let mut k: usize = 0;
            while k < mods.len()
                invariant
                    g < groups@.len(),
                    mods@ == groups@[g as int].mods@,
                    k <= mods@.len(),
                    forall|a: int, j: int|
                        0 <= a < g && 0 <= j < groups@[a].mods@.len() ==> !from_file(#[trigger] groups@[a].mods@[j], mod_id, file_id),
                    forall|j: int|
                        0 <= j < k ==> !from_file(#[trigger] mods@[j], mod_id, file_id),
                decreases mods.len() - k,
            {
                match &mods[k].source {
                    Some(s) => {
                        if s.mod_id == mod_id && s.file_id == file_id {
                            assert(groups@[g as int].mods@[k as int] == mods@[k as int]);
                            return true;
                        }
                    },
                    None => {},
                }
                k = k + 1;
            }
            assert forall|a: int, j: int|
                0 <= a < g + 1 && 0 <= j < groups@[a].mods@.len() implies !from_file(#[trigger] groups@[a].mods@[j], mod_id, file_id) by {
                if a == g {
                    assert(groups@[a].mods@[j] == mods@[j]);
                }
            }
            g = g + 1;
        }
        false
    }

    /// A mod moved from `from` to `to`: where it was selected, its new ID
    /// is selected in place of the old one.
    pub fn moved(&mut self, from: &str, to: &str)
        ensures
            old(self).selected_set().contains(from@) ==> final(self).selected_set() == old(
                self,
            ).selected_set().remove(from@).insert(to@),
            !old(self).selected_set().contains(from@) ==> final(self).selected_set() == old(self).selected_set(),
            final(self).restart_set() == old(self).restart_set(),
            final(self).collapsed_set() == old(self).collapsed_set(),
    {
        if self.selected.remove(from) {
            self.selected.insert(to);
        }
    }

    /// Selecting a group's header: where all of its shown mods are selected
    /// they are unselected, else all of them are selected. A group without
    /// shown mods changes nothing.
    pub fn select_group(&mut self, group_ids: &Vec<String>)
        ensures
            group_ids@.len() == 0 ==> final(self).selected_set() == old(self).selected_set(),
            group_ids@.len() > 0 && crate::idset::ids_view(group_ids@).to_set().subset_of(old(self).selected_set())
                ==> final(self).selected_set() == old(self).selected_set().difference(
                crate::idset::ids_view(group_ids@).to_set(),
            ),
            group_ids@.len() > 0 && !crate::idset::ids_view(group_ids@).to_set().subset_of(old(self).selected_set())
                ==> final(self).selected_set() == old(self).selected_set().union(
                crate::idset::ids_view(group_ids@).to_set(),
            ),
            final(self).restart_set() == old(self).restart_set(),
            final(self).collapsed_set() == old(self).collapsed_set(),
    {
        let ghost gs = crate::idset::ids_view(group_ids@);
        if group_ids.len() == 0 {
            return;
        }
        let mut all = true;
        let mut i: usize = 0;
        while i < group_ids.len()
            invariant
                i <= group_ids@.len(),
                gs == crate::idset::ids_view(group_ids@),
                all == forall|k: int| 0 <= k < i ==> #[trigger] self.selected.view().contains(gs[k]),
            decreases group_ids.len() - i,
        {
            assert(gs[i as int] == group_ids@[i as int]@);
            if !self.selected.contains(group_ids[i].as_str()) {
                all = false;
            }
            i = i + 1;
        }
        assert(all == gs.to_set().subset_of(self.selected.view())) by {
            if all {
                assert forall|x: Seq<char>| gs.to_set().contains(x) implies self.selected.view().contains(x) by {
                    let k = choose|k: int| 0 <= k < gs.len() && gs[k] == x;
                }
            } else {
                let k = choose|k: int| 0 <= k < gs.len() && !self.selected.view().contains(#[trigger] gs[k]);
                assert(gs.to_set().contains(gs[k]));
            }
        }
        let ghost start = self.selected.view();
        let mut k: usize = 0;
        while k < group_ids.len()
            invariant
                k <= group_ids@.len(),
                gs == crate::idset::ids_view(group_ids@),
                all ==> self.selected.view() == start.difference(gs.subrange(0, k as int).to_set()),
                !all ==> self.selected.view() == start.union(gs.subrange(0, k as int).to_set()),
                self.restart_required.view() == old(self).restart_required.view(),
                self.collapsed.view() == old(self).collapsed.view(),
            decreases group_ids.len() - k,
        {
            let ghost before = gs.subrange(0, k as int);
            let ghost after = gs.subrange(0, k + 1);
            assert(after =~= before.push(gs[k as int]));
            assert(after.to_set() =~= before.to_set().insert(gs[k as int])) by {
                assert forall|x: Seq<char>| #[trigger] after.to_set().contains(x) <==> before.to_set().insert(gs[k as int]).contains(x) by {
                    if after.contains(x) {
                        let t = choose|t: int| 0 <= t < after.len() && after[t] == x;
                        if t < before.len() {
                            assert(before[t] == x);
                        }
                    }
                    if before.contains(x) {
                        let t = choose|t: int| 0 <= t < before.len() && before[t] == x;
                        assert(after[t] == x);
                    }
                    if x == gs[k as int] {
                        assert(after[k as int] == x);
                    }
                }
            }
            assert(gs[k as int] == group_ids@[k as int]@);
            if all {
                self.selected.remove(group_ids[k].as_str());
                assert(self.selected.view() =~= start.difference(after.to_set()));
            } else {
                self.selected.insert(group_ids[k].as_str());
                assert(self.selected.view() =~= start.union(after.to_set()));
            }
            k = k + 1;
        }
        assert(gs.subrange(0, gs.len() as int) =~= gs);
    }

    /// Collapses a group, or opens a collapsed one. Returns whether it is
    /// collapsed now.
    pub fn toggle_collapsed(&mut self, id: &str) -> (r: bool)
        ensures
            r == !old(self).collapsed_set().contains(id@),
            r ==> final(self).collapsed_set() == old(self).collapsed_set().insert(id@),
            !r ==> final(self).collapsed_set() == old(self).collapsed_set().remove(id@),
            final(self).selected_set() == old(self).selected_set(),
            final(self).restart_set() == old(self).restart_set(),
    {
        self.collapsed.toggle(id)
    }

    /// Whether a group is collapsed.
    pub fn is_collapsed(&self, id: &str) -> (r: bool)
        ensures
            r == self.collapsed_set().contains(id@),
    {
        self.collapsed.contains(id)
    }

    /// Selects an empty group, or unselects a selected one.
    pub fn toggle_group_selected(&mut self, id: &str) -> (r: bool)
        ensures
            r == !old(self).selected_group_set().contains(id@),
            r ==> final(self).selected_group_set() == old(self).selected_group_set().insert(id@),
            !r ==> final(self).selected_group_set() == old(self).selected_group_set().remove(id@),
            final(self).selected_set() == old(self).selected_set(),
    {
        self.selected_groups.toggle(id)
    }

    /// The search text, as typed: it is kept trimmed and in lower case.
    pub fn set_search(&mut self, text: &str)
        ensures
            final(self).search_text() == lowercase(trim(text@, TrimSet::Whitespace)),
            final(self).selected_set() == old(self).selected_set(),
            final(self).status() == old(self).status(),
    {
        let t = from_chars(trim_chars(to_chars(text).as_slice(), TrimSet::Whitespace).as_slice());
        self.search = to_lowercase(t.as_str());
    }

    /// The filters as the filter panel sets them.
    pub fn set_filters(&mut self, status: StatusFilter, group: &str, characters: &Vec<String>, authors: &Vec<String>)
        ensures
            final(self).status() == status,
            final(self).group_filter() == group@,
            final(self).character_filter() == crate::idset::ids_view(characters@).to_set(),
            final(self).author_filter() == crate::idset::ids_view(authors@).to_set(),
            final(self).search_text() == old(self).search_text(),
            final(self).selected_set() == old(self).selected_set(),
    {
        self.status = status;
        self.filter_group = owned(group);
        self.filter_characters = IdSet::from_ids(characters);
        self.filter_authors = IdSet::from_ids(authors);
    }

    /// Clears every filter (the search stays).
    pub fn clear_filters(&mut self)
        ensures
            final(self).status() == StatusFilter::All,
            final(self).group_filter().len() == 0,
            final(self).character_filter() == Set::<Seq<char>>::empty(),
            final(self).author_filter() == Set::<Seq<char>>::empty(),
            final(self).search_text() == old(self).search_text(),
            final(self).selected_set() == old(self).selected_set(),
    {
        self.status = StatusFilter::All;
        self.filter_group = String::new();
        self.filter_characters.clear();
        self.filter_authors.clear();
    }

    /// Whether any filter is set.
    pub fn filtering(&self) -> (r: bool)
        ensures
            r == (self.status() != StatusFilter::All || self.character_filter().len() != 0
                || self.author_filter().len() != 0 || self.group_filter().len() != 0),
    {
        self.status != StatusFilter::All || self.filter_characters.len() != 0
            || self.filter_authors.len() != 0 || to_chars(self.filter_group.as_str()).len() != 0
    }

    /// The count on the filter button: one for the status filter, one for
    /// the group filter, and one per character and author checked.
    pub fn active_filter_count(&self) -> (r: i32)
        requires
            self.character_filter().len() + self.author_filter().len() + 2 <= i32::MAX,
        ensures
            r == (if self.status() != StatusFilter::All { 1int } else { 0int }) + (if self.group_filter().len()
                != 0 { 1int } else { 0int }) + self.character_filter().len() + self.author_filter().len(),
    {
        let a: i32 = if self.status != StatusFilter::All { 1 } else { 0 };
        let b: i32 = if to_chars(self.filter_group.as_str()).len() != 0 { 1 } else { 0 };
        let c = self.filter_characters.len();
        let d = self.filter_authors.len();
        let sum: i32 = (c + d) as i32;
        a + b + sum
    }

    /// Whether a group passes the group filter: every group where none is
    /// set, the mods outside groups for the "ungrouped" entry, else the one
    /// group.
    pub fn in_filtered_group(&self, group_id: &str) -> (r: bool)
        ensures
            r == (if self.group_filter().len() == 0 {
                true
            } else if self.group_filter() == ungrouped() {
                group_id@.len() == 0
            } else {
                group_id@ == self.group_filter()
            }),
    {
        if to_chars(self.filter_group.as_str()).len() == 0 {
            return true;
        }
        let ug = ungrouped_text();
        if same_text(self.filter_group.as_str(), ug.as_str()) {
            return to_chars(group_id).len() == 0;
        }
        same_text(group_id, self.filter_group.as_str())
    }

    /// Whether a group's own name matches the search, which shows all of
    /// its mods.
    pub fn group_matches(&self, group_name: &str, is_root: bool) -> (r: bool)
        ensures
            r == (!is_root && self.search_text().len() > 0 && contains_seq(lowercase(group_name@), self.search_text())),
    {
        if is_root || to_chars(self.search.as_str()).len() == 0 {
            return false;
        }
        let lower = to_lowercase(group_name);
        let hay = to_chars(lower.as_str());
        let needle = to_chars(self.search.as_str());
        find_chars(hay.as_slice(), needle.as_slice()).is_some()
    }

    /// Whether a mod shows under the filters and the search.
    pub fn mod_visible(&self, m: &Mod, shown_name: &str, group_matches: bool) -> (r: bool)
        ensures
            r == spec_mod_visible(
                self.status(),
                self.author_filter(),
                self.character_filter(),
                self.search_text(),
                m.is_enabled,
                opt_view(m.author),
                opt_view(m.icon),
                shown_name@,
                m.folder_name@,
                group_matches,
            ),
    {
        let wrong_status = match self.status {
            StatusFilter::Enabled => !m.is_enabled,
            StatusFilter::Disabled => m.is_enabled,
            StatusFilter::All => false,
        };
        if wrong_status {
            return false;
        }
        if self.filter_authors.len() != 0 {
            let ok = match mod_author(m) {
                Some(a) => self.filter_authors.contains(a.as_str()),
                None => false,
            };
            if !ok {
                return false;
            }
        }
        let needle = to_chars(self.search.as_str());
        if needle.len() != 0 && !group_matches {
            let shown = to_lowercase(shown_name);
            let folder = to_lowercase(m.folder_name.as_str());
            let in_shown = find_chars(to_chars(shown.as_str()).as_slice(), needle.as_slice()).is_some();
            let in_folder = find_chars(to_chars(folder.as_str()).as_slice(), needle.as_slice()).is_some();
            if !in_shown && !in_folder {
                return false;
            }
        }
        if self.filter_characters.len() != 0 {
            let ok = match mod_character(m, shown_name) {
                Some(c) => self.filter_characters.contains(c),
                None => false,
            };
            if !ok {
                return false;
            }
        }
        true
    }
}

/// With no filter and no search, every mod shows.
pub proof fn law_unfiltered_shows_all(
    enabled: bool,
    author: Option<Seq<char>>,
    icon: Option<Seq<char>>,
    shown_name: Seq<char>,
    folder_name: Seq<char>,
    group_matches: bool,
)
    ensures
        spec_mod_visible(
            StatusFilter::All,
            Set::empty(),
            Set::empty(),
            seq![],
            enabled,
            author,
            icon,
            shown_name,
            folder_name,
            group_matches,
        ),
{
}

/// The status filter splits the mods: a mod shows under exactly one of
/// "enabled" and "disabled", other filters aside.
pub proof fn law_status_filters_split(
    authors: Set<Seq<char>>,
    characters: Set<Seq<char>>,
    search: Seq<char>,
    enabled: bool,
    author: Option<Seq<char>>,
    icon: Option<Seq<char>>,
    shown_name: Seq<char>,
    folder_name: Seq<char>,
    group_matches: bool,
)
    requires
        spec_mod_visible(
            StatusFilter::All,
            authors,
            characters,
            search,
            enabled,
            author,
            icon,
            shown_name,
            folder_name,
            group_matches,
        ),
    ensures
        spec_mod_visible(
            StatusFilter::Enabled,
            authors,
            characters,
            search,
            enabled,
            author,
            icon,
            shown_name,
            folder_name,
            group_matches,
        ) != spec_mod_visible(
            StatusFilter::Disabled,
            authors,
            characters,
            search,
            enabled,
            author,
            icon,
            shown_name,
            folder_name,
            group_matches,
        ),
{
}

// ---------------------------------------------------------------------
// The filter panel

/// One entry of a filter list: what it filters by, its label, how many
/// mods it has, and whether it is checked.
pub struct FilterOption {
    pub id: String,
    pub name: String,
    pub count: usize,
    pub selected: bool,
}

pub type OptionView = (Seq<char>, Seq<char>, nat, bool);

pub open spec fn option_view(o: FilterOption) -> OptionView {
    (o.id@, o.name@, o.count as nat, o.selected)
}

pub open spec fn options_view(v: Seq<FilterOption>) -> Seq<OptionView> {
    v.map_values(|o: FilterOption| option_view(o))
}

/// The filter panel's lists: characters and authors (each found value
/// once, in text order, with its count), the groups, and the label of the
/// group filter's button.
pub struct FilterOptions {
    pub characters: Vec<FilterOption>,
    pub authors: Vec<FilterOption>,
    pub groups: Vec<FilterOption>,
    pub label: String,
}

pub type GroupCount = (Seq<char>, Seq<char>, nat);

pub open spec fn group_counts_view(v: Seq<(String, String, usize)>) -> Seq<GroupCount> {
    v.map_values(|g: (String, String, usize)| (g.0@, g.1@, g.2 as nat))
}

/// How many mods all groups hold.
pub open spec fn total_count(gs: Seq<GroupCount>) -> nat
    decreases gs.len(),
{
    if gs.len() == 0 {
        0
    } else {
        total_count(gs.drop_last()) + gs.last().2
    }
}

/// How many mods are outside any group (the last group without an ID).
pub open spec fn root_count(gs: Seq<GroupCount>) -> nat
    decreases gs.len(),
{
    if gs.len() == 0 {
        0
    } else if gs.last().0.len() == 0 {
        gs.last().2
    } else {
        root_count(gs.drop_last())
    }
}

/// The groups with an ID as filter entries, checked where the group filter
/// names them.
pub open spec fn named_group_rows(gs: Seq<GroupCount>, filter: Seq<char>) -> Seq<OptionView>
    decreases gs.len(),
{
    if gs.len() == 0 {
        seq![]
    } else if gs.last().0.len() == 0 {
        named_group_rows(gs.drop_last(), filter)
    } else {
        named_group_rows(gs.drop_last(), filter).push((gs.last().0, gs.last().1, gs.last().2, filter == gs.last().0))
    }
}

/// The group filter's list: every mod, the mods outside groups (when there
/// are any), then each group in its order.
pub open spec fn spec_group_rows(gs: Seq<GroupCount>, filter: Seq<char>, all_label: Seq<char>, ungrouped_label: Seq<char>) -> Seq<OptionView> {
    seq![(Seq::<char>::empty(), all_label, total_count(gs), filter.len() == 0)] + (if root_count(gs) > 0 {
        seq![(ungrouped(), ungrouped_label, root_count(gs), filter == ungrouped())]
    } else {
        Seq::<OptionView>::empty()
    }) + named_group_rows(gs, filter)
}

/// The label of the first checked entry, else of the first entry.
pub open spec fn first_selected_label(rows: Seq<OptionView>) -> Seq<char>
    decreases rows.len(),
{
    if rows.len() == 0 {
        seq![]
    } else if rows[0].3 {
        rows[0].1
    } else if rows.len() == 1 {
        rows[0].1
    } else {
        let rest = first_selected_label(rows.drop_first());
        if exists|k: int| 1 <= k < rows.len() && #[trigger] rows[k].3 {
            rest
        } else {
            rows[0].1
        }
    }
}

/// Tally entries as filter entries, checked where the filter set holds them.
pub open spec fn tally_rows(t: Seq<(Seq<char>, nat)>, checked: Set<Seq<char>>) -> Seq<OptionView> {
    t.map_values(|p: (Seq<char>, nat)| (p.0, p.0, p.1, checked.contains(p.0)))
}

fn tally_options(found: &Vec<String>, checked: &IdSet) -> (r: Vec<FilterOption>)
    ensures
        exists|t: Seq<(Seq<char>, nat)>| is_tally(strings_view(found@), t) && options_view(r@) == tally_rows(
            t,
            checked.view(),
        ),
{
    let t = tally(found);
    assert(found@.map_values(|s: String| s@) =~= strings_view(found@));
    let mut out: Vec<FilterOption> = Vec::new();
    let mut k: usize = 0;
    while k < t.len()
        invariant
            k <= t@.len(),
            out@.len() == k,
            forall|m: int| 0 <= m < k ==> #[trigger] options_view(out@)[m] == tally_rows(tally_view(t@), checked.view())[m],
        decreases t.len() - k,
    {
        let id = owned(t[k].0.as_str());
        let name = owned(t[k].0.as_str());
        let selected = checked.contains(t[k].0.as_str());
        let ghost before = out@;
        out.push(FilterOption { id, name, count: t[k].1, selected });
        assert(options_view(out@) =~= options_view(before).push(option_view(out@[k as int])));
        k = k + 1;
    }
    assert(options_view(out@) =~= tally_rows(tally_view(t@), checked.view()));
    out
}

proof fn lemma_total_bound(gs: Seq<GroupCount>, k: int)
    requires
        0 <= k <= gs.len(),
    ensures
        total_count(gs.subrange(0, k)) <= total_count(gs),
    decreases gs.len() - k,
{
    if k < gs.len() {
        lemma_total_bound(gs, k + 1);
        assert(gs.subrange(0, k + 1).drop_last() =~= gs.subrange(0, k));
    } else {
        assert(gs.subrange(0, k) =~= gs);
    }
}

impl ModManagerHandler {
    /// The filter panel's lists, from the scanned groups (ID, name and how
    /// many mods each holds; the mods outside groups have no ID) and the
    /// character and author of every mod that has one. A character entry is
    /// labelled by its slug, which the panel shows by its display name.
    pub fn filter_options(
        &self,
        groups: &Vec<(String, String, usize)>,
        characters: &Vec<String>,
        authors: &Vec<String>,
        all_label: &str,
        ungrouped_label: &str,
    ) -> (r: FilterOptions)
        requires
            total_count(group_counts_view(groups@)) <= usize::MAX,
        ensures
            exists|t: Seq<(Seq<char>, nat)>| is_tally(strings_view(characters@), t) && options_view(r.characters@)
                == tally_rows(t, self.character_filter()),
            exists|t: Seq<(Seq<char>, nat)>| is_tally(strings_view(authors@), t) && options_view(r.authors@)
                == tally_rows(t, self.author_filter()),
            options_view(r.groups@) == spec_group_rows(
                group_counts_view(groups@),
                self.group_filter(),
                all_label@,
                ungrouped_label@,
            ),
            r.label@ == first_selected_label(options_view(r.groups@)),
    {
        let chars = tally_options(characters, &self.filter_characters);
        let auths = tally_options(authors, &self.filter_authors);
        assert(self.character_filter() == self.filter_characters.view());
        assert(self.author_filter() == self.filter_authors.view());
        let ghost gs = group_counts_view(groups@);
        let mut total: usize = 0;
        let mut root: usize = 0;
        let mut named: Vec<FilterOption> = Vec::new();
        let filter_empty = to_chars(self.filter_group.as_str()).len() == 0;
        let mut i: usize = 0;
        while i < groups.len()
            invariant
                i <= groups@.len(),
                gs == group_counts_view(groups@),
                total_count(gs) <= usize::MAX,
                total == total_count(gs.subrange(0, i as int)),
                root == root_count(gs.subrange(0, i as int)),
                options_view(named@) == named_group_rows(gs.subrange(0, i as int), self.group_filter()),
            decreases groups.len() - i,
        {
            let ghost pre = gs.subrange(0, i as int);
            let ghost next = gs.subrange(0, i + 1);
            assert(next.drop_last() =~= pre);
            assert(next.last() == gs[i as int]);
            proof {
                lemma_total_bound(gs, i + 1);
            }
            let (id, name, count) = (&groups[i].0, &groups[i].1, groups[i].2);
            total = total + count;
            if to_chars(id.as_str()).len() == 0 {
                root = count;
            } else {
                let selected = same_text(self.filter_group.as_str(), id.as_str());
                let ghost before = named@;
                named.push(FilterOption { id: owned(id.as_str()), name: owned(name.as_str()), count, selected });
                assert(options_view(named@) =~= options_view(before).push(option_view(named@[before.len() as int])));
            }
            i = i + 1;
        }
        assert(gs.subrange(0, gs.len() as int) =~= gs);
        let mut rows: Vec<FilterOption> = Vec::new();
        rows.push(FilterOption { id: String::new(), name: owned(all_label), count: total, selected: filter_empty });
        if root > 0 {
            let ug = ungrouped_text();
            let selected = same_text(self.filter_group.as_str(), ug.as_str());
            rows.push(FilterOption { id: ug, name: owned(ungrouped_label), count: root, selected });
        }
        let ghost head = options_view(rows@);
        assert(head =~= seq![(Seq::<char>::empty(), all_label@, total_count(gs), self.group_filter().len() == 0)] + (if root_count(gs) > 0 {
            seq![(ungrouped(), ungrouped_label@, root_count(gs), self.group_filter() == ungrouped())]
        } else {
            Seq::<OptionView>::empty()
        }));
        let ghost nv = options_view(named@);
        let mut k: usize = 0;
        let mut rest = named;
        let n = rest.len();
        while k < n
            invariant
                n == nv.len(),
                k <= n,
                rest@.len() == n - k,
                options_view(rest@) == nv.subrange(k as int, n as int),
                options_view(rows@) == head + nv.subrange(0, k as int),
                head.len() >= 1,
            decreases n - k,
        {
            let ghost before = options_view(rows@);
            let ghost rv0 = rest@;
            let o = rest.remove(0);
            assert(o == rv0[0]);
            assert(options_view(rv0)[0] == option_view(rv0[0]));
            assert(option_view(o) == nv[k as int]);
            assert(rest@ =~= rv0.drop_first());
            rows.push(o);
            assert(options_view(rows@) =~= before.push(nv[k as int]));
            assert(options_view(rest@) =~= options_view(rv0).drop_first());
            assert(nv.subrange(k as int, n as int).drop_first() =~= nv.subrange(k + 1, n as int));
            assert((head + nv.subrange(0, k as int)).push(nv[k as int]) =~= head + nv.subrange(0, k + 1));
            k = k + 1;
        }
        assert(nv.subrange(0, n as int) =~= nv);
        let ghost rv = options_view(rows@);
        let mut label = owned(rows[0].name.as_str());
        let mut found = rows[0].selected;
        let mut j: usize = 1;
        if found {
            assert(first_selected_label(rv) == rv[0].1);
        }
        while j < rows.len() && !found
            invariant
                rv == options_view(rows@),
                1 <= j <= rows@.len(),
                found ==> label@ == first_selected_label(rv),
                !found ==> label@ == rv[0].1 && forall|m: int| 0 <= m < j ==> !(#[trigger] rv[m].3),
            decreases rows.len() - j,
        {
            if rows[j].selected {
                label = owned(rows[j].name.as_str());
                found = true;
                proof {
                    lemma_first_selected_at(rv, j as int);
                }
            }
            j = j + 1;
        }
        proof {
            if !found {
                lemma_first_selected_none(rv);
            }
        }
        FilterOptions { characters: chars, authors: auths, groups: rows, label }
    }
}

proof fn lemma_first_selected_at(rows: Seq<OptionView>, j: int)
    requires
        0 <= j < rows.len(),
        rows[j].3,
        forall|m: int| 0 <= m < j ==> !(#[trigger] rows[m].3),
    ensures
        first_selected_label(rows) == rows[j].1,
    decreases j,
{
    if j > 0 {
        assert(!rows[0].3);
        let rest = rows.drop_first();
        assert(rest[j - 1] == rows[j]);
        assert forall|m: int| 0 <= m < j - 1 implies !(#[trigger] rest[m].3) by {
            assert(rest[m] == rows[m + 1]);
        }
        lemma_first_selected_at(rest, j - 1);
        assert(rows[j].3);
    }
}

proof fn lemma_first_selected_none(rows: Seq<OptionView>)
    requires
        rows.len() > 0,
        forall|m: int| 0 <= m < rows.len() ==> !(#[trigger] rows[m].3),
    ensures
        first_selected_label(rows) == rows[0].1,
{
    if rows.len() > 1 {
        assert(!exists|k: int| 1 <= k < rows.len() && #[trigger] rows[k].3);
    }
}

// ---------------------------------------------------------------------
// Rebuilding the page

/// A folder of the mods folder as the page lists it: its ID (its path; none
/// for the mods outside any group), its name and its mods.
pub struct ScannedGroup {
    pub id: String,
    pub name: String,
    pub mods: Vec<Mod>,
}

/// A row of the page: a group's header, or a mod (by its group and its
/// position there).
#[derive(Clone, Copy, Debug, PartialEq, Eq, Structural)]
pub enum Row {
    Header { group: usize, enabled: bool, selected: bool, collapsed: bool },
    Item { group: usize, index: usize, selected: bool, restart_required: bool },
}

/// What a rebuild shows: the sections of rows (one per group shown), the
/// IDs of the mods that pass the filters, and the selection's counts.
pub struct RebuildPlan {
    pub sections: Vec<Vec<Row>>,
    pub displayed: Vec<String>,
    pub selected_count: usize,
    pub selected_group_count: usize,
    pub all_selected: bool,
}

/// The page's state as values.
pub struct PageView {
    pub status: StatusFilter,
    pub authors: Set<Seq<char>>,
    pub characters: Set<Seq<char>>,
    pub search: Seq<char>,
    pub group: Seq<char>,
    pub selected: Set<Seq<char>>,
    pub selected_groups: Set<Seq<char>>,
    pub collapsed: Set<Seq<char>>,
    pub restart: Set<Seq<char>>,
}

pub open spec fn page_filtering(p: PageView) -> bool {
    p.status != StatusFilter::All || p.characters.len() != 0 || p.authors.len() != 0 || p.group.len() != 0
}

pub open spec fn is_root(g: ScannedGroup) -> bool {
    g.id@.len() == 0
}

pub open spec fn passes_group_filter(filter: Seq<char>, id: Seq<char>) -> bool {
    if filter.len() == 0 {
        true
    } else if filter == ungrouped() {
        id.len() == 0
    } else {
        id == filter
    }
}

/// The group's own name matches the search.
pub open spec fn name_hit(p: PageView, g: ScannedGroup) -> bool {
    !is_root(g) && p.search.len() > 0 && contains_seq(lowercase(g.name@), p.search)
}

/// The mod at position `k` of the group passes the filters and the search.
pub open spec fn shows(p: PageView, g: ScannedGroup, shown: Seq<Seq<char>>, k: int) -> bool {
    spec_mod_visible(
        p.status,
        p.authors,
        p.characters,
        p.search,
        g.mods@[k].is_enabled,
        opt_view(g.mods@[k].author),
        opt_view(g.mods@[k].icon),
        shown[k],
        g.mods@[k].folder_name@,
        name_hit(p, g),
    )
}

/// The positions of the group's mods that show, in order.
pub open spec fn visible_mods(p: PageView, g: ScannedGroup, shown: Seq<Seq<char>>) -> Seq<usize> {
    Seq::new(g.mods@.len(), |k: int| k as usize).filter(|k: usize| shows(p, g, shown, k as int))
}

/// A group is left out when the group filter excludes it, or when a search
/// or filter is on and neither its name nor any of its mods matches (the
/// mods outside groups are only left out by the group filter).
pub open spec fn group_skipped(p: PageView, g: ScannedGroup, shown: Seq<Seq<char>>) -> bool {
    !passes_group_filter(p.group, g.id@) || (!is_root(g) && (p.search.len() > 0 || page_filtering(p))
        && visible_mods(p, g, shown).len() == 0 && !name_hit(p, g))
}

/// A group's header: on when it has mods and all are on; checked, for an
/// empty group, when the group is selected, else when mods show and all
/// that show are selected.
pub open spec fn group_header(p: PageView, gi: int, g: ScannedGroup, shown: Seq<Seq<char>>) -> Row {
    let vis = visible_mods(p, g, shown);
    Row::Header {
        group: gi as usize,
        enabled: g.mods@.len() > 0 && forall|k: int| 0 <= k < g.mods@.len() ==> #[trigger] g.mods@[k].is_enabled,
        selected: if g.mods@.len() == 0 {
            p.selected_groups.contains(g.id@)
        } else {
            vis.len() > 0 && forall|j: int| 0 <= j < vis.len() ==> p.selected.contains(g.mods@[#[trigger] vis[j] as int].path@)
        },
        collapsed: p.collapsed.contains(g.id@),
    }
}

pub open spec fn item_row(p: PageView, gi: int, g: ScannedGroup, k: usize) -> Row {
    Row::Item {
        group: gi as usize,
        index: k,
        selected: p.selected.contains(g.mods@[k as int].path@),
        restart_required: p.restart.contains(g.mods@[k as int].path@),
    }
}

/// A group's rows: its header (for a group with an ID), then its mods that
/// show, unless it is collapsed.
pub open spec fn group_section(p: PageView, gi: int, g: ScannedGroup, shown: Seq<Seq<char>>) -> Seq<Row> {
    (if is_root(g) {
        Seq::<Row>::empty()
    } else {
        seq![group_header(p, gi, g, shown)]
    }) + (if !is_root(g) && p.collapsed.contains(g.id@) {
        Seq::<Row>::empty()
    } else {
        visible_mods(p, g, shown).map_values(|k: usize| item_row(p, gi, g, k))
    })
}

/// The sections of the first `n` groups: each group not left out that has
/// rows.
pub open spec fn page_sections(p: PageView, gs: Seq<ScannedGroup>, shown: Seq<Seq<Seq<char>>>, n: int) -> Seq<Seq<Row>>
    decreases n,
{
    if n <= 0 {
        seq![]
    } else {
        let prev = page_sections(p, gs, shown, n - 1);
        if group_skipped(p, gs[n - 1], shown[n - 1]) || group_section(p, n - 1, gs[n - 1], shown[n - 1]).len() == 0 {
            prev
        } else {
            prev.push(group_section(p, n - 1, gs[n - 1], shown[n - 1]))
        }
    }
}

/// The IDs of the mods that show, over the first `n` groups (a collapsed
/// group's mods count too).
pub open spec fn page_displayed(p: PageView, gs: Seq<ScannedGroup>, shown: Seq<Seq<Seq<char>>>, n: int) -> Seq<Seq<char>>
    decreases n,
{
    if n <= 0 {
        seq![]
    } else {
        let prev = page_displayed(p, gs, shown, n - 1);
        if group_skipped(p, gs[n - 1], shown[n - 1]) {
            prev
        } else {
            prev + visible_mods(p, gs[n - 1], shown[n - 1]).map_values(|k: usize| gs[n - 1].mods@[k as int].path@)
        }
    }
}

/// Every installed mod's ID.
pub open spec fn installed_ids(gs: Seq<ScannedGroup>) -> Set<Seq<char>> {
    Set::new(|id: Seq<char>| exists|g: int, k: int| 0 <= g < gs.len() && 0 <= k < gs[g].mods@.len() && #[trigger] gs[g].mods@[k].path@ == id)
}

/// The IDs of the groups without mods.
pub open spec fn empty_group_ids(gs: Seq<ScannedGroup>) -> Set<Seq<char>> {
    Set::new(|id: Seq<char>| exists|g: int| 0 <= g < gs.len() && #[trigger] gs[g].id@ == id && id.len() > 0 && gs[g].mods@.len() == 0)
}

pub open spec fn shown_view(v: Seq<Vec<String>>) -> Seq<Seq<Seq<char>>> {
    v.map_values(|x: Vec<String>| strings_view(x@))
}

pub open spec fn sections_view(v: Seq<Vec<Row>>) -> Seq<Seq<Row>> {
    v.map_values(|x: Vec<Row>| x@)
}

impl ModManagerHandler {
    pub closed spec fn page(&self) -> PageView {
        PageView {
            status: self.status,
            authors: self.filter_authors.view(),
            characters: self.filter_characters.view(),
            search: self.search@,
            group: self.filter_group@,
            selected: self.selected.view(),
            selected_groups: self.selected_groups.view(),
            collapsed: self.collapsed.view(),
            restart: self.restart_required.view(),
        }
    }

    /// The rows of one group, whether it is left out, and the IDs of its
    /// mods that show.
    fn plan_group(&self, gi: usize, g: &ScannedGroup, shown: &Vec<String>) -> (r: (bool, Vec<Row>, Vec<String>))
        requires
            shown@.len() == g.mods@.len(),
        ensures
            r.0 == group_skipped(self.page(), *g, strings_view(shown@)),
            r.1@ == group_section(self.page(), gi as int, *g, strings_view(shown@)),
            strings_view(r.2@) == visible_mods(self.page(), *g, strings_view(shown@)).map_values(|k: usize| g.mods@[k as int].path@),
    {
        let ghost p = self.page();
        let ghost sv = strings_view(shown@);
        let root = to_chars(g.id.as_str()).len() == 0;
        let in_filter = self.in_filtered_group(g.id.as_str());
        let gm = self.group_matches(g.name.as_str(), root);
        assert(gm == name_hit(p, *g));
        let ghost pred = |k: usize| shows(p, *g, sv, k as int);
        let mut vis: Vec<usize> = Vec::new();
        let mut k: usize = 0;
        proof {
            reveal(Seq::filter);
            assert(Seq::new(0, |j: int| j as usize).filter(pred) =~= Seq::<usize>::empty());
        }
        while k < g.mods.len()
            invariant
                k <= g.mods@.len(),
                shown@.len() == g.mods@.len(),
                p == self.page(),
                sv == strings_view(shown@),
                gm == name_hit(p, *g),
                pred == (|k: usize| shows(p, *g, sv, k as int)),
                vis@ == Seq::new(k as nat, |j: int| j as usize).filter(pred),
            decreases g.mods.len() - k,
        {
            proof {
                reveal(Seq::filter);
                let next = Seq::new((k + 1) as nat, |j: int| j as usize);
                assert(next.drop_last() =~= Seq::new(k as nat, |j: int| j as usize));
                assert(next.last() == k);
            }
            assert(sv[k as int] == shown@[k as int]@);
            if self.mod_visible(&g.mods[k], shown[k].as_str(), gm) {
                vis.push(k);
            }
            k = k + 1;
        }
        assert(vis@ == visible_mods(p, *g, sv));
        let ghost vv = vis@;
        proof {
            assert forall|j: int| 0 <= j < vv.len() implies #[trigger] vv[j] < g.mods@.len() by {
                lemma_filter_in_range(g.mods@.len() as nat, pred, j);
            }
        }
        let filtering = self.filtering();
        let searching = to_chars(self.search.as_str()).len() > 0;
        let skipped = !in_filter || (!root && (searching || filtering) && vis.len() == 0 && !gm);
        let mut paths: Vec<String> = Vec::new();
        let mut j: usize = 0;
        while j < vis.len()
            invariant
                vv == vis@,
                forall|m: int| 0 <= m < vv.len() ==> #[trigger] vv[m] < g.mods@.len(),
                j <= vv.len(),
                strings_view(paths@) == vv.subrange(0, j as int).map_values(|k: usize| g.mods@[k as int].path@),
            decreases vis.len() - j,
        {
            let ghost before = paths@;
            paths.push(owned(g.mods[vis[j]].path.as_str()));
            assert(strings_view(paths@) =~= vv.subrange(0, j + 1).map_values(|k: usize| g.mods@[k as int].path@)) by {
                assert(strings_view(paths@) =~= strings_view(before).push(g.mods@[vv[j as int] as int].path@));
            }
            j = j + 1;
        }
        assert(vv.subrange(0, vv.len() as int) =~= vv);
        let mut rows: Vec<Row> = Vec::new();
        let collapsed = !root && self.collapsed.contains(g.id.as_str());
        if !root {
            let mut all_on = g.mods.len() > 0;
            let mut m: usize = 0;
            while m < g.mods.len()
                invariant
                    m <= g.mods@.len(),
                    all_on == (g.mods@.len() > 0 && forall|x: int| 0 <= x < m ==> #[trigger] g.mods@[x].is_enabled),
                decreases g.mods.len() - m,
            {
                if !g.mods[m].is_enabled {
                    all_on = false;
                }
                m = m + 1;
            }
            let selected = if g.mods.len() == 0 {
                self.selected_groups.contains(g.id.as_str())
            } else {
                let mut all_sel = vis.len() > 0;
                let mut q: usize = 0;
                while q < vis.len()
                    invariant
                        vv == vis@,
                        forall|x: int| 0 <= x < vv.len() ==> #[trigger] vv[x] < g.mods@.len(),
                        q <= vv.len(),
                        p == self.page(),
                        all_sel == (vv.len() > 0 && forall|x: int| 0 <= x < q ==> p.selected.contains(g.mods@[#[trigger] vv[x] as int].path@)),
                    decreases vis.len() - q,
                {
                    if !self.selected.contains(g.mods[vis[q]].path.as_str()) {
                        all_sel = false;
                    }
                    q = q + 1;
                }
                all_sel
            };
            rows.push(Row::Header { group: gi, enabled: all_on, selected, collapsed: self.collapsed.contains(g.id.as_str()) });
            assert(rows@ =~= seq![group_header(p, gi as int, *g, sv)]);
        } else {
            assert(rows@ =~= Seq::<Row>::empty());
        }
        let ghost head = rows@;
        if !collapsed {
            let mut q: usize = 0;
            while q < vis.len()
                invariant
                    vv == vis@,
                    forall|x: int| 0 <= x < vv.len() ==> #[trigger] vv[x] < g.mods@.len(),
                    q <= vv.len(),
                    p == self.page(),
                    rows@ == head + vv.subrange(0, q as int).map_values(|k: usize| item_row(p, gi as int, *g, k)),
                decreases vis.len() - q,
            {
                let k = vis[q];
                let sel = self.selected.contains(g.mods[k].path.as_str());
                let rr = self.restart_required.contains(g.mods[k].path.as_str());
                rows.push(Row::Item { group: gi, index: k, selected: sel, restart_required: rr });
                assert(rows@ =~= head + vv.subrange(0, q + 1).map_values(|k: usize| item_row(p, gi as int, *g, k)));
                q = q + 1;
            }
            assert(vv.subrange(0, vv.len() as int) =~= vv);
        } else {
            assert(rows@ =~= head + Seq::<Row>::empty());
        }
        (skipped, rows, paths)
    }

    /// Rebuilds the page from the scanned groups and the name each mod is
    /// shown under. Restart marks go when the game no longer runs; the
    /// selection keeps only mods that show, selected groups only groups
    /// that are empty, and restart marks only installed mods.
    pub fn rebuild(&mut self, groups: &Vec<ScannedGroup>, shown: &Vec<Vec<String>>, game_running: bool) -> (r: RebuildPlan)
        requires
            shown@.len() == groups@.len(),
            forall|g: int| 0 <= g < groups@.len() ==> #[trigger] shown@[g]@.len() == groups@[g].mods@.len(),
        ensures
            ({
                let p0 = old(self).page();
                let p = if game_running { p0 } else { PageView { restart: Set::<Seq<char>>::empty(), ..p0 } };
                let gs = groups@;
                let sv = shown_view(shown@);
                let shows = page_displayed(p, gs, sv, gs.len() as int);
                &&& sections_view(r.sections@) == page_sections(p, gs, sv, gs.len() as int)
                &&& strings_view(r.displayed@) == shows
                &&& final(self).selected_set() == p0.selected.intersect(shows.to_set())
                &&& final(self).selected_group_set() == p0.selected_groups.intersect(empty_group_ids(gs))
                &&& final(self).restart_set() == p.restart.intersect(installed_ids(gs))
            }),
            final(self).collapsed_set() == old(self).collapsed_set(),
            final(self).status() == old(self).status(),
            final(self).character_filter() == old(self).character_filter(),
            final(self).author_filter() == old(self).author_filter(),
            final(self).group_filter() == old(self).group_filter(),
            final(self).search_text() == old(self).search_text(),
            r.selected_count == final(self).selected_set().len(),
            r.selected_group_count == final(self).selected_group_set().len(),
            r.all_selected == (r.displayed@.len() > 0 && r.selected_count == r.displayed@.len()),
    {
        if !game_running {
            self.restart_required.clear();
        }
        let ghost p = self.page();
        let ghost gs = groups@;
        let ghost sv = shown_view(shown@);
        assert(p.restart == (if game_running { old(self).page().restart } else { Set::<Seq<char>>::empty() }));
        let mut sections: Vec<Vec<Row>> = Vec::new();
        let mut displayed: Vec<String> = Vec::new();
        let mut installed: Vec<String> = Vec::new();
        let mut empty: Vec<String> = Vec::new();
        let mut gi: usize = 0;
        while gi < groups.len()
            invariant
                gi <= gs.len(),
                gs == groups@,
                sv == shown_view(shown@),
                p == self.page(),
                shown@.len() == groups@.len(),
                forall|g: int| 0 <= g < groups@.len() ==> #[trigger] shown@[g]@.len() == groups@[g].mods@.len(),
                sections_view(sections@) == page_sections(p, gs, sv, gi as int),
                strings_view(displayed@) == page_displayed(p, gs, sv, gi as int),
                strings_view(installed@).to_set() == installed_ids(gs.subrange(0, gi as int)),
                strings_view(empty@).to_set() == empty_group_ids(gs.subrange(0, gi as int)),
            decreases groups.len() - gi,
        {
            let g = &groups[gi];
            assert(sv[gi as int] == strings_view(shown@[gi as int]@));
            let (skipped, rows, paths) = self.plan_group(gi, g, &shown[gi]);
            let ghost before_sections = sections_view(sections@);
            let ghost before_displayed = strings_view(displayed@);
            if !skipped {
                if rows.len() > 0 {
                    sections.push(rows);
                    assert(sections_view(sections@) =~= before_sections.push(group_section(p, gi as int, gs[gi as int], sv[gi as int])));
                }
                let mut q: usize = 0;
                let ghost pv = strings_view(paths@);
                while q < paths.len()
                    invariant
                        q <= paths@.len(),
                        pv == strings_view(paths@),
                        strings_view(displayed@) == before_displayed + pv.subrange(0, q as int),
                    decreases paths.len() - q,
                {
                    let ghost d0 = strings_view(displayed@);
                    let item = owned(paths[q].as_str());
                    displayed.push(item);
                    assert(strings_view(displayed@) =~= d0.push(pv[q as int]));
                    assert(strings_view(displayed@) =~= before_displayed + pv.subrange(0, q + 1));
                    q = q + 1;
                }
                assert(pv.subrange(0, pv.len() as int) =~= pv);
            }
            let ghost inst_before = strings_view(installed@);
            let mut k: usize = 0;
            while k < g.mods.len()
                invariant
                    k <= g.mods@.len(),
                    gi < gs.len(),
                    *g == gs[gi as int],
                    strings_view(installed@) == inst_before + g.mods@.subrange(0, k as int).map_values(|m: Mod| m.path@),
                decreases g.mods.len() - k,
            {
                let ghost i0 = strings_view(installed@);
                let item = owned(g.mods[k].path.as_str());
                installed.push(item);
                assert(strings_view(installed@) =~= i0.push(g.mods@[k as int].path@));
                assert(strings_view(installed@) =~= inst_before + g.mods@.subrange(0, k + 1).map_values(|m: Mod| m.path@));
                k = k + 1;
            }
            assert(g.mods@.subrange(0, g.mods@.len() as int) =~= g.mods@);
            let ghost empty_before = strings_view(empty@);
            let is_empty_group = to_chars(g.id.as_str()).len() > 0 && g.mods.len() == 0;
            assert(*g == gs[gi as int]);
            assert(is_empty_group == (gs[gi as int].id@.len() > 0 && gs[gi as int].mods@.len() == 0));
            if is_empty_group {
                let item = owned(g.id.as_str());
                empty.push(item);
                assert(strings_view(empty@) =~= empty_before.push(gs[gi as int].id@));
            }
            proof {
                lemma_installed_step(gs, gi as int, inst_before, strings_view(installed@));
                lemma_empty_step(gs, gi as int, empty_before, strings_view(empty@), is_empty_group);
            }
            gi = gi + 1;
        }
        assert(gs.subrange(0, gs.len() as int) =~= gs);
        let shows_set = IdSet::from_ids(&displayed);
        let installed_set = IdSet::from_ids(&installed);
        let empty_set = IdSet::from_ids(&empty);
        assert(ids_view(displayed@) =~= strings_view(displayed@));
        assert(ids_view(installed@) =~= strings_view(installed@));
        assert(ids_view(empty@) =~= strings_view(empty@));
        self.selected.retain_in(&shows_set);
        self.selected_groups.retain_in(&empty_set);
        self.restart_required.retain_in(&installed_set);
        let selected_count = self.selected.len();
        let selected_group_count = self.selected_groups.len();
        let all_selected = displayed.len() > 0 && selected_count == displayed.len();
        RebuildPlan { sections, displayed, selected_count, selected_group_count, all_selected }
    }
}

proof fn lemma_filter_in_range(n: nat, pred: spec_fn(usize) -> bool, j: int)
    requires
        0 <= j < Seq::new(n, |k: int| k as usize).filter(pred).len(),
        n <= usize::MAX + 1,
    ensures
        Seq::new(n, |k: int| k as usize).filter(pred)[j] < n,
{
    let s = Seq::new(n, |k: int| k as usize);
    broadcast use vstd::seq_lib::group_filter_ensures;
    let x = s.filter(pred)[j];
    assert(s.filter(pred).contains(x));
    s.lemma_filter_contains_rev(pred, x);
    assert(s.contains(x));
    let i = choose|i: int| 0 <= i < s.len() && s[i] == x;
    assert(x == i as usize);
}

proof fn lemma_installed_step(gs: Seq<ScannedGroup>, gi: int, before: Seq<Seq<char>>, after: Seq<Seq<char>>)
    requires
        0 <= gi < gs.len(),
        before.to_set() == installed_ids(gs.subrange(0, gi)),
        after == before + gs[gi].mods@.map_values(|m: Mod| m.path@),
    ensures
        after.to_set() == installed_ids(gs.subrange(0, gi + 1)),
{
    let pre = gs.subrange(0, gi);
    let next = gs.subrange(0, gi + 1);
    let added = gs[gi].mods@.map_values(|m: Mod| m.path@);
    assert forall|id: Seq<char>| #[trigger] after.to_set().contains(id) <==> installed_ids(next).contains(id) by {
        if after.contains(id) {
            let x = choose|x: int| 0 <= x < after.len() && after[x] == id;
            if x < before.len() {
                assert(before[x] == id);
                assert(before.to_set().contains(id));
                assert(installed_ids(pre).contains(id));
                let (g, k) = choose|g: int, k: int| 0 <= g < pre.len() && 0 <= k < pre[g].mods@.len() && #[trigger] pre[g].mods@[k].path@ == id;
                assert(next[g] == pre[g]);
                assert(next[g].mods@[k].path@ == id);
            } else {
                let k = x - before.len();
                assert(added[k] == id);
                assert(next[gi] == gs[gi]);
                assert(next[gi].mods@[k].path@ == id);
            }
        }
        if installed_ids(next).contains(id) {
            let (g, k) = choose|g: int, k: int| 0 <= g < next.len() && 0 <= k < next[g].mods@.len() && #[trigger] next[g].mods@[k].path@ == id;
            if g < gi {
                assert(pre[g] == next[g]);
                assert(pre[g].mods@[k].path@ == id);
                assert(installed_ids(pre).contains(id));
                assert(before.contains(id));
                let x = choose|x: int| 0 <= x < before.len() && before[x] == id;
                assert(after[x] == id);
            } else {
                assert(next[g] == gs[gi]);
                assert(added[k] == id);
                assert(after[before.len() + k] == id);
            }
        }
    }
    assert(after.to_set() =~= installed_ids(next));
}

proof fn lemma_empty_step(gs: Seq<ScannedGroup>, gi: int, before: Seq<Seq<char>>, after: Seq<Seq<char>>, added: bool)
    requires
        0 <= gi < gs.len(),
        before.to_set() == empty_group_ids(gs.subrange(0, gi)),
        added == (gs[gi].id@.len() > 0 && gs[gi].mods@.len() == 0),
        after == if added { before.push(gs[gi].id@) } else { before },
    ensures
        after.to_set() == empty_group_ids(gs.subrange(0, gi + 1)),
{
    let pre = gs.subrange(0, gi);
    let next = gs.subrange(0, gi + 1);
    assert forall|id: Seq<char>| #[trigger] after.to_set().contains(id) <==> empty_group_ids(next).contains(id) by {
        if after.contains(id) {
            let x = choose|x: int| 0 <= x < after.len() && after[x] == id;
            if x < before.len() {
                assert(before[x] == id);
                assert(before.to_set().contains(id));
                assert(empty_group_ids(pre).contains(id));
                let g = choose|g: int| 0 <= g < pre.len() && #[trigger] pre[g].id@ == id && id.len() > 0 && pre[g].mods@.len() == 0;
                assert(next[g] == pre[g]);
            } else {
                assert(next[gi] == gs[gi]);
            }
        }
        if empty_group_ids(next).contains(id) {
            let g = choose|g: int| 0 <= g < next.len() && #[trigger] next[g].id@ == id && id.len() > 0 && next[g].mods@.len() == 0;
            if g < gi {
                assert(pre[g] == next[g]);
                assert(empty_group_ids(pre).contains(id));
                assert(before.contains(id));
                let x = choose|x: int| 0 <= x < before.len() && before[x] == id;
                assert(after[x] == id);
            } else {
                assert(next[g] == gs[gi]);
                assert(after[before.len() as int] == id);
            }
        }
    }
    assert(after.to_set() =~= empty_group_ids(next));
}

// ---------------------------------------------------------------------
// Reading a mod's folder

/// A value of `mod.json` as far as the page reads it: a text, an object
/// (its keys with their text values, where they are texts), or anything
/// else.
pub enum JsonField {
    Text(String),
    Object(Vec<(String, Option<String>)>),
    Other,
}

/// The top-level fields of a `mod.json` object, in the order the parser
/// gives them.
pub struct ModJson {
    pub fields: Vec<(String, JsonField)>,
}

/// The first field whose key, in lower case, is `name`.
pub open spec fn json_field(fields: Seq<(String, JsonField)>, name: Seq<char>) -> Option<JsonField>
    decreases fields.len(),
{
    if fields.len() == 0 {
        None
    } else if lowercase(fields[0].0@) == name {
        Some(fields[0].1)
    } else {
        json_field(fields.drop_first(), name)
    }
}

pub open spec fn json_text(fields: Seq<(String, JsonField)>, name: Seq<char>) -> Option<Seq<char>> {
    match json_field(fields, name) {
        Some(JsonField::Text(t)) => Some(t@),
        _ => None,
    }
}

/// The entry of the first key of `optionals` that is `name` in lower case:
/// its text, trimmed, unless empty.
pub open spec fn json_optional_in(entries: Seq<(String, Option<String>)>, name: Seq<char>) -> Option<Seq<char>>
    decreases entries.len(),
{
    if entries.len() == 0 {
        None
    } else if lowercase(entries[0].0@) == name {
        match entries[0].1 {
            Some(t) => if trim(t@, TrimSet::Whitespace).len() == 0 {
                None
            } else {
                Some(trim(t@, TrimSet::Whitespace))
            },
            None => None,
        }
    } else {
        json_optional_in(entries.drop_first(), name)
    }
}

pub open spec fn json_optional(fields: Seq<(String, JsonField)>, name: Seq<char>) -> Option<Seq<char>> {
    match json_field(fields, "optionals"@) {
        Some(JsonField::Object(entries)) => json_optional_in(entries@, name),
        _ => None,
    }
}

pub open spec fn opt_map_scheme(o: Option<Seq<char>>) -> Option<Seq<char>> {
    match o {
        Some(v) => Some(spec_with_scheme(v)),
        None => None,
    }
}

fn first_field<'a>(fields: &'a Vec<(String, JsonField)>, name: &str) -> (r: Option<&'a JsonField>)
    ensures
        match r {
            Some(f) => json_field(fields@, name@) == Some(*f),
            None => json_field(fields@, name@) is None,
        },
{
    let mut i: usize = 0;
    assert(fields@.subrange(0, fields@.len() as int) =~= fields@);
    while i < fields.len()
        invariant
            i <= fields@.len(),
            json_field(fields@, name@) == json_field(fields@.subrange(i as int, fields@.len() as int), name@),
        decreases fields.len() - i,
    {
        let ghost rest = fields@.subrange(i as int, fields@.len() as int);
        assert(rest[0] == fields@[i as int]);
        assert(rest.drop_first() =~= fields@.subrange(i + 1, fields@.len() as int));
        let lower = to_lowercase(fields[i].0.as_str());
        if same_text(lower.as_str(), name) {
            return Some(&fields[i].1);
        }
        i = i + 1;
    }
    None
}

fn field_text(fields: &Vec<(String, JsonField)>, name: &str) -> (r: Option<String>)
    ensures
        opt_view(r) == json_text(fields@, name@),
{
    match first_field(fields, name) {
        Some(JsonField::Text(t)) => Some(owned(t.as_str())),
        _ => None,
    }
}

fn optional_text(fields: &Vec<(String, JsonField)>, name: &str) -> (r: Option<String>)
    ensures
        opt_view(r) == json_optional(fields@, name@),
{
    let entries = match first_field(fields, "optionals") {
        Some(JsonField::Object(entries)) => entries,
        _ => return None,
    };
    let mut i: usize = 0;
    assert(entries@.subrange(0, entries@.len() as int) =~= entries@);
    assert(json_optional(fields@, name@) == json_optional_in(entries@, name@));
    while i < entries.len()
        invariant
            i <= entries@.len(),
            json_optional(fields@, name@) == json_optional_in(entries@, name@),
            json_optional_in(entries@, name@) == json_optional_in(entries@.subrange(i as int, entries@.len() as int), name@),
        decreases entries.len() - i,
    {
        let ghost rest = entries@.subrange(i as int, entries@.len() as int);
        assert(rest[0] == entries@[i as int]);
        assert(rest.drop_first() =~= entries@.subrange(i + 1, entries@.len() as int));
        let lower = to_lowercase(entries[i].0.as_str());
        if same_text(lower.as_str(), name) {
            return match &entries[i].1 {
                Some(t) => trimmed_field(Some(t.as_str())),
                None => None,
            };
        }
        i = i + 1;
    }
    None
}

/// A mod as its folder shows it: its folder's name and path, the names of
/// its files, whether it has an `icon.png`, where it came from, and its
/// `mod.json` where one was read. It is on when none of its files is
/// switched off; it is named by its folder (without `_P`) and filed under
/// its source's author (`Unknown` where none is named), unless `mod.json`
/// says otherwise; its version is `Unknown` without a `mod.json`, and a read
/// `mod.json` gives the version (`1.0.0` where it has none), the icon, and the
/// support and image links (with `https://` where they name no scheme).
pub fn mod_data(
    folder_name: &str,
    path: &str,
    files: &Vec<String>,
    has_icon_png: bool,
    source: Option<ModSource>,
    json: Option<&ModJson>,
) -> (r: Mod)
    ensures
        r.folder_name@ == folder_name@,
        r.path@ == path@,
        r.is_enabled == spec_mod_enabled(strings_view(files@)),
        r.has_icon_png == has_icon_png,
        r.source == source,
        ({
            let base = if folder_name@.len() >= 2 && folder_name@.subrange(folder_name@.len() - 2, folder_name@.len() as int) == "_P"@ {
                folder_name@.subrange(0, folder_name@.len() - 2)
            } else {
                folder_name@
            };
            let source_author: Seq<char> = match source {
                Some(s) => if s.author@.len() > 0 { s.author@ } else { "Unknown"@ },
                None => "Unknown"@,
            };
            match json {
                None => {
                    &&& !r.has_json
                    &&& r.display_name@ == base
                    &&& opt_view(r.version) == Some("Unknown"@)
                    &&& opt_view(r.author) == Some(source_author)
                    &&& r.support_link is None
                    &&& r.icon is None
                    &&& r.image_url is None
                },
                Some(j) => {
                    let f = j.fields@;
                    &&& r.has_json
                    &&& r.display_name@ == (match json_text(f, "name"@) { Some(n) => n, None => base })
                    &&& opt_view(r.version) == Some(match json_text(f, "version"@) { Some(v) => v, None => "1.0.0"@ })
                    &&& opt_view(r.author) == Some(match json_text(f, "author"@) { Some(a) => a, None => source_author })
                    &&& opt_view(r.support_link) == opt_map_scheme(json_optional(f, "support link"@))
                    &&& opt_view(r.image_url) == opt_map_scheme(json_optional(f, "custom image url"@))
                    &&& opt_view(r.icon) == (match json_text(f, "icon"@) {
                        Some(t) => if trim(t, TrimSet::Whitespace).len() == 0 { None } else { Some(trim(t, TrimSet::Whitespace)) },
                        None => None,
                    })
                },
            }
        }),
{
    let is_enabled = ModManager::is_enabled(files);
    let base = ModManager::base_display_name(folder_name);
    let source_author: Option<String> = match &source {
        Some(s) => if to_chars(s.author.as_str()).len() > 0 { Some(owned(s.author.as_str())) } else { Some(owned("Unknown")) },
        None => Some(owned("Unknown")),
    };
    let j = match json {
        None => {
            return Mod {
                folder_name: owned(folder_name),
                display_name: base,
                path: owned(path),
                version: Some(owned("Unknown")),
                author: source_author,
                support_link: None,
                icon: None,
                image_url: None,
                has_icon_png,
                is_enabled,
                has_json: false,
                source,
            };
        },
        Some(j) => j,
    };
    let support_link = match optional_text(&j.fields, "support link") {
        Some(v) => Some(with_scheme(v.as_str())),
        None => None,
    };
    let image_url = match optional_text(&j.fields, "custom image url") {
        Some(v) => Some(with_scheme(v.as_str())),
        None => None,
    };
    let icon = match field_text(&j.fields, "icon") {
        Some(t) => trimmed_field(Some(t.as_str())),
        None => None,
    };
    let display_name = match field_text(&j.fields, "name") {
        Some(n) => n,
        None => base,
    };
    let version = match field_text(&j.fields, "version") {
        Some(v) => Some(v),
        None => Some(owned("1.0.0")),
    };
    let author = match field_text(&j.fields, "author") {
        Some(a) => Some(a),
        None => source_author,
    };
    Mod {
        folder_name: owned(folder_name),
        display_name,
        path: owned(path),
        version,
        author,
        support_link,
        icon,
        image_url,
        has_icon_png,
        is_enabled,
        has_json: true,
        source,
    }
}

} // verus!
