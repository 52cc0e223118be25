//! Icon packs: which pack is used when the saved one is gone, how a pack is
//! named, and when a theme's pack replaces the active one.
use vstd::prelude::*;
use crate::text::{eq_chars, from_chars, slice_chars, to_chars, to_uppercase, uppercase};

verus! {

/// The pack used when the chosen one is missing.
pub open spec fn default_pack() -> Seq<char> {
    "light"@
}

pub open spec fn names(packs: Seq<String>) -> Seq<Seq<char>> {
    packs.map_values(|p: String| p@)
}

pub open spec fn spec_exists(packs: Seq<Seq<char>>, pack: Seq<char>) -> bool {
    packs.contains(pack)
}

fn same_text(a: &str, b: &str) -> (r: bool)
    ensures
        r == (a@ == b@),
{
    let x = to_chars(a);
    let y = to_chars(b);
    eq_chars(x.as_slice(), y.as_slice())
}

/// Whether the pack is installed.
pub fn pack_exists(packs: &Vec<String>, pack: &str) -> (r: bool)
    ensures
        r == spec_exists(names(packs@), pack@),
{
    let ghost ns = names(packs@);
    let mut i: usize = 0;
    while i < packs.len()
        invariant
            i <= packs@.len(),
            ns == names(packs@),
            forall|j: int| 0 <= j < i ==> ns[j] != pack@,
        decreases packs.len() - i,
    {
        assert(ns[i as int] == packs@[i as int]@);
        if same_text(packs[i].as_str(), pack) {
            assert(ns.contains(pack@)) by {
                assert(ns[i as int] == pack@);
            }
            return true;
        }
        i = i + 1;
    }
    assert(!ns.contains(pack@)) by {
        if ns.contains(pack@) {
            let j = choose|j: int| 0 <= j < ns.len() && ns[j] == pack@;
            assert(ns[j] != pack@);
        }
    }
    false
}

/// The pack to use for a wish: the pack itself if installed, else the
/// default pack if installed, else the first pack, else nothing.
pub open spec fn spec_resolve_pack(packs: Seq<Seq<char>>, pack: Seq<char>) -> Seq<char> {
    if spec_exists(packs, pack) {
        pack
    } else if spec_exists(packs, default_pack()) {
        default_pack()
    } else if packs.len() > 0 {
        packs[0]
    } else {
        seq![]
    }
}

pub fn resolve_pack(packs: &Vec<String>, pack: &str) -> (r: String)
    ensures
        r@ == spec_resolve_pack(names(packs@), pack@),
{
    if pack_exists(packs, pack) {
        return from_chars(to_chars(pack).as_slice());
    }
    if pack_exists(packs, "light") {
        return from_chars(to_chars("light").as_slice());
    }
    if packs.len() > 0 {
        assert(names(packs@)[0] == packs@[0]@);
        return from_chars(to_chars(packs[0].as_str()).as_slice());
    }
    String::new()
}

/// A resolved pack is installed, whenever any pack is.
pub proof fn law_resolved_pack_is_installed(packs: Seq<Seq<char>>, pack: Seq<char>)
    requires
        packs.len() > 0,
    ensures
        spec_exists(packs, spec_resolve_pack(packs, pack)),
{
    if !spec_exists(packs, pack) && !spec_exists(packs, default_pack()) {
        assert(packs.contains(packs[0]));
    }
}

/// A pack's name as shown: its first letter in upper case.
pub open spec fn spec_display_name(pack: Seq<char>) -> Seq<char> {
    if pack.len() == 0 {
        seq![]
    } else {
        uppercase(seq![pack[0]]) + pack.drop_first()
    }
}

pub fn display_name(pack: &str) -> (r: String)
    ensures
        r@ == spec_display_name(pack@),
{
    let chars = to_chars(pack);
    if chars.len() == 0 {
        return from_chars(chars.as_slice());
    }
    let first = vec![chars[0]];
    let first_text = from_chars(first.as_slice());
    let upper = to_uppercase(first_text.as_str());
    let rest = from_chars(slice_chars(chars.as_slice(), 1, chars.len()).as_slice());
    assert(first@ =~= seq![pack@[0]]);
    assert(pack@.drop_first() =~= pack@.subrange(1, pack@.len() as int));
    upper.concat(rest.as_str())
}

/// The icon packs and the one in use.
pub struct IconPackHandler {
    packs: Vec<String>,
    active: String,
}

impl IconPackHandler {
    pub closed spec fn active_pack(&self) -> Seq<char> {
        self.active@
    }

    pub closed spec fn installed(&self) -> Seq<Seq<char>> {
        names(self.packs@)
    }

    /// No pack applied yet.
    pub fn new(packs: Vec<String>) -> (r: Self)
        ensures
            r.installed() == names(packs@),
            r.active_pack() == Seq::<char>::empty(),
    {
        IconPackHandler { packs, active: String::new() }
    }

    /// The pack in use, as the log window's icons take it.
    pub fn active(&self) -> (r: String)
        ensures
            r@ == self.active_pack(),
    {
        from_chars(to_chars(self.active.as_str()).as_slice())
    }

    /// Applies a pack: what is installed of the wish becomes active, and is
    /// returned.
    pub fn apply(&mut self, pack: &str) -> (r: String)
        ensures
            r@ == spec_resolve_pack(old(self).installed(), pack@),
            final(self).active_pack() == r@,
            final(self).installed() == old(self).installed(),
    {
        let resolved = resolve_pack(&self.packs, pack);
        self.active = from_chars(to_chars(resolved.as_str()).as_slice());
        resolved
    }

    /// A theme brings a pack: it is applied only when the theme names one,
    /// that pack is installed, and it is not already active. Returns the
    /// pack applied.
    pub fn apply_from_theme(&mut self, pack: Option<&str>) -> (r: Option<String>)
        ensures
            match pack {
                None => r is None,
                Some(p) => if !spec_exists(old(self).installed(), p@) || old(self).active_pack() == p@ {
                    r is None
                } else {
                    r matches Some(x) && x@ == p@
                },
            },
            r is None ==> final(self).active_pack() == old(self).active_pack(),
            r matches Some(x) ==> final(self).active_pack() == x@,
            final(self).installed() == old(self).installed(),
    {
        let p = match pack {
            None => return None,
            Some(p) => p,
        };
        if !pack_exists(&self.packs, p) {
            return None;
        }
        if same_text(self.active.as_str(), p) {
            return None;
        }
        let applied = self.apply(p);
        Some(applied)
    }
}

} // verus!
