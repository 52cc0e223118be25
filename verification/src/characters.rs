//! Which game character a mod is about, read from free text such as a mod's
//! folder name, its display name or its icon field.
use vstd::prelude::*;
use vstd::string::StringSliceAdditionalSpecFns;
use crate::text::{
    eq_chars, find, find_chars, from_chars, lowercase, to_chars, to_lowercase, to_uppercase, trim,
    trim_chars, uppercase, TrimSet,
};

verus! {

/// The character slugs that ship with an icon, in the order the icon table
/// lists them.
pub open spec fn slug_table() -> Seq<Seq<char>> {
    seq![
        "adler"@, "aurelia"@, "baicang"@, "chaos"@, "chiz"@, "daffodill"@, "edgar"@, "fadia"@,
        "haniel"@, "hathor"@, "hotori"@, "iroi"@, "jiuyuan"@, "lacrimosa"@, "linko"@, "mc"@,
        "mint"@, "nanally"@, "sakiri"@, "shinku"@, "skia"@, "zankou"@, "zero"@,
    ]
}

/// Other names a character goes by, each with the slug it draws as.
pub open spec fn alias_table() -> Seq<(Seq<char>, Seq<char>)> {
    seq![("zero"@, "mc"@)]
}

fn slug_list() -> (v: Vec<&'static str>)
    ensures
        v@.map_values(|s: &'static str| s@) == slug_table(),
{
    let v = vec![
        "adler", "aurelia", "baicang", "chaos", "chiz", "daffodill", "edgar", "fadia", "haniel",
        "hathor", "hotori", "iroi", "jiuyuan", "lacrimosa", "linko", "mc", "mint", "nanally",
        "sakiri", "shinku", "skia", "zankou", "zero",
    ];
    assert(v@.map_values(|s: &'static str| s@) =~= slug_table());
    v
}

fn alias_list() -> (v: Vec<(&'static str, &'static str)>)
    ensures
        v@.map_values(|p: (&'static str, &'static str)| (p.0@, p.1@)) == alias_table(),
{
    let v = vec![("zero", "mc")];
    assert(v@.map_values(|p: (&'static str, &'static str)| (p.0@, p.1@)) =~= alias_table());
    v
}

/// Every slug that has an icon.
pub fn slugs() -> (v: Vec<&'static str>)
    ensures
        v@.map_values(|s: &'static str| s@) == slug_table(),
{
    slug_list()
}

pub open spec fn is_known(slug: Seq<char>) -> bool {
    slug_table().contains(slug)
}

/// The slug itself when it has an icon.
pub fn known(slug: &str) -> (r: Option<&'static str>)
    ensures
        r is Some <==> is_known(slug@),
        r matches Some(k) ==> k@ == slug@,
{
    let table = slug_list();
    let wanted = to_chars(slug);
    let mut i: usize = 0;
    while i < table.len()
        invariant
            i <= table@.len(),
            wanted@ == slug@,
            table@.map_values(|s: &'static str| s@) == slug_table(),
            forall|k: int| 0 <= k < i ==> slug_table()[k] != slug@,
        decreases table.len() - i,
    {
        let name = to_chars(table[i]);
        assert(table@.map_values(|s: &'static str| s@)[i as int] == table@[i as int]@);
        if eq_chars(name.as_slice(), wanted.as_slice()) {
            assert(slug_table()[i as int] == slug@);
            return Some(table[i]);
        }
        i = i + 1;
    }
    assert forall|k: int| 0 <= k < slug_table().len() implies slug_table()[k] != slug@ by {}
    None
}

/// A match of a name in the text: where it starts, how long it is, and the
/// slug it draws as.
pub struct Hit {
    pub at: usize,
    pub len: usize,
    pub slug: &'static str,
}

pub open spec fn hit_view(h: Option<Hit>) -> Option<(int, int, Seq<char>)> {
    match h {
        Some(h) => Some((h.at as int, h.len as int, h.slug@)),
        None => None,
    }
}

/// The aliases whose slug has an icon, in order.
pub open spec fn known_aliases(a: Seq<(Seq<char>, Seq<char>)>) -> Seq<(Seq<char>, Seq<char>)>
    decreases a.len(),
{
    if a.len() == 0 {
        seq![]
    } else if is_known(a.last().1) {
        known_aliases(a.drop_last()).push(a.last())
    } else {
        known_aliases(a.drop_last())
    }
}

/// The names looked for, each with the slug it stands for: first the aliases
/// whose slug has an icon, then every slug as itself.
pub open spec fn candidates() -> Seq<(Seq<char>, Seq<char>)> {
    known_aliases(alias_table()) + slug_table().map_values(|s: Seq<char>| (s, s))
}

pub open spec fn pair_view(p: (&'static str, &'static str)) -> (Seq<char>, Seq<char>) {
    (p.0@, p.1@)
}

fn candidate_list() -> (v: Vec<(&'static str, &'static str)>)
    ensures
        v@.map_values(|p: (&'static str, &'static str)| pair_view(p)) == candidates(),
{
    let aliases = alias_list();
    let mut v: Vec<(&'static str, &'static str)> = Vec::new();
    let mut i: usize = 0;
    while i < aliases.len()
        invariant
            i <= aliases@.len(),
            aliases@.map_values(|p: (&'static str, &'static str)| (p.0@, p.1@)) == alias_table(),
            v@.map_values(|p: (&'static str, &'static str)| pair_view(p)) == known_aliases(
                alias_table().take(i as int),
            ),
        decreases aliases.len() - i,
    {
        let (alias, target) = aliases[i];
        assert(aliases@.map_values(|p: (&'static str, &'static str)| (p.0@, p.1@))[i as int]
            == (aliases@[i as int].0@, aliases@[i as int].1@));
        assert(alias_table().take(i + 1).drop_last() =~= alias_table().take(i as int));
        if known(target).is_some() {
            v.push((alias, target));
        }
        assert(v@.map_values(|p: (&'static str, &'static str)| pair_view(p)) =~= known_aliases(
            alias_table().take(i + 1),
        ));
        i = i + 1;
    }
    assert(alias_table().take(aliases@.len() as int) =~= alias_table());
    let slugs = slug_list();
    let ghost base = v@;
    let mut k: usize = 0;
    while k < slugs.len()
        invariant
            k <= slugs@.len(),
            slugs@.map_values(|s: &'static str| s@) == slug_table(),
            v@.map_values(|p: (&'static str, &'static str)| pair_view(p)) == known_aliases(
                alias_table(),
            ) + slug_table().take(k as int).map_values(|s: Seq<char>| (s, s)),
        decreases slugs.len() - k,
    {
        assert(slugs@.map_values(|s: &'static str| s@)[k as int] == slugs@[k as int]@);
        let ghost old_v = v@;
        v.push((slugs[k], slugs[k]));
        assert(v@.map_values(|p: (&'static str, &'static str)| pair_view(p)) =~= old_v.map_values(
            |p: (&'static str, &'static str)| pair_view(p),
        ).push((slug_table()[k as int], slug_table()[k as int])));
        assert(slug_table().take(k + 1) =~= slug_table().take(k as int).push(slug_table()[k as int]));
        assert(slug_table().take(k + 1).map_values(|s: Seq<char>| (s, s)) =~= slug_table().take(
            k as int,
        ).map_values(|s: Seq<char>| (s, s)).push((slug_table()[k as int], slug_table()[k as int])));
        assert(v@.map_values(|p: (&'static str, &'static str)| pair_view(p)) =~= known_aliases(
            alias_table(),
        ) + slug_table().take(k + 1).map_values(|s: Seq<char>| (s, s)));
        k = k + 1;
    }
    assert(slug_table().take(slugs@.len() as int) =~= slug_table());
    v
}

/// The earliest match in `text` among `cands`; of two that start at the same
/// place the longer wins, and of two alike the one listed first.
pub open spec fn best(text: Seq<char>, cands: Seq<(Seq<char>, Seq<char>)>) -> Option<
    (int, int, Seq<char>),
>
    decreases cands.len(),
{
    if cands.len() == 0 {
        None
    } else {
        let prev = best(text, cands.drop_last());
        let needle = cands.last().0;
        let slug = cands.last().1;
        match find(text, needle) {
            None => prev,
            Some(at) => match prev {
                None => Some((at, needle.len() as int, slug)),
                Some(p) => if at < p.0 || (at == p.0 && needle.len() > p.1) {
                    Some((at, needle.len() as int, slug))
                } else {
                    prev
                },
            },
        }
    }
}

proof fn lemma_best_from(text: Seq<char>, cands: Seq<(Seq<char>, Seq<char>)>)
    ensures
        best(text, cands) matches Some(b) ==> exists|k: int| 0 <= k < cands.len() && #[trigger] cands[k].1 == b.2,
    decreases cands.len(),
{
    if cands.len() > 0 {
        lemma_best_from(text, cands.drop_last());
        if let Some(b) = best(text, cands) {
            if best(text, cands.drop_last()) == Some(b) {
                let k = choose|k: int| 0 <= k < cands.drop_last().len() && #[trigger] cands.drop_last()[k].1 == b.2;
                assert(cands[k] == cands.drop_last()[k]);
            } else {
                assert(cands[cands.len() - 1].1 == b.2);
            }
        }
    }
}

proof fn lemma_known_aliases(a: Seq<(Seq<char>, Seq<char>)>)
    ensures
        forall|k: int| 0 <= k < known_aliases(a).len() ==> is_known(#[trigger] known_aliases(a)[k].1),
    decreases a.len(),
{
    if a.len() > 0 {
        lemma_known_aliases(a.drop_last());
        let prev = known_aliases(a.drop_last());
        if is_known(a.last().1) {
            assert forall|k: int| 0 <= k < known_aliases(a).len() implies is_known(#[trigger] known_aliases(a)[k].1) by {
                if k < prev.len() {
                    assert(known_aliases(a)[k] == prev[k]);
                }
            }
        }
    }
}

/// Every character that a text is matched to has an icon, for an icon
/// table that holds exactly the slugs: a slug has an icon there exactly
/// when it is known.
pub proof fn law_named_character_has_icon(text: Seq<char>, icon_slugs: Seq<Seq<char>>, slug: Seq<char>)
    requires
        icon_slugs == slug_table(),
    ensures
        icon_slugs.contains(slug) <==> is_known(slug),
        spec_character_for(text) matches Some(r) ==> icon_slugs.contains(r),
{
    let t = lowercase(trim(text, TrimSet::Whitespace));
    lemma_best_from(t, candidates());
    lemma_known_aliases(alias_table());
    if let Some(r) = spec_character_for(text) {
        let k = choose|k: int| 0 <= k < candidates().len() && #[trigger] candidates()[k].1 == r;
        let ka = known_aliases(alias_table());
        if k < ka.len() {
            assert(candidates()[k] == ka[k]);
        } else {
            assert(candidates()[k] == (slug_table()[k - ka.len()], slug_table()[k - ka.len()]));
        }
    }
}

/// The slug that `text` names, ignoring case and surrounding whitespace.
pub open spec fn spec_character_for(text: Seq<char>) -> Option<Seq<char>> {
    let t = lowercase(trim(text, TrimSet::Whitespace));
    if t.len() == 0 {
        None
    } else {
        match best(t, candidates()) {
            Some(b) => Some(b.2),
            None => None,
        }
    }
}

/// The character that a text names: whichever known name starts first in
/// the lower-cased, trimmed text, the longer name on a tie.
pub fn character_for(text: &str) -> (r: Option<&'static str>)
    ensures
        r is Some <==> spec_character_for(text@) is Some,
        r matches Some(s) ==> spec_character_for(text@) == Some(s@),
{
    let raw = to_chars(text);
    let trimmed = trim_chars(raw.as_slice(), TrimSet::Whitespace);
    let trimmed_text = from_chars(trimmed.as_slice());
    let lowered = to_lowercase(trimmed_text.as_str());
    let t = to_chars(lowered.as_str());
    if t.len() == 0 {
        return None;
    }
    let cands = candidate_list();
    let mut cur: Option<Hit> = None;
    let mut k: usize = 0;
    while k < cands.len()
        invariant
            k <= cands@.len(),
            t@ == lowercase(trim(text@, TrimSet::Whitespace)),
            cands@.map_values(|p: (&'static str, &'static str)| pair_view(p)) == candidates(),
            hit_view(cur) == best(t@, candidates().take(k as int)),
        decreases cands.len() - k,
    {
        let (needle, slug) = cands[k];
        assert(cands@.map_values(|p: (&'static str, &'static str)| pair_view(p))[k as int]
            == pair_view(cands@[k as int]));
        assert(candidates().take(k + 1).drop_last() =~= candidates().take(k as int));
        let needle_chars = to_chars(needle);
        match find_chars(t.as_slice(), needle_chars.as_slice()) {
            None => {},
            Some(at) => {
                let len = needle_chars.len();
                let better = match &cur {
                    None => true,
                    Some(p) => at < p.at || (at == p.at && len > p.len),
                };
                if better {
                    cur = Some(Hit { at, len, slug });
                }
            },
        }
        k = k + 1;
    }
    assert(candidates().take(cands@.len() as int) =~= candidates());
    match cur {
        Some(h) => Some(h.slug),
        None => None,
    }
}

/// A slug as a name: two letters or fewer are an abbreviation and go all
/// upper case; otherwise only the first letter does.
pub open spec fn spec_display_name(slug: &str) -> Seq<char> {
    if slug.spec_bytes().len() as usize <= 2 {
        uppercase(slug@)
    } else if slug@.len() == 0 {
        seq![]
    } else {
        uppercase(seq![slug@[0]]) + slug@.drop_first()
    }
}

pub fn display_name(slug: &str) -> (r: String)
    ensures
        r@ == spec_display_name(slug),
{
    if slug.len() <= 2 {
        return to_uppercase(slug);
    }
    let chars = to_chars(slug);
    if chars.len() == 0 {
        return from_chars(chars.as_slice());
    }
    let first = vec![chars[0]];
    let first_text = from_chars(first.as_slice());
    let upper = to_uppercase(first_text.as_str());
    let rest = from_chars(crate::text::slice_chars(chars.as_slice(), 1, chars.len()).as_slice());
    assert(first@ =~= seq![slug@[0]]);
    assert(slug@.drop_first() =~= slug@.subrange(1, slug@.len() as int));
    upper.concat(rest.as_str())
}


/// The icon shipped for a slug, from the table of shipped icons (each a
/// slug and its PNG file).
pub fn icon_bytes<'a>(icons: &'a Vec<(String, Vec<u8>)>, slug: &str) -> (r: Option<&'a Vec<u8>>)
    ensures
        match r {
            Some(b) => exists|i: int|
                0 <= i < icons@.len() && icons@[i].0@ == slug@ && icons@[i].1 == *b && forall|k: int|
                    0 <= k < i ==> #[trigger] icons@[k].0@ != slug@,
            None => forall|k: int| 0 <= k < icons@.len() ==> #[trigger] icons@[k].0@ != slug@,
        },
{
    let mut i: usize = 0;
    while i < icons.len()
        invariant
            i <= icons@.len(),
            forall|k: int| 0 <= k < i ==> #[trigger] icons@[k].0@ != slug@,
        decreases icons.len() - i,
    {
        if crate::idset::same_text(icons[i].0.as_str(), slug) {
            return Some(&icons[i].1);
        }
        i = i + 1;
    }
    None
}

} // verus!
