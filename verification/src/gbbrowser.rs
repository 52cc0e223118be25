//! The GameBanana browser's rules: what a search or a character asks for,
//! the paging of the result list with its thumbnail budget, the preview
//! carousel, the one-install-at-a-time protocol, and a download's resume,
//! progress and checksum.
use std::collections::HashSet;
use vstd::prelude::*;
use crate::filenames::{byte_len, byte_len_within};
use crate::idset::owned;
use crate::text::{eq_ignore_ascii_case, eq_ignore_ascii_case_chars, from_chars, to_chars, trim, trim_chars, TrimSet};

verus! {

broadcast use vstd::std_specs::hash::group_hash_axioms;

/// How many mods a page of results holds.
pub const PAGE_SIZE: usize = 15;

/// How many of the latest results keep their thumbnails.
pub const THUMB_KEEP_ENTRIES: usize = 150;

/// The shortest search that is sent.
pub const MIN_SEARCH_LEN: usize = 3;

/// The characters of the character filter, in its order, with their
/// GameBanana category IDs.
pub open spec fn characters_table() -> Seq<(Seq<char>, u32)> {
    seq![
        ("Adler"@, 43034u32),
        ("Aurelia"@, 46387u32),
        ("Baicang"@, 43035u32),
        ("Chaos"@, 46559u32),
        ("Chiz"@, 45472u32),
        ("Daffodill"@, 45474u32),
        ("Edgar"@, 45475u32),
        ("Fadia"@, 43036u32),
        ("Haniel"@, 45473u32),
        ("Hathor"@, 43037u32),
        ("Hotori"@, 43038u32),
        ("Iroi"@, 46560u32),
        ("Jiuyuan"@, 45476u32),
        ("Lacrimosa"@, 43039u32),
        ("Linko"@, 48013u32),
        ("Mint"@, 43040u32),
        ("Nanally"@, 43041u32),
        ("Sakiri"@, 43042u32),
        ("Shinku"@, 46561u32),
        ("Skia"@, 43043u32),
        ("Zankou"@, 48011u32),
        ("Zero (F)"@, 43032u32),
        ("Zero (M)"@, 43033u32),
    ]
}

/// The characters of the character filter with their category IDs.
pub fn characters() -> (r: Vec<(&'static str, u32)>)
    ensures
        r@.map_values(|p: (&'static str, u32)| (p.0@, p.1)) == characters_table(),
{
    let v: Vec<(&'static str, u32)> = vec![
        ("Adler", 43034),
        ("Aurelia", 46387),
        ("Baicang", 43035),
        ("Chaos", 46559),
        ("Chiz", 45472),
        ("Daffodill", 45474),
        ("Edgar", 45475),
        ("Fadia", 43036),
        ("Haniel", 45473),
        ("Hathor", 43037),
        ("Hotori", 43038),
        ("Iroi", 46560),
        ("Jiuyuan", 45476),
        ("Lacrimosa", 43039),
        ("Linko", 48013),
        ("Mint", 43040),
        ("Nanally", 43041),
        ("Sakiri", 43042),
        ("Shinku", 46561),
        ("Skia", 43043),
        ("Zankou", 48011),
        ("Zero (F)", 43032),
        ("Zero (M)", 43033),
    ];
    assert(v@.map_values(|p: (&'static str, u32)| (p.0@, p.1)) =~= characters_table());
    v
}

/// What the result list shows.
pub enum Mode {
    Feed,
    Search(String),
    Category(u32),
    /// A search too short to send: no results.
    Partial(String),
}

pub open spec fn mode_view(m: Mode) -> (int, Seq<char>, u32) {
    match m {
        Mode::Feed => (0, seq![], 0),
        Mode::Search(q) => (1, q@, 0),
        Mode::Category(c) => (2, seq![], c),
        Mode::Partial(q) => (3, q@, 0),
    }
}

/// The mode a search text asks for: the feed when empty after trimming, no
/// results while shorter than `MIN_SEARCH_LEN` bytes, else a search.
pub open spec fn spec_search_mode(text: Seq<char>) -> (int, Seq<char>, u32) {
    let q = trim(text, TrimSet::Whitespace);
    if q.len() == 0 {
        (0, seq![], 0)
    } else if byte_len(q) < MIN_SEARCH_LEN {
        (3, q, 0)
    } else {
        (1, q, 0)
    }
}

pub fn search_mode(text: &str) -> (r: Mode)
    ensures
        mode_view(r) == spec_search_mode(text@),
{
    let q = trim_chars(to_chars(text).as_slice(), TrimSet::Whitespace);
    if q.len() == 0 {
        return Mode::Feed;
    }
    proof {
        crate::filenames::lemma_byte_len_nonneg(q@);
    }
    match byte_len_within(q.as_slice(), MIN_SEARCH_LEN - 1) {
        Some(_) => Mode::Partial(from_chars(q.as_slice())),
        None => Mode::Search(from_chars(q.as_slice())),
    }
}

/// The mode a character pick asks for: that character's category, or the
/// feed for a position outside the list.
pub fn character_mode(index: i32) -> (r: Mode)
    ensures
        0 <= index < characters_table().len() ==> mode_view(r) == (2int, Seq::<char>::empty(), characters_table()[index as int].1),
        !(0 <= index < characters_table().len()) ==> mode_view(r) == (0int, Seq::<char>::empty(), 0u32),
{
    let table = characters();
    if index < 0 || index as usize >= table.len() {
        return Mode::Feed;
    }
    let i = index as usize;
    proof {
        assert(table@.map_values(|p: (&'static str, u32)| (p.0@, p.1))[i as int] == (table@[i as int].0@, table@[i as int].1));
    }
    Mode::Category(table[i].1)
}


// ---------------------------------------------------------------------
// The result list

/// One mod of the result list, with its thumbnail where one is held.
pub struct GbEntry<T> {
    pub id: u32,
    pub name: String,
    pub author: String,
    pub view_count: u32,
    pub download_count: u32,
    pub like_count: u32,
    pub is_nsfw: bool,
    pub mod_url: String,
    pub preview_urls: Vec<String>,
    pub thumb: Option<T>,
}

/// What a change of mode asks of the page.
#[derive(Clone, Copy, Debug, PartialEq, Eq, Structural)]
pub enum ModeChange {
    /// The mode was already shown.
    Unchanged,
    /// The results were emptied (a search too short to send).
    Cleared,
    /// The first page of the new mode is to be loaded.
    Reload,
}

/// The result list: its mode, the page loaded last, the generation that
/// tells stale answers apart, whether a page is loading and whether the
/// last page was reached, and the mods received with the IDs seen.
pub struct GbBrowserHandler<T> {
    mode: Mode,
    page: u32,
    generation: u64,
    loading: bool,
    end_reached: bool,
    mods: Vec<GbEntry<T>>,
    seen: HashSet<u32>,
}

pub open spec fn entry_ids<T>(v: Seq<GbEntry<T>>) -> Seq<u32> {
    v.map_values(|e: GbEntry<T>| e.id)
}

pub open spec fn entry_thumbs<T>(v: Seq<GbEntry<T>>) -> Seq<Option<T>> {
    v.map_values(|e: GbEntry<T>| e.thumb)
}

/// The IDs of the entries before `cutoff` that hold a thumbnail, in order.
pub open spec fn thumbed_ids<T>(v: Seq<GbEntry<T>>, cutoff: int) -> Seq<u32>
    decreases cutoff,
{
    if cutoff <= 0 || cutoff > v.len() {
        seq![]
    } else if v[cutoff - 1].thumb is Some {
        thumbed_ids(v, cutoff - 1).push(v[cutoff - 1].id)
    } else {
        thumbed_ids(v, cutoff - 1)
    }
}

/// Whether a page of a mode ends the results: the feed ends at an empty
/// page, searches and categories at a page shorter than `PAGE_SIZE`.
pub open spec fn spec_ends(mode: (int, Seq<char>, u32), loaded: nat) -> bool {
    if mode.0 == 0 {
        loaded == 0
    } else {
        loaded < PAGE_SIZE
    }
}

fn copy_mode(m: &Mode) -> (r: Mode)
    ensures
        mode_view(r) == mode_view(*m),
{
    match m {
        Mode::Feed => Mode::Feed,
        Mode::Search(q) => Mode::Search(owned(q.as_str())),
        Mode::Category(c) => Mode::Category(*c),
        Mode::Partial(q) => Mode::Partial(owned(q.as_str())),
    }
}

fn same_mode(a: &Mode, b: &Mode) -> (r: bool)
    ensures
        r == (mode_view(*a) == mode_view(*b)),
{
    match (a, b) {
        (Mode::Feed, Mode::Feed) => true,
        (Mode::Search(x), Mode::Search(y)) => crate::idset::same_text(x.as_str(), y.as_str()),
        (Mode::Category(x), Mode::Category(y)) => *x == *y,
        (Mode::Partial(x), Mode::Partial(y)) => crate::idset::same_text(x.as_str(), y.as_str()),
        _ => false,
    }
}

/// The position of the first entry with an ID.
pub open spec fn first_entry<T>(v: Seq<GbEntry<T>>, id: u32) -> Option<int>
    decreases v.len(),
{
    if v.len() == 0 {
        None
    } else if v[0].id == id {
        Some(0)
    } else {
        match first_entry(v.drop_first(), id) {
            Some(i) => Some(i + 1),
            None => None,
        }
    }
}

pub proof fn lemma_first_entry<T>(v: Seq<GbEntry<T>>, id: u32)
    ensures
        first_entry(v, id) matches Some(i) ==> 0 <= i < v.len() && v[i].id == id && forall|k: int|
            0 <= k < i ==> #[trigger] v[k].id != id,
        first_entry(v, id) is None ==> forall|k: int| 0 <= k < v.len() ==> #[trigger] v[k].id != id,
    decreases v.len(),
{
    if v.len() > 0 && v[0].id != id {
        lemma_first_entry(v.drop_first(), id);
        if let Some(i) = first_entry(v.drop_first(), id) {
            assert forall|k: int| 0 <= k < i + 1 implies #[trigger] v[k].id != id by {
                if k > 0 {
                    assert(v[k] == v.drop_first()[k - 1]);
                }
            }
        } else {
            assert forall|k: int| 0 <= k < v.len() implies #[trigger] v[k].id != id by {
                if k > 0 {
                    assert(v[k] == v.drop_first()[k - 1]);
                }
            }
        }
    }
}

impl<T> GbBrowserHandler<T> {
    pub closed spec fn mode(&self) -> (int, Seq<char>, u32) {
        mode_view(self.mode)
    }

    pub closed spec fn page(&self) -> u32 {
        self.page
    }

    pub closed spec fn generation(&self) -> u64 {
        self.generation
    }

    pub closed spec fn loading(&self) -> bool {
        self.loading
    }

    pub closed spec fn end_reached(&self) -> bool {
        self.end_reached
    }

    pub closed spec fn ids(&self) -> Seq<u32> {
        entry_ids(self.mods@)
    }

    pub closed spec fn thumbs(&self) -> Seq<Option<T>> {
        entry_thumbs(self.mods@)
    }

    pub closed spec fn nsfw(&self) -> Seq<bool> {
        self.mods@.map_values(|e: GbEntry<T>| e.is_nsfw)
    }

    pub closed spec fn seen_ids(&self) -> Set<u32> {
        self.seen@
    }

    pub closed spec fn entries(&self) -> Seq<GbEntry<T>> {
        self.mods@
    }

    /// The feed, page 1, nothing loaded.
    pub fn new() -> (r: Self)
        ensures
            r.mode() == (0int, Seq::<char>::empty(), 0u32),
            r.page() == 1,
            r.generation() == 0,
            !r.loading(),
            !r.end_reached(),
            r.ids().len() == 0,
            r.seen_ids() == Set::<u32>::empty(),
    {
        let r = GbBrowserHandler {
            mode: Mode::Feed,
            page: 1,
            generation: 0,
            loading: false,
            end_reached: false,
            mods: Vec::new(),
            seen: HashSet::new(),
        };
        r
    }

    /// The list closes: everything resets, under a new generation so that
    /// answers still on their way are dropped.
    pub fn close(&mut self)
        requires
            old(self).generation() < u64::MAX,
        ensures
            final(self).mode() == (0int, Seq::<char>::empty(), 0u32),
            final(self).page() == 1,
            final(self).generation() == old(self).generation() + 1,
            !final(self).loading(),
            !final(self).end_reached(),
            final(self).ids().len() == 0,
            final(self).seen_ids() == Set::<u32>::empty(),
    {
        let g = self.generation + 1;
        *self = GbBrowserHandler::new();
        self.generation = g;
    }

    /// Empties the results (for a search too short to send): a new
    /// generation, page 1, nothing loading, and the end reached.
    pub fn clear_results(&mut self)
        requires
            old(self).generation() < u64::MAX,
        ensures
            final(self).generation() == old(self).generation() + 1,
            final(self).page() == 1,
            !final(self).loading(),
            final(self).end_reached(),
            final(self).ids().len() == 0,
            final(self).seen_ids() == Set::<u32>::empty(),
            final(self).mode() == old(self).mode(),
    {
        self.generation = self.generation + 1;
        self.page = 1;
        self.loading = false;
        self.end_reached = true;
        self.mods = Vec::new();
        self.seen = HashSet::new();
    }

    /// Switches the mode: nothing happens for the mode already shown; a
    /// search too short to send empties the list; any other mode asks for
    /// its first page.
    pub fn set_mode(&mut self, mode: Mode) -> (r: ModeChange)
        requires
            old(self).generation() < u64::MAX,
        ensures
            mode_view(mode) == old(self).mode() ==> r == ModeChange::Unchanged && final(self).mode() == old(self).mode()
                && final(self).ids() == old(self).ids(),
            mode_view(mode) != old(self).mode() ==> final(self).mode() == mode_view(mode),
            mode_view(mode) != old(self).mode() && mode is Partial ==> r == ModeChange::Cleared && final(self).ids().len() == 0
                && final(self).end_reached(),
            mode_view(mode) != old(self).mode() && !(mode is Partial) ==> r == ModeChange::Reload && final(self).ids()
                == old(self).ids(),
    {
        if same_mode(&self.mode, &mode) {
            return ModeChange::Unchanged;
        }
        let partial = match mode {
            Mode::Partial(_) => true,
            _ => false,
        };
        self.mode = mode;
        if partial {
            self.clear_results();
            ModeChange::Cleared
        } else {
            ModeChange::Reload
        }
    }

    /// Starts loading a page: the first page of the mode when `reset`, else
    /// the next page. Nothing starts while a page loads (unless resetting)
    /// or once the end is reached (unless resetting). Returns the generation,
    /// the mode and the page to fetch.
    pub fn begin_load(&mut self, reset: bool) -> (r: Option<(u64, Mode, u32)>)
        requires
            old(self).generation() < u64::MAX,
            old(self).page() < u32::MAX,
        ensures
            !reset && (old(self).loading() || old(self).end_reached()) ==> r is None && *final(self) == *old(self),
            reset ==> r is Some && final(self).generation() == old(self).generation() + 1 && final(self).page() == 1
                && !final(self).end_reached() && final(self).ids().len() == 0 && final(self).seen_ids()
                == Set::<u32>::empty(),
            !reset && !old(self).loading() && !old(self).end_reached() ==> r is Some && final(self).page()
                == old(self).page() + 1 && final(self).generation() == old(self).generation()
                && final(self).ids() == old(self).ids() && final(self).end_reached() == old(self).end_reached(),
            r matches Some(x) ==> final(self).loading() && x.0 == final(self).generation() && mode_view(x.1)
                == final(self).mode() && x.2 == final(self).page(),
            final(self).mode() == old(self).mode(),
    {
        if self.loading {
            if !reset {
                return None;
            }
        } else if !reset && self.end_reached {
            return None;
        }
        if reset {
            self.generation = self.generation + 1;
            self.page = 1;
            self.end_reached = false;
            self.mods = Vec::new();
            self.seen = HashSet::new();
        } else {
            self.page = self.page + 1;
        }
        self.loading = true;
        Some((self.generation, copy_mode(&self.mode), self.page))
    }

    /// A mod arrives for a page. It is dropped when it belongs to an older
    /// generation or was seen already; else it is added at the end, and the
    /// thumbnails of all but the latest `THUMB_KEEP_ENTRIES` mods are
    /// dropped. Returns the IDs whose thumbnails were dropped.
    pub fn receive(&mut self, generation: u64, entry: GbEntry<T>) -> (r: Option<Vec<u32>>)
        ensures
            (generation != old(self).generation() || old(self).seen_ids().contains(entry.id)) ==> r is None
                && final(self).ids() == old(self).ids() && final(self).seen_ids() == old(self).seen_ids(),
            !(generation != old(self).generation() || old(self).seen_ids().contains(entry.id)) ==> {
                let grown = old(self).ids().push(entry.id);
                let cutoff = if grown.len() > THUMB_KEEP_ENTRIES { grown.len() - THUMB_KEEP_ENTRIES } else { 0int };
                &&& final(self).ids() == grown
                &&& final(self).seen_ids() == old(self).seen_ids().insert(entry.id)
                &&& forall|i: int| 0 <= i < cutoff ==> #[trigger] final(self).thumbs()[i] is None
                &&& forall|i: int| cutoff <= i < grown.len() - 1 ==> #[trigger] final(self).thumbs()[i] == old(self).thumbs()[i]
                &&& final(self).thumbs()[grown.len() - 1] == entry.thumb
                &&& r matches Some(v) && v@ == thumbed_ids(old(self).entries().push(entry), cutoff)
            },
            final(self).generation() == old(self).generation(),
            final(self).page() == old(self).page(),
            final(self).mode() == old(self).mode(),
            final(self).loading() == old(self).loading(),
            final(self).end_reached() == old(self).end_reached(),
    {
        if generation != self.generation || self.seen.contains(&entry.id) {
            return None;
        }
        let id = entry.id;
        self.seen.insert(id);
        let ghost before = self.mods@;
        self.mods.push(entry);
        assert(entry_ids(self.mods@) =~= entry_ids(before).push(id));
        let stale = self.evict_thumbs();
        Some(stale)
    }

    /// Drops the thumbnails of all but the latest `THUMB_KEEP_ENTRIES`
    /// mods; returns the IDs whose thumbnails were dropped.
    fn evict_thumbs(&mut self) -> (r: Vec<u32>)
        ensures
            final(self).ids() == old(self).ids(),
            final(self).seen@ == old(self).seen@,
            final(self).generation == old(self).generation,
            final(self).page == old(self).page,
            mode_view(final(self).mode) == mode_view(old(self).mode),
            final(self).loading == old(self).loading,
            final(self).end_reached == old(self).end_reached,
            ({
                let n = old(self).mods@.len();
                let cutoff = if n > THUMB_KEEP_ENTRIES { n - THUMB_KEEP_ENTRIES } else { 0int };
                &&& r@ == thumbed_ids(old(self).mods@, cutoff)
                &&& forall|i: int| 0 <= i < cutoff ==> #[trigger] final(self).thumbs()[i] is None
                &&& forall|i: int| cutoff <= i < n ==> #[trigger] final(self).thumbs()[i] == old(self).thumbs()[i]
            }),
    {
        let mut stale: Vec<u32> = Vec::new();
        let n = self.mods.len();
        if n <= THUMB_KEEP_ENTRIES {
            return stale;
        }
        let cutoff = n - THUMB_KEEP_ENTRIES;
        let ghost start = self.mods@;
        let mut i: usize = 0;
        while i < cutoff
            invariant
                n == start.len(),
                cutoff == n - THUMB_KEEP_ENTRIES,
                i <= cutoff,
                self.mods@.len() == n,
                entry_ids(self.mods@) == entry_ids(start),
                stale@ == thumbed_ids(start, i as int),
                forall|k: int| 0 <= k < i ==> #[trigger] self.mods@[k].thumb is None,
                forall|k: int| i <= k < n ==> #[trigger] self.mods@[k] == start[k],
                self.seen@ == old(self).seen@,
                self.generation == old(self).generation,
                self.page == old(self).page,
                mode_view(self.mode) == mode_view(old(self).mode),
                self.loading == old(self).loading,
                self.end_reached == old(self).end_reached,
            decreases cutoff - i,
        {
            let ghost before = self.mods@;
            let mut e = self.mods.remove(i);
            assert(e == start[i as int]);
            let had = e.thumb.is_some();
            let eid = e.id;
            e.thumb = None;
            self.mods.insert(i, e);
            if had {
                stale.push(eid);
            }
            proof {
                assert(start.subrange(0, i + 1).len() == i + 1);
            }
            assert forall|k: int| 0 <= k < n && k != i implies #[trigger] self.mods@[k] == before[k] by {}
            assert(entry_ids(self.mods@) =~= entry_ids(start)) by {
                assert forall|k: int| 0 <= k < n implies #[trigger] entry_ids(self.mods@)[k] == entry_ids(start)[k] by {
                    if k != i {
                        assert(self.mods@[k] == before[k]);
                    }
                }
            }
            i = i + 1;
        }
        stale
    }

    /// A page finished loading (`loaded` mods, or `None` where it failed).
    /// An answer of an older generation changes nothing; else loading stops,
    /// a short page ends the results, and a failed next page is asked again
    /// later.
    pub fn finish_load(&mut self, generation: u64, page: u32, reset: bool, loaded: Option<usize>)
        ensures
            generation != old(self).generation() ==> *final(self) == *old(self),
            generation == old(self).generation() ==> {
                &&& !final(self).loading()
                &&& final(self).end_reached() == (old(self).end_reached() || (loaded matches Some(n) && spec_ends(
                    old(self).mode(),
                    n as nat,
                )))
                &&& final(self).page() == (if loaded is None && !reset && old(self).page() == page {
                    if old(self).page() > 1 { (old(self).page() - 1) as u32 } else { 1u32 }
                } else {
                    old(self).page()
                })
                &&& final(self).ids() == old(self).ids()
                &&& final(self).mode() == old(self).mode()
            },
            final(self).generation() == old(self).generation(),
    {
        if generation != self.generation {
            return;
        }
        let ends = match loaded {
            Some(n) => match self.mode {
                Mode::Feed => n == 0,
                _ => n < PAGE_SIZE,
            },
            None => false,
        };
        self.loading = false;
        if ends {
            self.end_reached = true;
        }
        if loaded.is_none() && !reset && self.page == page {
            self.page = if self.page > 1 { self.page - 1 } else { 1 };
        }
    }

    /// The positions of the mods shown, in order: all of them, or only
    /// those not marked adult where such mods are hidden.
    pub fn visible(&self, show_nsfw: bool) -> (r: Vec<usize>)
        ensures
            r@ == Seq::new(self.ids().len(), |k: int| k as usize).filter(
                |k: usize| show_nsfw || !self.nsfw()[k as int],
            ),
    {
        let ghost pred = |k: usize| show_nsfw || !self.nsfw()[k as int];
        let mut out: Vec<usize> = Vec::new();
        let mut i: usize = 0;
        proof {
            reveal(Seq::filter);
            assert(Seq::new(0, |k: int| k as usize).filter(pred) =~= Seq::<usize>::empty());
        }
        while i < self.mods.len()
            invariant
                i <= self.mods@.len(),
                pred == (|k: usize| show_nsfw || !self.nsfw()[k as int]),
                out@ == Seq::new(i as nat, |k: int| k as usize).filter(pred),
            decreases self.mods.len() - i,
        {
            proof {
                reveal(Seq::filter);
                let next = Seq::new((i + 1) as nat, |k: int| k as usize);
                assert(next.drop_last() =~= Seq::new(i as nat, |k: int| k as usize));
                assert(next.last() == i);
                assert(self.nsfw()[i as int] == self.mods@[i as int].is_nsfw);
            }
            if show_nsfw || !self.mods[i].is_nsfw {
                out.push(i);
            }
            i = i + 1;
        }
        out
    }

    /// The mod with an ID, if the list holds it.
    pub fn entry(&self, id: u32) -> (r: Option<&GbEntry<T>>)
        ensures
            match r {
                Some(e) => first_entry(self.entries(), id) matches Some(i) && self.entries()[i] == *e && e.id == id
                    && self.ids().contains(id),
                None => first_entry(self.entries(), id) is None && !self.ids().contains(id),
            },
    {
        proof {
            lemma_first_entry(self.mods@, id);
        }
        let mut i: usize = 0;
        while i < self.mods.len()
            invariant
                i <= self.mods@.len(),
                forall|k: int| 0 <= k < i ==> #[trigger] entry_ids(self.mods@)[k] != id,
            decreases self.mods.len() - i,
        {
            if self.mods[i].id == id {
                assert(entry_ids(self.mods@)[i as int] == id);
                assert(first_entry(self.mods@, id) == Some(i as int)) by {
                    lemma_first_entry(self.mods@, id);
                    match first_entry(self.mods@, id) {
                        Some(f) => {
                            if f < i {
                                assert(entry_ids(self.mods@)[f] != id);
                            } else if f > i {
                                assert(self.mods@[i as int].id != id);
                            }
                        },
                        None => {
                            assert(self.mods@[i as int].id != id);
                        },
                    }
                }
                return Some(&self.mods[i]);
            }
            i = i + 1;
        }
        assert(first_entry(self.mods@, id) is None) by {
            lemma_first_entry(self.mods@, id);
            if let Some(f) = first_entry(self.mods@, id) {
                assert(entry_ids(self.mods@)[f] != id);
            }
        }
        assert(!self.ids().contains(id)) by {
            if self.ids().contains(id) {
                let k = choose|k: int| 0 <= k < self.ids().len() && self.ids()[k] == id;
                assert(entry_ids(self.mods@)[k] != id);
            }
        }
        None
    }

    /// A thumbnail fetched again for a mod arrives: it is kept only for the
    /// current generation and a mod that holds none. Returns whether it was
    /// kept.
    pub fn restore_thumb(&mut self, generation: u64, id: u32, thumb: T) -> (r: bool)
        ensures
            final(self).ids() == old(self).ids(),
            r == (generation == old(self).generation() && exists|i: int|
                0 <= i < old(self).ids().len() && old(self).ids()[i] == id && old(self).thumbs()[i] is None
                    && forall|k: int| 0 <= k < i ==> #[trigger] old(self).ids()[k] != id),
            r ==> exists|i: int|
                0 <= i < old(self).ids().len() && old(self).ids()[i] == id && old(self).thumbs()[i] is None
                    && final(self).thumbs() == old(self).thumbs().update(i, Some(thumb)),
            !r ==> final(self).thumbs() == old(self).thumbs(),
            final(self).generation() == old(self).generation(),
            final(self).seen_ids() == old(self).seen_ids(),
    {
        if generation != self.generation {
            return false;
        }
        let mut i: usize = 0;
        while i < self.mods.len()
            invariant
                *self == *old(self),
                generation == self.generation,
                i <= self.mods@.len(),
                forall|k: int| 0 <= k < i ==> #[trigger] entry_ids(self.mods@)[k] != id,
            decreases self.mods.len() - i,
        {
            if self.mods[i].id == id {
                if self.mods[i].thumb.is_some() {
                    assert(entry_ids(self.mods@)[i as int] == id);
                    assert(entry_thumbs(self.mods@)[i as int] is Some);
                    assert(!exists|j: int|
                        0 <= j < old(self).ids().len() && old(self).ids()[j] == id && old(self).thumbs()[j] is None
                            && forall|k: int| 0 <= k < j ==> #[trigger] old(self).ids()[k] != id) by {
                        if exists|j: int|
                            0 <= j < old(self).ids().len() && old(self).ids()[j] == id && old(self).thumbs()[j] is None
                                && forall|k: int| 0 <= k < j ==> #[trigger] old(self).ids()[k] != id {
                            let j = choose|j: int|
                                0 <= j < old(self).ids().len() && old(self).ids()[j] == id && old(self).thumbs()[j] is None
                                    && forall|k: int| 0 <= k < j ==> #[trigger] old(self).ids()[k] != id;
                            if j < i {
                                assert(entry_ids(self.mods@)[j] != id);
                            } else if j > i {
                                assert(old(self).ids()[i as int] != id);
                            }
                        }
                    }
                    return false;
                }
                let ghost before = self.mods@;
                let mut e = self.mods.remove(i);
                e.thumb = Some(thumb);
                self.mods.insert(i, e);
                assert(entry_ids(self.mods@) =~= entry_ids(before)) by {
                    assert forall|k: int| 0 <= k < before.len() implies #[trigger] entry_ids(self.mods@)[k] == entry_ids(before)[k] by {
                        if k != i {
                            assert(self.mods@[k] == before[k]);
                        }
                    }
                }
                assert(entry_thumbs(self.mods@) =~= entry_thumbs(before).update(i as int, Some(thumb))) by {
                    assert forall|k: int| 0 <= k < before.len() implies #[trigger] entry_thumbs(self.mods@)[k] == entry_thumbs(before).update(i as int, Some(thumb))[k] by {
                        if k != i {
                            assert(self.mods@[k] == before[k]);
                        }
                    }
                }
                assert(entry_ids(before)[i as int] == id);
                assert(entry_thumbs(before)[i as int] is None);
                assert(old(self).ids()[i as int] == id && old(self).thumbs()[i as int] is None
                    && entry_thumbs(self.mods@) == old(self).thumbs().update(i as int, Some(thumb)));
                assert(forall|k: int| 0 <= k < i ==> #[trigger] old(self).ids()[k] != id);
                return true;
            }
            i = i + 1;
        }
        assert(!exists|j: int|
            0 <= j < old(self).ids().len() && old(self).ids()[j] == id && old(self).thumbs()[j] is None
                && forall|k: int| 0 <= k < j ==> #[trigger] old(self).ids()[k] != id) by {
            if exists|j: int|
                0 <= j < old(self).ids().len() && old(self).ids()[j] == id && old(self).thumbs()[j] is None
                    && forall|k: int| 0 <= k < j ==> #[trigger] old(self).ids()[k] != id {
                let j = choose|j: int|
                    0 <= j < old(self).ids().len() && old(self).ids()[j] == id && old(self).thumbs()[j] is None
                        && forall|k: int| 0 <= k < j ==> #[trigger] old(self).ids()[k] != id;
                assert(entry_ids(self.mods@)[j] != id);
            }
        }
        false
    }
}


// ---------------------------------------------------------------------
// Thumbnails fetched again

/// Once this many thumbnails have failed, the failures are forgotten and
/// tried again.
pub const RESTORE_FAILED_LIMIT: usize = 500;

/// The rows a list of `count` rows shows, from the first and last visible
/// positions the view reports (negative ones read as 0): none when the
/// first is past the end, else from the first to the last, capped at the
/// end. The range is empty when the last comes before the first.
pub fn visible_range(first: i32, last: i32, count: usize) -> (r: Option<(usize, usize)>)
    ensures
        ({
            let start: int = if first < 0 { 0 } else { first as int };
            let end: int = if last < 0 { 0 } else { last as int };
            if start >= count {
                r is None
            } else {
                r == Some((start as usize, (if end < count - 1 { end } else { count - 1 }) as usize))
            }
        }),
{
    let start: usize = if first < 0 { 0 } else { first as usize };
    if start >= count {
        return None;
    }
    let last_row = count - 1;
    let end: usize = if last < 0 { 0 } else { last as usize };
    Some((start, if end < last_row { end } else { last_row }))
}

/// The IDs of the rows in positions `start` to `end` (given as ID and
/// whether a thumbnail shows) that show none, leaving out IDs that are not
/// positive.
pub open spec fn missing_in(rows: Seq<(i32, bool)>, start: int, upto: int) -> Seq<u32>
    decreases upto - start,
{
    if upto <= start {
        seq![]
    } else {
        let prev = missing_in(rows, start, upto - 1);
        let i = upto - 1;
        if i < rows.len() && !rows[i].1 && rows[i].0 > 0 {
            prev.push(rows[i].0 as u32)
        } else {
            prev
        }
    }
}

pub fn missing_thumbs(rows: &Vec<(i32, bool)>, start: usize, end: usize) -> (r: Vec<u32>)
    requires
        end < usize::MAX,
    ensures
        r@ == missing_in(rows@, start as int, end + 1),
{
    let mut out: Vec<u32> = Vec::new();
    if start > end {
        return out;
    }
    let mut i: usize = start;
    while i <= end
        invariant
            start <= i <= end + 1,
            end < usize::MAX,
            out@ == missing_in(rows@, start as int, i as int),
        decreases end + 1 - i,
    {
        if i < rows.len() && !rows[i].1 && rows[i].0 > 0 {
            out.push(rows[i].0 as u32);
        }
        i = i + 1;
    }
    out
}

pub open spec fn preview_link<T>(e: GbEntry<T>) -> Option<Seq<char>> {
    if e.preview_urls@.len() > 0 {
        Some(e.preview_urls@[0]@)
    } else {
        None
    }
}

/// Picking which thumbnails to fetch, ID by ID: an ID already being fetched
/// is passed over; any other is marked as being fetched, and is fetched
/// (from its first preview link) unless it failed before, the list does not
/// hold it or it has no preview link.
pub open spec fn restore_plan<T>(
    restoring: Set<u32>,
    failed: Set<u32>,
    entries: Seq<GbEntry<T>>,
    missing: Seq<u32>,
) -> (Set<u32>, Seq<(u32, Seq<char>)>)
    decreases missing.len(),
{
    if missing.len() == 0 {
        (restoring, seq![])
    } else {
        let prev = restore_plan(restoring, failed, entries, missing.drop_last());
        let id = missing.last();
        if prev.0.contains(id) {
            prev
        } else if failed.contains(id) {
            (prev.0.insert(id), prev.1)
        } else {
            match first_entry(entries, id) {
                None => (prev.0.insert(id), prev.1),
                Some(i) => match preview_link(entries[i]) {
                    None => (prev.0.insert(id), prev.1),
                    Some(url) => (prev.0.insert(id), prev.1.push((id, url))),
                },
            }
        }
    }
}

/// A restore pass marks every missing ID as being fetched, and fetches each
/// ID at most once: only one that was neither being fetched already nor
/// failed before.
pub proof fn law_restore_fetches_once<T>(
    restoring: Set<u32>,
    failed: Set<u32>,
    entries: Seq<GbEntry<T>>,
    missing: Seq<u32>,
)
    ensures
        ({
            let plan = restore_plan(restoring, failed, entries, missing);
            &&& plan.0 == restoring.union(missing.to_set())
            &&& forall|k: int|
                0 <= k < plan.1.len() ==> !restoring.contains(#[trigger] plan.1[k].0) && !failed.contains(
                    plan.1[k].0,
                ) && missing.contains(plan.1[k].0)
            &&& forall|a: int, b: int| 0 <= a < b < plan.1.len() ==> #[trigger] plan.1[a].0 != #[trigger] plan.1[b].0
        }),
    decreases missing.len(),
{
    let plan = restore_plan(restoring, failed, entries, missing);
    if missing.len() == 0 {
        assert(missing.to_set() =~= Set::<u32>::empty());
        assert(plan.0 =~= restoring.union(missing.to_set()));
    } else {
        let rest = missing.drop_last();
        let id = missing.last();
        law_restore_fetches_once(restoring, failed, entries, rest);
        let prev = restore_plan(restoring, failed, entries, rest);
        assert(missing =~= rest.push(id));
        assert(missing.to_set() =~= rest.to_set().insert(id)) by {
            assert forall|x: u32| #[trigger] missing.to_set().contains(x) <==> rest.to_set().insert(id).contains(x) by {
                if missing.contains(x) {
                    let j = choose|j: int| 0 <= j < missing.len() && missing[j] == x;
                    if j < rest.len() {
                        assert(rest[j] == x);
                    }
                }
                if rest.contains(x) {
                    let j = choose|j: int| 0 <= j < rest.len() && rest[j] == x;
                    assert(missing[j] == x);
                }
                if x == id {
                    assert(missing[missing.len() - 1] == x);
                }
            }
        }
        assert forall|x: u32| rest.contains(x) implies missing.contains(x) by {
            let j = choose|j: int| 0 <= j < rest.len() && rest[j] == x;
            assert(missing[j] == x);
        }
        assert(missing.contains(id)) by {
            assert(missing[missing.len() - 1] == id);
        }
        assert(plan.0 =~= restoring.union(missing.to_set()));
        assert forall|k: int| 0 <= k < plan.1.len() implies !restoring.contains(#[trigger] plan.1[k].0)
            && !failed.contains(plan.1[k].0) && missing.contains(plan.1[k].0) by {
            if k < prev.1.len() {
                assert(plan.1[k] == prev.1[k]);
            }
        }
        assert forall|a: int, b: int| 0 <= a < b < plan.1.len() implies #[trigger] plan.1[a].0 != #[trigger] plan.1[b].0 by {
            if b < prev.1.len() {
                assert(plan.1[a] == prev.1[a]);
                assert(plan.1[b] == prev.1[b]);
            } else {
                assert(plan.1[a] == prev.1[a]);
                assert(rest.contains(prev.1[a].0));
            }
        }
    }
}

/// The thumbnails being fetched again, and those that could not be.
pub struct ThumbRestorer {
    restoring: HashSet<u32>,
    failed: HashSet<u32>,
}

impl ThumbRestorer {
    pub closed spec fn restoring_set(&self) -> Set<u32> {
        self.restoring@
    }

    pub closed spec fn failed_set(&self) -> Set<u32> {
        self.failed@
    }

    pub fn new() -> (r: Self)
        ensures
            r.restoring_set() == Set::<u32>::empty(),
            r.failed_set() == Set::<u32>::empty(),
    {
        ThumbRestorer { restoring: HashSet::new(), failed: HashSet::new() }
    }

    /// The thumbnails to fetch for the IDs of visible rows that show none,
    /// as (ID, link). The failures are forgotten first once there are
    /// `RESTORE_FAILED_LIMIT` of them.
    pub fn plan<T>(&mut self, missing: &Vec<u32>, browser: &GbBrowserHandler<T>) -> (r: Vec<(u32, String)>)
        ensures
            ({
                let f = if old(self).failed_set().len() >= RESTORE_FAILED_LIMIT {
                    Set::<u32>::empty()
                } else {
                    old(self).failed_set()
                };
                let plan = restore_plan(old(self).restoring_set(), f, browser.entries(), missing@);
                &&& final(self).failed_set() == f
                &&& final(self).restoring_set() == plan.0
                &&& r@.map_values(|p: (u32, String)| (p.0, p.1@)) == plan.1
            }),
    {
        if self.failed.len() >= RESTORE_FAILED_LIMIT {
            self.failed.clear();
        }
        let ghost f = self.failed_set();
        let ghost r0 = self.restoring_set();
        let mut out: Vec<(u32, String)> = Vec::new();
        let mut k: usize = 0;
        while k < missing.len()
            invariant
                k <= missing@.len(),
                f == self.failed_set(),
                ({
                    let plan = restore_plan(r0, f, browser.entries(), missing@.subrange(0, k as int));
                    &&& self.restoring_set() == plan.0
                    &&& out@.map_values(|p: (u32, String)| (p.0, p.1@)) == plan.1
                }),
            decreases missing.len() - k,
        {
            let ghost pre = missing@.subrange(0, k as int);
            let ghost next = missing@.subrange(0, k + 1);
            assert(next.drop_last() =~= pre);
            assert(next.last() == missing@[k as int]);
            let id = missing[k];
            let ghost prev_out = out@.map_values(|p: (u32, String)| (p.0, p.1@));
            if self.restoring.insert(id) && !self.failed.contains(&id) {
                match browser.entry(id) {
                    Some(e) => {
                        if e.preview_urls.len() > 0 {
                            let url = crate::idset::owned(e.preview_urls[0].as_str());
                            out.push((id, url));
                            assert(out@.map_values(|p: (u32, String)| (p.0, p.1@)) =~= prev_out.push((id, url@)));
                        }
                    },
                    None => {},
                }
            }
            k = k + 1;
        }
        assert(missing@.subrange(0, missing@.len() as int) =~= missing@);
        out
    }

    /// A fetch ended: the ID is no longer being fetched, and counts as
    /// failed where no thumbnail came.
    pub fn finish(&mut self, id: u32, fetched: bool)
        ensures
            final(self).restoring_set() == old(self).restoring_set().remove(id),
            fetched ==> final(self).failed_set() == old(self).failed_set(),
            !fetched ==> final(self).failed_set() == old(self).failed_set().insert(id),
    {
        self.restoring.remove(&id);
        if !fetched {
            self.failed.insert(id);
        }
    }
}


// ---------------------------------------------------------------------
// The preview carousel

/// The preview of one mod: its image links, the one shown, and the images
/// kept (the shown one and its neighbours).
pub struct Preview<T> {
    mod_id: u32,
    urls: Vec<String>,
    index: usize,
    cached: Vec<(usize, T)>,
}

/// The image that a list of kept images holds for a position: the last one
/// kept for it.
pub open spec fn image_at<T>(c: Seq<(usize, T)>, k: usize) -> Option<T>
    decreases c.len(),
{
    if c.len() == 0 {
        None
    } else if c.last().0 == k {
        Some(c.last().1)
    } else {
        image_at(c.drop_last(), k)
    }
}

/// Whether position `k` is the shown one or one of its two neighbours.
pub open spec fn near(k: int, shown: int) -> bool {
    k - shown <= 1 && shown - k <= 1
}

impl<T> Preview<T> {
    pub closed spec fn mod_of(&self) -> u32 {
        self.mod_id
    }

    /// The mod the preview shows.
    pub fn mod_id(&self) -> (r: u32)
        ensures
            r == self.mod_of(),
    {
        self.mod_id
    }

    pub closed spec fn count(&self) -> nat {
        self.urls@.len()
    }

    pub closed spec fn links(&self) -> Seq<Seq<char>> {
        crate::text::strings_view(self.urls@)
    }

    pub closed spec fn shown(&self) -> nat {
        self.index as nat
    }

    /// The image kept for a position.
    pub closed spec fn image_for(&self, k: usize) -> Option<T> {
        image_at(self.cached@, k)
    }

    /// The preview of a mod opens on its first image, with none kept.
    pub fn open(mod_id: u32, urls: Vec<String>) -> (r: Self)
        ensures
            r.mod_of() == mod_id,
            r.count() == urls@.len(),
            r.links() == crate::text::strings_view(urls@),
            r.shown() == 0,
            forall|k: usize| #[trigger] r.image_for(k) is None,
    {
        Preview { mod_id, urls, index: 0, cached: Vec::new() }
    }

    /// The link of an image of the preview.
    pub fn url(&self, index: usize) -> (r: Option<String>)
        ensures
            r is Some == (index < self.count()),
            r matches Some(u) ==> u@ == self.links()[index as int],
    {
        if index < self.urls.len() {
            Some(owned(self.urls[index].as_str()))
        } else {
            None
        }
    }

    /// Moves to another image: ignored for a position outside the preview
    /// or the one shown. Returns whether the shown image changed.
    pub fn navigate(&mut self, new_index: usize) -> (r: bool)
        ensures
            r == (new_index < old(self).count() && new_index != old(self).shown()),
            r ==> final(self).shown() == new_index,
            !r ==> final(self).shown() == old(self).shown(),
            final(self).count() == old(self).count(),
            final(self).mod_of() == old(self).mod_of(),
            forall|k: usize| #[trigger] final(self).image_for(k) == old(self).image_for(k),
    {
        if new_index >= self.urls.len() || new_index == self.index {
            return false;
        }
        self.index = new_index;
        true
    }

    /// The image kept for a position, if any.
    pub fn cached(&self, index: usize) -> (r: Option<&T>)
        ensures
            match r {
                Some(t) => self.image_for(index) == Some(*t),
                None => self.image_for(index) is None,
            },
    {
        let mut j = self.cached.len();
        assert(self.cached@.subrange(0, j as int) =~= self.cached@);
        while j > 0
            invariant
                j <= self.cached@.len(),
                image_at(self.cached@, index) == image_at(self.cached@.subrange(0, j as int), index),
            decreases j,
        {
            let ghost sub = self.cached@.subrange(0, j as int);
            assert(sub.drop_last() =~= self.cached@.subrange(0, j - 1));
            if self.cached[j - 1].0 == index {
                return Some(&self.cached[j - 1].1);
            }
            j = j - 1;
        }
        None
    }

    /// An image of the preview arrives: it is kept for its position, and
    /// only the images of the shown position and its two neighbours stay
    /// kept.
    pub fn store(&mut self, index: usize, image: T)
        ensures
            forall|k: usize|
                #[trigger] final(self).image_for(k) == (if near(k as int, old(self).shown() as int) {
                    if k == index {
                        Some(image)
                    } else {
                        old(self).image_for(k)
                    }
                } else {
                    None
                }),
            final(self).shown() == old(self).shown(),
            final(self).count() == old(self).count(),
            final(self).mod_of() == old(self).mod_of(),
    {
        let mut kept: Vec<(usize, T)> = Vec::new();
        let mut old_cached = Vec::new();
        std::mem::swap(&mut old_cached, &mut self.cached);
        let ghost all = old_cached@;
        let cur = self.index;
        let ghost keep = |e: (usize, T)| near(e.0 as int, cur as int) && e.0 != index;
        let n = old_cached.len();
        let mut taken: usize = 0;
        while taken < n
            invariant
                n == all.len(),
                taken <= n,
                old_cached@ == all.subrange(taken as int, n as int),
                kept@ == all.subrange(0, taken as int).filter(keep),
                keep == (|e: (usize, T)| near(e.0 as int, cur as int) && e.0 != index),
                cur == self.index,
            decreases n - taken,
        {
            proof {
                reveal(Seq::filter);
                assert(all.subrange(0, taken + 1).drop_last() =~= all.subrange(0, taken as int));
            }
            let e = old_cached.remove(0);
            assert(e == all[taken as int]);
            let near_old = if e.0 >= cur { e.0 - cur <= 1 } else { cur - e.0 <= 1 };
            if near_old && e.0 != index {
                kept.push(e);
            }
            taken = taken + 1;
            assert(old_cached@ =~= all.subrange(taken as int, n as int));
        }
        assert(all.subrange(0, n as int) =~= all);
        let ghost filtered = kept@;
        let near_new = if index >= cur { index - cur <= 1 } else { cur - index <= 1 };
        if near_new {
            kept.push((index, image));
        }
        proof {
            assert forall|k: usize| #[trigger] image_at(kept@, k) == (if near(k as int, cur as int) {
                if k == index {
                    Some(image)
                } else {
                    image_at(all, k)
                }
            } else {
                None
            }) by {
                lemma_image_at_kept(all, keep, k, cur, index);
                if near_new {
                    assert(kept@ == filtered.push((index, image)));
                    assert(kept@.drop_last() =~= filtered);
                }
            }
        }
        self.cached = kept;
    }
}

/// Filtering the kept images by `keep` (near the shown position and not
/// at `index`) keeps the image of a near position other than `index`, and
/// drops the others.
proof fn lemma_image_at_kept<T>(
    c: Seq<(usize, T)>,
    keep: spec_fn((usize, T)) -> bool,
    k: usize,
    cur: usize,
    index: usize,
)
    requires
        keep == (|e: (usize, T)| near(e.0 as int, cur as int) && e.0 != index),
    ensures
        image_at(c.filter(keep), k) == (if near(k as int, cur as int) && k != index {
            image_at(c, k)
        } else {
            None
        }),
    decreases c.len(),
{
    reveal(Seq::filter);
    if c.len() > 0 {
        lemma_image_at_kept(c.drop_last(), keep, k, cur, index);
        if keep(c.last()) {
            assert(c.filter(keep) == c.drop_last().filter(keep).push(c.last()));
            assert(c.filter(keep).drop_last() =~= c.drop_last().filter(keep));
        }
    } else {
        assert(c.filter(keep) =~= Seq::<(usize, T)>::empty());
    }
}

// ---------------------------------------------------------------------
// One install at a time

/// Where the single install stands.
#[derive(Clone, Copy, Debug, PartialEq, Eq, Structural)]
pub enum InstallState {
    Idle,
    Running,
    Cancelled,
    Committed,
}

/// The install slot shared by the browser, 1-Click and mod updates.
pub struct InstallGate {
    state: InstallState,
}

impl InstallGate {
    pub closed spec fn state(&self) -> InstallState {
        self.state
    }

    pub fn new() -> (r: Self)
        ensures
            r.state() == InstallState::Idle,
    {
        InstallGate { state: InstallState::Idle }
    }

    /// Whether an install runs (or the progress overlay is up).
    pub fn in_progress(&self, overlay_active: bool) -> (r: bool)
        ensures
            r == (self.state() != InstallState::Idle || overlay_active),
    {
        self.state != InstallState::Idle || overlay_active
    }

    /// A download asks to start: it takes the slot only when nothing runs.
    pub fn try_start(&mut self, overlay_active: bool) -> (r: bool)
        ensures
            r == (old(self).state() == InstallState::Idle && !overlay_active),
            r ==> final(self).state() == InstallState::Running,
            !r ==> final(self).state() == old(self).state(),
    {
        if self.in_progress(overlay_active) {
            return false;
        }
        self.state = InstallState::Running;
        true
    }

    /// The user cancels: only a running download can be cancelled.
    pub fn cancel(&mut self) -> (r: bool)
        ensures
            r == (old(self).state() == InstallState::Running),
            r ==> final(self).state() == InstallState::Cancelled,
            !r ==> final(self).state() == old(self).state(),
    {
        if self.state != InstallState::Running {
            return false;
        }
        self.state = InstallState::Cancelled;
        true
    }

    /// Whether the running download was cancelled.
    pub fn cancelled(&self) -> (r: bool)
        ensures
            r == (self.state() == InstallState::Cancelled),
    {
        self.state == InstallState::Cancelled
    }

    /// The download finished and extraction begins, which cannot be
    /// cancelled: only a download still running commits.
    pub fn commit(&mut self) -> (r: bool)
        ensures
            r == (old(self).state() == InstallState::Running),
            r ==> final(self).state() == InstallState::Committed,
            !r ==> final(self).state() == old(self).state(),
    {
        if self.state != InstallState::Running {
            return false;
        }
        self.state = InstallState::Committed;
        true
    }

    /// The install is over, however it ended: the slot is free.
    pub fn finish(&mut self)
        ensures
            final(self).state() == InstallState::Idle,
    {
        self.state = InstallState::Idle;
    }

    /// A download ended. A fetched file is installed where the download
    /// still runs (the slot is committed), and thrown away where it was
    /// cancelled meanwhile. A cancelled or failed download frees the slot;
    /// a failed one also hides the progress overlay and shows
    /// `Download failed - ` and the reason.
    pub fn download_ended(&mut self, end: DownloadEnd) -> (r: EndAction)
        ensures
            match end {
                DownloadEnd::Fetched => if old(self).state() == InstallState::Running {
                    r == EndAction::Install && final(self).state() == InstallState::Committed
                } else {
                    r == EndAction::Discard && final(self).state() == old(self).state()
                },
                DownloadEnd::Cancelled => r == EndAction::Finished && final(self).state() == InstallState::Idle,
                DownloadEnd::Failed { reason } => (r matches EndAction::Refused { toast } && toast@
                    == "Download failed - "@ + reason@) && final(self).state() == InstallState::Idle,
            },
    {
        match end {
            DownloadEnd::Fetched => {
                if self.commit() {
                    EndAction::Install
                } else {
                    EndAction::Discard
                }
            },
            DownloadEnd::Cancelled => {
                self.finish();
                EndAction::Finished
            },
            DownloadEnd::Failed { reason } => {
                self.finish();
                let text = crate::text::concat_chars(
                    to_chars("Download failed - ").as_slice(),
                    to_chars(reason.as_str()).as_slice(),
                );
                EndAction::Refused { toast: from_chars(text.as_slice()) }
            },
        }
    }
}

/// How a download ended: its file fetched, cancelled, or failed for a
/// reason.
pub enum DownloadEnd {
    Fetched,
    Cancelled,
    Failed { reason: String },
}

/// What follows the end of a download: install the file, throw it away,
/// nothing more (the slot was freed), or hide the overlay and show the
/// toast (the slot was freed).
pub enum EndAction {
    Install,
    Discard,
    Finished,
    Refused { toast: String },
}

/// A cancelled download never commits, and a committed one can no longer
/// be cancelled.
pub proof fn law_cancel_and_commit_exclude(s: InstallState)
    ensures
        s == InstallState::Cancelled ==> !(s == InstallState::Running),
        s == InstallState::Committed ==> !(s == InstallState::Running),
{
}

// ---------------------------------------------------------------------
// A download

#[verifier::external_type_specification]
#[verifier::external_body]
pub struct ExMd5Context(md5::Context);

/// The MD5 digest of the bytes.
pub uninterp spec fn md5_digest(data: Seq<u8>) -> Seq<u8>;

/// An MD5 computation, with the bytes fed to it so far.
pub struct Md5 {
    ctx: md5::Context,
    fed: Ghost<Seq<u8>>,
}

impl Md5 {
    pub closed spec fn fed(&self) -> Seq<u8> {
        self.fed@
    }

    /// `md5::Context::new`: nothing fed yet.
    #[verifier::external_body]
    pub(crate) fn new() -> (r: Self)
        ensures
            r.fed() == Seq::<u8>::empty(),
    {
        Md5 { ctx: md5::Context::new(), fed: Ghost(Seq::empty()) }
    }

    /// `md5::Context::consume`: the bytes are fed after the ones before.
    #[verifier::external_body]
    pub(crate) fn consume(&mut self, data: &[u8])
        ensures
            final(self).fed() == old(self).fed() + data@,
    {
        self.ctx.consume(data);
    }

    /// `md5::Context::finalize`: the 16 bytes of the digest of all that was
    /// fed, named by `md5_digest`.
    #[verifier::external_body]
    pub(crate) fn finalize(self) -> (r: Vec<u8>)
        ensures
            r@ == md5_digest(self.fed()),
            r@.len() == 16,
    {
        self.ctx.finalize().0.to_vec()
    }
}

pub open spec fn hex_digit(d: u8) -> char {
    if d < 10 {
        ((48 + d) as u8) as char
    } else {
        ((87 + d) as u8) as char
    }
}

/// Bytes as lower-case hex, two digits each, as `{:x}` writes a digest.
pub open spec fn hex_lower(bytes: Seq<u8>) -> Seq<char>
    decreases bytes.len(),
{
    if bytes.len() == 0 {
        seq![]
    } else {
        hex_lower(bytes.drop_last()) + seq![hex_digit(bytes.last() / 16), hex_digit(bytes.last() % 16)]
    }
}

fn hex_digit_exec(d: u8) -> (r: char)
    requires
        d < 16,
    ensures
        r == hex_digit(d),
{
    if d < 10 {
        (48u8 + d) as char
    } else {
        (87u8 + d) as char
    }
}

pub fn hex_string(bytes: &[u8]) -> (r: String)
    ensures
        r@ == hex_lower(bytes@),
{
    let mut out: Vec<char> = Vec::new();
    let mut i: usize = 0;
    while i < bytes.len()
        invariant
            i <= bytes@.len(),
            out@ == hex_lower(bytes@.subrange(0, i as int)),
        decreases bytes.len() - i,
    {
        let b = bytes[i];
        out.push(hex_digit_exec(b / 16));
        out.push(hex_digit_exec(b % 16));
        assert(bytes@.subrange(0, i + 1).drop_last() =~= bytes@.subrange(0, i as int));
        i = i + 1;
    }
    assert(bytes@.subrange(0, bytes@.len() as int) =~= bytes@);
    from_chars(out.as_slice())
}

/// How many tries a download gets.
pub const DOWNLOAD_ATTEMPTS: u32 = 4;

/// What a failed try leads to.
#[derive(Clone, Copy, Debug, PartialEq, Eq, Structural)]
pub enum AfterFailure {
    /// The user cancelled meanwhile.
    Cancelled,
    /// Every try was used.
    GiveUp,
    /// Try again after this many seconds.
    Retry(u64),
}

/// Why a finished download is refused.
pub struct ChecksumMismatch {
    pub expected: String,
    pub got: String,
}

impl ChecksumMismatch {
    /// The reason given for a refused file:
    /// `checksum mismatch for '<name>' (expected <md5>, got <md5>)`.
    pub fn reason(&self, file_name: &str) -> (r: String)
        ensures
            r@ == "checksum mismatch for '"@ + file_name@ + "' (expected "@ + self.expected@ + ", got "@
                + self.got@ + ")"@,
    {
        let mut out = to_chars("checksum mismatch for '");
        out = crate::text::concat_chars(out.as_slice(), to_chars(file_name).as_slice());
        out = crate::text::concat_chars(out.as_slice(), to_chars("' (expected ").as_slice());
        out = crate::text::concat_chars(out.as_slice(), to_chars(self.expected.as_str()).as_slice());
        out = crate::text::concat_chars(out.as_slice(), to_chars(", got ").as_slice());
        out = crate::text::concat_chars(out.as_slice(), to_chars(self.got.as_str()).as_slice());
        out = crate::text::concat_chars(out.as_slice(), to_chars(")").as_slice());
        from_chars(out.as_slice())
    }
}

/// A download in progress: the bytes received (hashed as they come), the
/// expected total, the last percentage shown, and the try.
pub struct Download {
    hasher: Md5,
    size: u64,
    done: u64,
    total: u64,
    last_percent: u64,
    attempt: u32,
}

impl Download {
    pub closed spec fn received(&self) -> Seq<u8> {
        self.hasher.fed()
    }

    pub closed spec fn done(&self) -> u64 {
        self.done
    }

    pub closed spec fn total(&self) -> u64 {
        self.total
    }

    pub closed spec fn last_percent(&self) -> u64 {
        self.last_percent
    }

    pub closed spec fn attempt(&self) -> u32 {
        self.attempt
    }

    pub closed spec fn size(&self) -> u64 {
        self.size
    }

    /// A download of a file of the listed size: nothing received, first try.
    pub fn new(size: u64) -> (r: Self)
        ensures
            r.received().len() == 0,
            r.done() == 0,
            r.total() == size,
            r.size() == size,
            r.last_percent() == 0,
            r.attempt() == 1,
    {
        Download { hasher: Md5::new(), size, done: 0, total: size, last_percent: 0, attempt: 1 }
    }

    /// Where a new try asks the server to start: after what was received,
    /// if anything was.
    pub fn resume_from(&self) -> (r: Option<u64>)
        ensures
            r == (if self.done() > 0 { Some(self.done()) } else { None }),
    {
        if self.done > 0 {
            Some(self.done)
        } else {
            None
        }
    }

    /// The server answered a try. A try after received bytes resumes only
    /// when the server sends partial content; otherwise the download starts
    /// over. The total is what the server announces (added to what was
    /// received when resuming), else the listed size. Returns whether the
    /// try resumes.
    pub fn on_response(&mut self, partial_content: bool, content_length: Option<u64>) -> (r: bool)
        requires
            content_length matches Some(len) ==> old(self).done() + len <= u64::MAX,
        ensures
            r == (old(self).done() > 0 && partial_content),
            r ==> final(self).done() == old(self).done() && final(self).received() == old(self).received()
                && final(self).last_percent() == old(self).last_percent(),
            !r ==> final(self).done() == 0 && final(self).received().len() == 0 && final(self).last_percent() == 0,
            final(self).total() == (match content_length {
                Some(len) => if r { (old(self).done() + len) as u64 } else { len },
                None => old(self).size(),
            }),
            final(self).attempt() == old(self).attempt(),
            final(self).size() == old(self).size(),
    {
        let resuming = self.done > 0 && partial_content;
        if !resuming {
            self.done = 0;
            self.last_percent = 0;
            self.hasher = Md5::new();
        }
        self.total = match content_length {
            Some(len) => if resuming {
                self.done + len
            } else {
                len
            },
            None => self.size,
        };
        resuming
    }

    /// A chunk arrived: it is hashed and counted. Returns the percentage to
    /// show when it grew past the one shown last.
    pub fn feed(&mut self, chunk: &[u8]) -> (r: Option<u64>)
        requires
            (old(self).done() + chunk@.len()) * 100 <= u64::MAX,
        ensures
            final(self).received() == old(self).received() + chunk@,
            final(self).done() == old(self).done() + chunk@.len(),
            ({
                let p = if old(self).total() > 0 { (final(self).done() * 100) / (old(self).total() as int) } else { 0 };
                &&& old(self).total() > 0 && p > old(self).last_percent() ==> r == Some(p as u64) && final(self).last_percent() == p
                &&& !(old(self).total() > 0 && p > old(self).last_percent()) ==> r is None && final(self).last_percent() == old(self).last_percent()
            }),
            final(self).total() == old(self).total(),
            final(self).attempt() == old(self).attempt(),
            final(self).size() == old(self).size(),
    {
        self.hasher.consume(chunk);
        self.done = self.done + chunk.len() as u64;
        if self.total > 0 {
            let percent = self.done * 100 / self.total;
            if percent > self.last_percent {
                self.last_percent = percent;
                return Some(percent);
            }
        }
        None
    }

    /// A try failed: a cancelled download stops, the last try gives up, any
    /// other try is followed by another after a pause that grows by two
    /// seconds per try.
    pub fn after_failure(&mut self, cancelled: bool) -> (r: AfterFailure)
        ensures
            cancelled ==> r == AfterFailure::Cancelled,
            !cancelled && old(self).attempt() >= DOWNLOAD_ATTEMPTS ==> r == AfterFailure::GiveUp,
            !cancelled && old(self).attempt() < DOWNLOAD_ATTEMPTS ==> r == AfterFailure::Retry((2 * old(self).attempt()) as u64)
                && final(self).attempt() == old(self).attempt() + 1,
            (cancelled || old(self).attempt() >= DOWNLOAD_ATTEMPTS) ==> final(self).attempt() == old(self).attempt(),
            final(self).received() == old(self).received(),
            final(self).done() == old(self).done(),
    {
        if cancelled {
            return AfterFailure::Cancelled;
        }
        if self.attempt >= DOWNLOAD_ATTEMPTS {
            return AfterFailure::GiveUp;
        }
        let pause = 2 * self.attempt as u64;
        self.attempt = self.attempt + 1;
        AfterFailure::Retry(pause)
    }

    /// The download ended: it is accepted when no checksum is listed or the
    /// listed one matches the digest of the bytes received (ignoring case).
    pub fn check(self, expected_md5: &str) -> (r: Result<u64, ChecksumMismatch>)
        ensures
            match r {
                Ok(n) => n == self.done() && (expected_md5@.len() == 0 || eq_ignore_ascii_case(
                    expected_md5@,
                    hex_lower(md5_digest(self.received())),
                )),
                Err(m) => expected_md5@.len() > 0 && !eq_ignore_ascii_case(
                    expected_md5@,
                    hex_lower(md5_digest(self.received())),
                ) && m.expected@ == expected_md5@ && m.got@ == hex_lower(md5_digest(self.received())),
            },
    {
        let done = self.done;
        let digest = self.hasher.finalize();
        let hex = hex_string(digest.as_slice());
        let expected = to_chars(expected_md5);
        if expected.len() > 0 && !eq_ignore_ascii_case_chars(expected.as_slice(), to_chars(hex.as_str()).as_slice()) {
            return Err(ChecksumMismatch { expected: owned(expected_md5), got: hex });
        }
        Ok(done)
    }
}

} // verus!
