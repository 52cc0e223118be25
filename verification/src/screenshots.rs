//! The screenshot gallery's rules: the bounded thumbnail cache, the dates
//! read from screenshot names, renames, and the selection and deletion
//! bookkeeping of the page.
use vstd::prelude::*;
use crate::idset::{owned, same_text, IdSet};
use crate::ordering::{arrange, is_stable_order, keys_view, lemma_sorted_distinct, stable_order, KeyView, SortKey};
use crate::oneclick::{parse_u32, parse_u32_exec};
use crate::text::{
    concat_chars, decimal, decimal_chars, ends_with, ends_with_chars, from_chars, lowercase,
    split_on, split_on_exec, to_chars, to_lowercase, trim, trim_chars, TrimSet,
};

verus! {

/// How many thumbnails the cache keeps.
pub const THUMB_CACHE_MAX: usize = 200;

/// Thumbnails by path, dropping the oldest once more than
/// `THUMB_CACHE_MAX` are held.
pub struct ThumbCache<T> {
    entries: Vec<(String, T)>,
}

pub open spec fn keys_of<T>(e: Seq<(String, T)>) -> Seq<Seq<char>> {
    e.map_values(|p: (String, T)| p.0@)
}

/// The thumbnail that a list of entries holds for a path: that of its
/// first entry for the path.
pub open spec fn image_in<T>(e: Seq<(String, T)>, path: Seq<char>) -> Option<T>
    decreases e.len(),
{
    if e.len() == 0 {
        None
    } else if e[0].0@ == path {
        Some(e[0].1)
    } else {
        image_in(e.drop_first(), path)
    }
}

proof fn lemma_image_in<T>(e: Seq<(String, T)>, i: int)
    requires
        keys_of(e).no_duplicates(),
        0 <= i < e.len(),
    ensures
        image_in(e, e[i].0@) == Some(e[i].1),
    decreases e.len(),
{
    if i > 0 {
        let rest = e.drop_first();
        assert(keys_of(rest) =~= keys_of(e).drop_first());
        assert(keys_of(e)[0] != keys_of(e)[i]);
        assert(rest[i - 1] == e[i]);
        lemma_image_in(rest, i - 1);
    }
}

proof fn lemma_image_in_some<T>(e: Seq<(String, T)>, q: Seq<char>)
    ensures
        image_in(e, q) is Some <==> keys_of(e).contains(q),
    decreases e.len(),
{
    if e.len() > 0 {
        lemma_image_in_some(e.drop_first(), q);
        assert(keys_of(e.drop_first()) =~= keys_of(e).drop_first());
        if keys_of(e).contains(q) && e[0].0@ != q {
            let j = choose|j: int| 0 <= j < keys_of(e).len() && keys_of(e)[j] == q;
            assert(j != 0);
            assert(keys_of(e.drop_first())[j - 1] == q);
        }
        if keys_of(e.drop_first()).contains(q) {
            let j = choose|j: int| 0 <= j < keys_of(e.drop_first()).len() && keys_of(e.drop_first())[j] == q;
            assert(keys_of(e)[j + 1] == q);
        }
        if e[0].0@ == q {
            assert(keys_of(e)[0] == q);
        }
    }
}

impl<T> ThumbCache<T> {
    #[verifier::type_invariant]
    closed spec fn bounded(&self) -> bool {
        &&& self.entries@.len() <= THUMB_CACHE_MAX
        &&& keys_of(self.entries@).no_duplicates()
    }

    /// The paths held, oldest first.
    pub closed spec fn keys(&self) -> Seq<Seq<char>> {
        keys_of(self.entries@)
    }

    /// The thumbnail held for a path.
    pub closed spec fn image_of(&self, path: Seq<char>) -> Option<T> {
        image_in(self.entries@, path)
    }

    pub fn new() -> (r: Self)
        ensures
            r.keys().len() == 0,
    {
        ThumbCache { entries: Vec::new() }
    }

    /// How many thumbnails are held.
    pub fn len(&self) -> (r: usize)
        ensures
            r == self.keys().len(),
            r <= THUMB_CACHE_MAX,
    {
        proof {
            use_type_invariant(self);
        }
        self.entries.len()
    }

    fn position(&self, path: &str) -> (r: Option<usize>)
        ensures
            match r {
                Some(i) => i < self.entries@.len() && self.entries@[i as int].0@ == path@,
                None => forall|i: int| 0 <= i < self.entries@.len() ==> #[trigger] self.entries@[i].0@ != path@,
            },
    {
        let mut i: usize = 0;
        while i < self.entries.len()
            invariant
                i <= self.entries@.len(),
                forall|j: int| 0 <= j < i ==> #[trigger] self.entries@[j].0@ != path@,
            decreases self.entries.len() - i,
        {
            if same_text(self.entries[i].0.as_str(), path) {
                return Some(i);
            }
            i = i + 1;
        }
        None
    }

    /// Whether a thumbnail is held for the path.
    pub fn contains_key(&self, path: &str) -> (r: bool)
        ensures
            r == self.keys().contains(path@),
    {
        match self.position(path) {
            Some(i) => {
                assert(self.keys()[i as int] == path@);
                true
            },
            None => {
                assert(!self.keys().contains(path@)) by {
                    if self.keys().contains(path@) {
                        let j = choose|j: int| 0 <= j < self.keys().len() && self.keys()[j] == path@;
                        assert(self.entries@[j].0@ == path@);
                    }
                }
                false
            },
        }
    }

    /// The thumbnail held for the path.
    pub fn get(&self, path: &str) -> (r: Option<&T>)
        ensures
            match r {
                Some(t) => self.keys().contains(path@) && self.image_of(path@) == Some(*t),
                None => !self.keys().contains(path@),
            },
    {
        proof {
            use_type_invariant(self);
        }
        match self.position(path) {
            Some(i) => {
                assert(self.keys()[i as int] == path@);
                proof {
                    lemma_image_in(self.entries@, i as int);
                }
                Some(&self.entries[i].1)
            },
            None => {
                assert(!self.keys().contains(path@)) by {
                    if self.keys().contains(path@) {
                        let j = choose|j: int| 0 <= j < self.keys().len() && self.keys()[j] == path@;
                        assert(self.entries@[j].0@ == path@);
                    }
                }
                None
            },
        }
    }

    /// Adds a thumbnail. A path not held before goes to the back; once more
    /// than `THUMB_CACHE_MAX` are held the oldest are dropped. A path held
    /// before keeps its place and gets the new thumbnail.
    pub fn insert(&mut self, path: &str, image: T)
        ensures
            final(self).keys().contains(path@),
            final(self).image_of(path@) == Some(image),
            forall|q: Seq<char>| #[trigger] final(self).image_of(q) is Some <==> final(self).keys().contains(q),
            forall|q: Seq<char>|
                q != path@ && #[trigger] final(self).keys().contains(q) ==> final(self).image_of(q) == old(
                    self,
                ).image_of(q),
            old(self).keys().contains(path@) ==> final(self).keys() == old(self).keys(),
            !old(self).keys().contains(path@) ==> final(self).keys() == (if old(self).keys().len()
                < THUMB_CACHE_MAX {
                old(self).keys().push(path@)
            } else {
                old(self).keys().push(path@).drop_first()
            }),
    {
        proof {
            use_type_invariant(&*self);
        }
        let ghost before = self.keys();
        let ghost old_e = self.entries@;
        match self.position(path) {
            Some(i) => {
                let mut entries = Vec::new();
                std::mem::swap(&mut entries, &mut self.entries);
                let key = owned(path);
                entries.set(i, (key, image));
                assert(keys_of(entries@) =~= before);
                self.entries = entries;
                assert(self.keys()[i as int] == path@);
                proof {
                    let e = self.entries@;
                    lemma_image_in(e, i as int);
                    assert forall|q: Seq<char>| q != path@ && #[trigger] self.keys().contains(q) implies self.image_of(q)
                        == image_in(old_e, q) by {
                        let j = choose|j: int| 0 <= j < self.keys().len() && self.keys()[j] == q;
                        assert(e[j].0@ == q);
                        assert(j != i);
                        assert(e[j] == old_e[j]);
                        lemma_image_in(e, j);
                        lemma_image_in(old_e, j);
                    }
                }
            },
            None => {
                assert(!before.contains(path@)) by {
                    if before.contains(path@) {
                        let j = choose|j: int| 0 <= j < before.len() && before[j] == path@;
                        assert(self.entries@[j].0@ == path@);
                    }
                }
                let mut entries = Vec::new();
                std::mem::swap(&mut entries, &mut self.entries);
                entries.push((owned(path), image));
                assert(keys_of(entries@) =~= before.push(path@));
                if entries.len() > THUMB_CACHE_MAX {
                    entries.remove(0);
                    assert(keys_of(entries@) =~= before.push(path@).drop_first());
                }
                let ghost k = keys_of(entries@);
                assert(k.no_duplicates()) by {
                    let full = before.push(path@);
                    assert(full.no_duplicates()) by {
                        assert forall|a: int, b: int| 0 <= a < b < full.len() implies full[a] != full[b] by {
                            if b == before.len() {
                                assert(before.contains(before[a]));
                            }
                        }
                    }
                    if k.len() < full.len() {
                        assert forall|a: int, b: int| 0 <= a < b < k.len() implies k[a] != k[b] by {
                            assert(k[a] == full[a + 1]);
                            assert(k[b] == full[b + 1]);
                        }
                    }
                }
                self.entries = entries;
                assert(self.keys().contains(path@)) by {
                    assert(self.keys()[self.keys().len() - 1] == path@);
                }
                proof {
                    let e = self.entries@;
                    let full = old_e.push(e[e.len() - 1]);
                    assert(e =~= full || e =~= full.drop_first());
                    lemma_image_in(e, e.len() - 1);
                    assert forall|q: Seq<char>| q != path@ && #[trigger] self.keys().contains(q) implies self.image_of(q)
                        == image_in(old_e, q) by {
                        let j = choose|j: int| 0 <= j < self.keys().len() && self.keys()[j] == q;
                        assert(e[j].0@ == q);
                        lemma_image_in(e, j);
                        assert(j < e.len() - 1);
                        if e.len() == full.len() {
                            assert(e[j] == old_e[j]);
                            lemma_image_in(old_e, j);
                        } else {
                            assert(e[j] == old_e[j + 1]);
                            lemma_image_in(old_e, j + 1);
                        }
                    }
                }
            },
        }
        proof {
            assert forall|q: Seq<char>| #[trigger] self.image_of(q) is Some <==> self.keys().contains(q) by {
                lemma_image_in_some(self.entries@, q);
            }
        }
    }

    /// Keeps only the thumbnails of listed paths, in their order.
    pub fn retain(&mut self, listed: &IdSet)
        ensures
            final(self).keys() == old(self).keys().filter(|k: Seq<char>| listed.view().contains(k)),
            forall|q: Seq<char>| #[trigger] final(self).image_of(q) is Some <==> final(self).keys().contains(q),
    {
        proof {
            use_type_invariant(&*self);
        }
        let ghost before = self.keys();
        let ghost keep = |k: Seq<char>| listed.view().contains(k);
        let mut old_entries = Vec::new();
        std::mem::swap(&mut old_entries, &mut self.entries);
        let mut kept: Vec<(String, T)> = Vec::new();
        let n = old_entries.len();
        let mut taken: usize = 0;
        let ghost all = old_entries@;
        assert(keys_of(all) == before);
        while taken < n
            invariant
                n == all.len(),
                taken <= n,
                old_entries@ == all.subrange(taken as int, n as int),
                keys_of(kept@) == keys_of(all.subrange(0, taken as int)).filter(keep),
                keep == (|k: Seq<char>| listed.view().contains(k)),
                keys_of(all).no_duplicates(),
                all.len() <= THUMB_CACHE_MAX,
            decreases n - taken,
        {
            let e = old_entries.remove(0);
            assert(e == all[taken as int]);
            proof {
                reveal(Seq::filter);
                assert(keys_of(all.subrange(0, taken + 1)).drop_last() =~= keys_of(all.subrange(0, taken as int)));
                assert(keys_of(all.subrange(0, taken + 1)).last() == e.0@);
            }
            if listed.contains(e.0.as_str()) {
                let ghost k0 = keys_of(kept@);
                kept.push(e);
                assert(keys_of(kept@) =~= k0.push(all[taken as int].0@));
            }
            taken = taken + 1;
            assert(old_entries@ =~= all.subrange(taken as int, n as int));
        }
        assert(all.subrange(0, n as int) =~= all);
        proof {
            let k = keys_of(kept@);
            broadcast use vstd::seq_lib::group_filter_ensures;
            all_filter_distinct(keys_of(all), keep);
            assert(k.len() <= keys_of(all).len());
        }
        self.entries = kept;
        proof {
            assert forall|q: Seq<char>| #[trigger] self.image_of(q) is Some <==> self.keys().contains(q) by {
                lemma_image_in_some(self.entries@, q);
            }
        }
    }
}

proof fn all_filter_distinct(s: Seq<Seq<char>>, keep: spec_fn(Seq<char>) -> bool)
    requires
        s.no_duplicates(),
    ensures
        s.filter(keep).no_duplicates(),
        s.filter(keep).len() <= s.len(),
    decreases s.len(),
{
    reveal(Seq::filter);
    if s.len() > 0 {
        let rest = s.drop_last();
        assert(rest.no_duplicates()) by {
            assert forall|a: int, b: int| 0 <= a < b < rest.len() implies rest[a] != rest[b] by {
                assert(rest[a] == s[a] && rest[b] == s[b]);
            }
        }
        all_filter_distinct(rest, keep);
        if keep(s.last()) {
            let f = rest.filter(keep);
            broadcast use vstd::seq_lib::group_filter_ensures;
            assert(!f.contains(s.last())) by {
                if f.contains(s.last()) {
                    rest.lemma_filter_contains_rev(keep, s.last());
                    let t = choose|t: int| 0 <= t < rest.len() && rest[t] == s.last();
                    assert(s[t] == s[s.len() - 1]);
                }
            }
            assert forall|a: int, b: int| 0 <= a < b < f.push(s.last()).len() implies f.push(s.last())[a]
                != f.push(s.last())[b] by {
                if b == f.len() {
                    assert(f.contains(f[a]));
                }
            }
        }
    }
}

// ---------------------------------------------------------------------
// Dates from names

/// The years `chrono::NaiveDate` holds.
pub open spec fn chrono_year_ok(year: i32) -> bool {
    -262143 <= year && year <= 262142
}

pub open spec fn leap_year(year: int) -> bool {
    (year % 4 == 0 && year % 100 != 0) || year % 400 == 0
}

pub open spec fn days_in_month(year: int, month: int) -> int {
    if month == 2 {
        if leap_year(year) { 29 } else { 28 }
    } else if month == 4 || month == 6 || month == 9 || month == 11 {
        30
    } else {
        31
    }
}

/// A date and a time of day that chrono accepts: a year it holds, a month
/// and a day of that month, an hour below 24 and a minute and second below
/// 60.
pub open spec fn valid_datetime(year: i32, month: u32, day: u32, hour: u32, min: u32, sec: u32) -> bool {
    &&& chrono_year_ok(year)
    &&& 1 <= month <= 12
    &&& 1 <= day <= days_in_month(year as int, month as int)
    &&& hour < 24 && min < 60 && sec < 60
}

/// The days from 1970-01-01 to a date of the proleptic Gregorian calendar.
pub open spec fn days_from_civil(year: int, month: int, day: int) -> int {
    let y = if month <= 2 { year - 1 } else { year };
    let era = y / 400;
    let yoe = y - era * 400;
    let mp = if month > 2 { month - 3 } else { month + 9 };
    let doy = (153 * mp + 2) / 5 + day - 1;
    let doe = yoe * 365 + yoe / 4 - yoe / 100 + doy;
    era * 146097 + doe - 719468
}

/// The seconds since the Unix epoch of a date and a time of day read as UTC.
pub open spec fn epoch_seconds(year: i32, month: u32, day: u32, hour: u32, min: u32, sec: u32) -> int {
    days_from_civil(year as int, month as int, day as int) * 86400 + hour * 3600 + min * 60 + sec
}

/// What chrono gives for a valid date and time: the seconds since the Unix
/// epoch of the date and time read as UTC, and the text
/// `%Y-%m-%d %H:%M`.
pub uninterp spec fn stamp_of(year: i32, month: u32, day: u32, hour: u32, min: u32, sec: u32) -> (i64, Seq<char>);

/// `NaiveDate::from_ymd_opt(..)?.and_hms_opt(..)`, read back as its UTC
/// timestamp and its `%Y-%m-%d %H:%M` text. Chrono refuses exactly the
/// invalid dates and times; the two results are named by `stamp_of`, and
/// the timestamp is the date's day count from 1970-01-01 times 86400 plus
/// the time of day in seconds.
#[verifier::external_body]
fn chrono_stamp(year: i32, month: u32, day: u32, hour: u32, min: u32, sec: u32) -> (r: Option<(i64, String)>)
    ensures
        r is Some == valid_datetime(year, month, day, hour, min, sec),
        r matches Some(x) ==> (x.0, x.1@) == stamp_of(year, month, day, hour, min, sec),
        r matches Some(x) ==> x.0 == epoch_seconds(year, month, day, hour, min, sec),
{
    let dt = chrono::NaiveDate::from_ymd_opt(year, month, day)?.and_hms_opt(hour, min, sec)?;
    Some((dt.and_utc().timestamp(), dt.format("%Y-%m-%d %H:%M").to_string()))
}

/// The six numbers of a name `yy_mm_dd_h_m_s`, each a `u32`.
pub open spec fn name_numbers(stem: Seq<char>) -> Option<Seq<u32>> {
    let parts = split_on(stem, '_');
    if forall|i: int| 0 <= i < parts.len() ==> #[trigger] parse_u32(parts[i]) is Some {
        Some(parts.map_values(|p: Seq<char>| parse_u32(p)->0))
    } else {
        None
    }
}

/// The date and time a screenshot's name gives: six numbers separated by
/// `_`, the first counting years from 2000, as chrono reads them. A year
/// beyond the `i32` range is refused, as chrono refuses it.
pub open spec fn spec_name_stamp(stem: Seq<char>) -> Option<(i64, Seq<char>)> {
    match name_numbers(stem) {
        Some(n) => if n.len() == 6 {
            let year = 2000 + (n[0] as i32) as int;
            if i32::MIN <= year <= i32::MAX && valid_datetime(year as i32, n[1], n[2], n[3], n[4], n[5]) {
                Some(stamp_of(year as i32, n[1], n[2], n[3], n[4], n[5]))
            } else {
                None
            }
        } else {
            None
        },
        None => None,
    }
}

/// Reads a screenshot's date from its file stem.
pub fn name_stamp(stem: &str) -> (r: Option<(i64, String)>)
    ensures
        match r {
            Some(x) => spec_name_stamp(stem@) == Some((x.0, x.1@)),
            None => spec_name_stamp(stem@) is None,
        },
        r matches Some(x) ==> (name_numbers(stem@) matches Some(n) && n.len() == 6 && x.0 == epoch_seconds(
            (2000 + (n[0] as i32) as int) as i32,
            n[1],
            n[2],
            n[3],
            n[4],
            n[5],
        )),
{
    let chars = to_chars(stem);
    let parts = split_on_exec(chars.as_slice(), '_');
    let ghost pv = parts@.map_values(|v: Vec<char>| v@);
    assert(pv == split_on(stem@, '_'));
    let mut nums: Vec<u32> = Vec::new();
    let mut i: usize = 0;
    while i < parts.len()
        invariant
            i <= parts@.len(),
            pv == parts@.map_values(|v: Vec<char>| v@),
            pv == split_on(stem@, '_'),
            nums@.len() == i,
            forall|k: int| 0 <= k < i ==> #[trigger] parse_u32(pv[k]) == Some(nums@[k]),
        decreases parts.len() - i,
    {
        assert(pv[i as int] == parts@[i as int]@);
        match parse_u32_exec(parts[i].as_slice()) {
            Some(v) => nums.push(v),
            None => {
                assert(name_numbers(stem@) is None);
                return None;
            },
        }
        i = i + 1;
    }
    assert(name_numbers(stem@) == Some(nums@)) by {
        assert(nums@ =~= pv.map_values(|p: Seq<char>| parse_u32(p)->0));
    }
    if nums.len() != 6 {
        return None;
    }
    let yy = nums[0] as i32;
    if yy > i32::MAX - 2000 {
        return None;
    }
    let year = 2000 + yy;
    chrono_stamp(year, nums[1], nums[2], nums[3], nums[4], nums[5])
}

// ---------------------------------------------------------------------
// Renaming

/// The file name a rename asks for: the trimmed text with `.png` added
/// unless it ends in `.png` (in any case); refused where it is empty or
/// holds a character that paths reserve.
pub open spec fn spec_rename_target(new_name: Seq<char>) -> Option<Seq<char>> {
    let t = trim(new_name, TrimSet::Whitespace);
    if t.len() == 0 || exists|i: int|
        0 <= i < t.len() && (t[i] == '/' || t[i] == '\\' || t[i] == ':' || t[i] == '*' || t[i] == '?'
            || t[i] == '"' || t[i] == '<' || t[i] == '>' || t[i] == '|') {
        None
    } else if ends_with(lowercase(t), ".png"@) {
        Some(t)
    } else {
        Some(t + ".png"@)
    }
}

pub fn rename_target(new_name: &str) -> (r: Option<String>)
    ensures
        match r {
            Some(x) => spec_rename_target(new_name@) == Some(x@),
            None => spec_rename_target(new_name@) is None,
        },
{
    let t = trim_chars(to_chars(new_name).as_slice(), TrimSet::Whitespace);
    if t.len() == 0 {
        return None;
    }
    let mut i: usize = 0;
    while i < t.len()
        invariant
            i <= t@.len(),
            t@ == trim(new_name@, TrimSet::Whitespace),
            forall|j: int|
                0 <= j < i ==> !(t@[j] == '/' || t@[j] == '\\' || t@[j] == ':' || t@[j] == '*' || t@[j] == '?'
                    || t@[j] == '"' || t@[j] == '<' || t@[j] == '>' || t@[j] == '|'),
        decreases t.len() - i,
    {
        let c = t[i];
        if c == '/' || c == '\\' || c == ':' || c == '*' || c == '?' || c == '"' || c == '<' || c == '>'
            || c == '|' {
            assert(t@[i as int] == c);
            return None;
        }
        i = i + 1;
    }
    let text = from_chars(t.as_slice());
    let lower = to_lowercase(text.as_str());
    let png = to_chars(".png");
    if ends_with_chars(to_chars(lower.as_str()).as_slice(), png.as_slice()) {
        Some(text)
    } else {
        Some(from_chars(concat_chars(t.as_slice(), png.as_slice()).as_slice()))
    }
}

// ---------------------------------------------------------------------
// The page's state

/// How the gallery is sorted.
#[derive(Clone, Copy, Debug, PartialEq, Eq, Structural)]
pub enum SortMode {
    Newest,
    Oldest,
    Name,
}

/// A screenshot of the gallery: its file, the copies of it found in other
/// folders, its file name, its time (seconds; 0 where unknown) and date
/// text, and whether it is a favorite.
pub struct Screenshot {
    pub path: String,
    pub duplicates: Vec<String>,
    pub file_name: String,
    pub timestamp: i64,
    pub date: String,
    pub favorite: bool,
}

/// The key a screenshot sorts by: favorites first, then newest first,
/// oldest first, or by name ignoring case.
pub open spec fn shot_key(s: Screenshot, mode: SortMode) -> KeyView {
    (
        if s.favorite { 0u8 } else { 1u8 },
        match mode {
            SortMode::Newest => (-(s.timestamp as int)) as i128,
            SortMode::Oldest => s.timestamp as i128,
            SortMode::Name => 0i128,
        },
        match mode {
            SortMode::Name => lowercase(s.file_name@),
            _ => Seq::<char>::empty(),
        },
    )
}

pub open spec fn shot_keys(shots: Seq<Screenshot>, mode: SortMode) -> Seq<KeyView> {
    shots.map_values(|s: Screenshot| shot_key(s, mode))
}

/// The screenshots the favorites filter lets through, in their order.
pub open spec fn shown_shots(shots: Seq<Screenshot>, favorites_only: bool) -> Seq<Screenshot> {
    shots.filter(|s: Screenshot| !favorites_only || s.favorite)
}

fn shot_sort_key(s: &Screenshot, mode: SortMode) -> (r: SortKey)
    ensures
        crate::ordering::key_view(r) == shot_key(*s, mode),
{
    let rank: u8 = if s.favorite { 0 } else { 1 };
    match mode {
        SortMode::Newest => SortKey { rank, number: -(s.timestamp as i128), text: Vec::new() },
        SortMode::Oldest => SortKey { rank, number: s.timestamp as i128, text: Vec::new() },
        SortMode::Name => {
            let lower = to_lowercase(s.file_name.as_str());
            SortKey { rank, number: 0, text: to_chars(lower.as_str()) }
        },
    }
}

/// The gallery's order: only favorites where the filter is on; favorites
/// first, then by the sort mode, screenshots that tie keeping the order
/// they came in.
pub fn ordered(shots: Vec<Screenshot>, sort_mode: SortMode, favorites_only: bool) -> (r: Vec<Screenshot>)
    ensures
        exists|order: Seq<usize>|
            is_stable_order(shot_keys(shown_shots(shots@, favorites_only), sort_mode), order) && r@.len()
                == order.len() && forall|k: int|
                0 <= k < order.len() ==> #[trigger] r@[k] == shown_shots(shots@, favorites_only)[order[k] as int],
{
    let ghost orig = shots@;
    let ghost keep = |s: Screenshot| !favorites_only || s.favorite;
    let mut rest = shots;
    let mut kept: Vec<Screenshot> = Vec::new();
    let n = rest.len();
    let mut taken: usize = 0;
    while taken < n
        invariant
            n == orig.len(),
            taken <= n,
            keep == (|s: Screenshot| !favorites_only || s.favorite),
            rest@ == orig.subrange(taken as int, n as int),
            kept@ == orig.subrange(0, taken as int).filter(keep),
        decreases n - taken,
    {
        proof {
            reveal(Seq::filter);
            assert(orig.subrange(0, taken + 1).drop_last() =~= orig.subrange(0, taken as int));
        }
        let s = rest.remove(0);
        assert(s == orig[taken as int]);
        if !favorites_only || s.favorite {
            kept.push(s);
        }
        taken = taken + 1;
        assert(rest@ =~= orig.subrange(taken as int, n as int));
    }
    assert(orig.subrange(0, n as int) =~= orig);
    let ghost shown = kept@;
    let mut keys: Vec<SortKey> = Vec::new();
    let mut i: usize = 0;
    while i < kept.len()
        invariant
            i <= kept@.len(),
            keys@.len() == i,
            forall|k: int| 0 <= k < i ==> #[trigger] keys_view(keys@)[k] == shot_key(kept@[k], sort_mode),
        decreases kept.len() - i,
    {
        let key = shot_sort_key(&kept[i], sort_mode);
        let ghost before = keys@;
        keys.push(key);
        assert(keys_view(keys@) =~= keys_view(before).push(crate::ordering::key_view(key)));
        i = i + 1;
    }
    assert(keys_view(keys@) =~= shot_keys(shown, sort_mode));
    let order = stable_order(&keys);
    proof {
        assert forall|a: int, b: int| 0 <= a < b < order@.len() implies #[trigger] order@[a] != #[trigger] order@[b] by {
            lemma_sorted_distinct(keys_view(keys@), order@, a, b);
        }
    }
    let r = arrange(kept, &order);
    assert(shown == shown_shots(orig, favorites_only));
    r
}

/// In a gallery order, favorites come before the rest; among screenshots
/// that are alike in that, `Newest` puts later times first and `Oldest`
/// earlier ones.
pub proof fn law_gallery_order(shots: Seq<Screenshot>, mode: SortMode, order: Seq<usize>, a: int, b: int)
    requires
        is_stable_order(shot_keys(shots, mode), order),
        0 <= a < b < order.len(),
    ensures
        shots[order[b] as int].favorite ==> shots[order[a] as int].favorite,
        shots[order[a] as int].favorite == shots[order[b] as int].favorite ==> (match mode {
            SortMode::Newest => shots[order[a] as int].timestamp >= shots[order[b] as int].timestamp,
            SortMode::Oldest => shots[order[a] as int].timestamp <= shots[order[b] as int].timestamp,
            SortMode::Name => true,
        }),
{
    let keys = shot_keys(shots, mode);
    let i = order[a] as int;
    let j = order[b] as int;
    assert(order[a] < keys.len() && order[b] < keys.len());
    assert(crate::ordering::precedes(keys, i, j));
    assert(keys[i] == shot_key(shots[i], mode));
    assert(keys[j] == shot_key(shots[j], mode));
}

/// The sort mode behind the sort combo box's index.
pub fn sort_mode_of(index: i32) -> (r: SortMode)
    requires
        0 <= index <= 2,
    ensures
        r == (if index == 0 {
            SortMode::Newest
        } else if index == 1 {
            SortMode::Oldest
        } else {
            SortMode::Name
        }),
{
    if index == 0 {
        SortMode::Newest
    } else if index == 1 {
        SortMode::Oldest
    } else {
        SortMode::Name
    }
}

/// The question asked before deleting screenshots: the one file by name,
/// or how many.
pub open spec fn spec_delete_message(names: Seq<Seq<char>>) -> Seq<char> {
    if names.len() == 1 {
        "\""@ + names[0] + "\" will be permanently deleted. This cannot be undone."@
    } else {
        decimal(names.len()) + " screenshots will be permanently deleted. This cannot be undone."@
    }
}

pub fn delete_message(names: &Vec<String>) -> (r: String)
    ensures
        r@ == spec_delete_message(crate::text::strings_view(names@)),
{
    if names.len() == 1 {
        assert(crate::text::strings_view(names@)[0] == names@[0]@);
        let a = to_chars("\"");
        let b = to_chars(names[0].as_str());
        let c = to_chars("\" will be permanently deleted. This cannot be undone.");
        from_chars(concat_chars(concat_chars(a.as_slice(), b.as_slice()).as_slice(), c.as_slice()).as_slice())
    } else {
        let n = decimal_chars(names.len());
        let c = to_chars(" screenshots will be permanently deleted. This cannot be undone.");
        from_chars(concat_chars(n.as_slice(), c.as_slice()).as_slice())
    }
}

/// The gallery's state: the shown screenshots in order, the selected ones,
/// the ones waiting for the delete confirmation, and the sort and filter.
pub struct ScreenshotHandler {
    displayed: Vec<String>,
    selected: IdSet,
    pending_delete: Vec<String>,
    sort_mode: SortMode,
    favorites_only: bool,
    copy_generation: u64,
}

/// How a copy to the clipboard ended.
#[derive(Clone, Copy, Debug, PartialEq, Eq, Structural)]
pub enum CopyState {
    Copied,
    Failed,
}

impl ScreenshotHandler {
    pub closed spec fn shown(&self) -> Seq<Seq<char>> {
        crate::text::strings_view(self.displayed@)
    }

    pub closed spec fn selected_set(&self) -> Set<Seq<char>> {
        self.selected.view()
    }

    pub closed spec fn pending(&self) -> Seq<Seq<char>> {
        crate::text::strings_view(self.pending_delete@)
    }

    pub closed spec fn sort(&self) -> SortMode {
        self.sort_mode
    }

    pub closed spec fn only_favorites(&self) -> bool {
        self.favorites_only
    }

    /// The number of the latest copy to the clipboard.
    pub closed spec fn copy_number(&self) -> u64 {
        self.copy_generation
    }

    /// Nothing shown, selected or pending; newest first, every screenshot.
    pub fn new() -> (r: Self)
        ensures
            r.shown().len() == 0,
            r.selected_set() == Set::<Seq<char>>::empty(),
            r.pending().len() == 0,
            r.sort() == SortMode::Newest,
            !r.only_favorites(),
            r.copy_number() == 0,
    {
        ScreenshotHandler {
            displayed: Vec::new(),
            selected: IdSet::new(),
            pending_delete: Vec::new(),
            sort_mode: SortMode::Newest,
            favorites_only: false,
            copy_generation: 0,
        }
    }

    /// A copy to the clipboard starts; it gets the next number, and only
    /// the latest copy reports how it ended.
    pub fn begin_copy(&mut self) -> (r: u64)
        requires
            old(self).copy_number() < u64::MAX,
        ensures
            r == old(self).copy_number() + 1,
            final(self).copy_number() == r,
            final(self).shown() == old(self).shown(),
            final(self).selected_set() == old(self).selected_set(),
            final(self).pending() == old(self).pending(),
    {
        self.copy_generation = self.copy_generation + 1;
        self.copy_generation
    }

    /// What a finished copy shows: nothing where a later copy started.
    pub fn copy_report(&self, number: u64, copied: bool) -> (r: Option<CopyState>)
        ensures
            r == (if number == self.copy_number() {
                Some(if copied { CopyState::Copied } else { CopyState::Failed })
            } else {
                None
            }),
    {
        if number != self.copy_generation {
            None
        } else if copied {
            Some(CopyState::Copied)
        } else {
            Some(CopyState::Failed)
        }
    }

    /// A reload shows these screenshots; selected ones no longer shown
    /// are unselected.
    pub fn show(&mut self, paths: Vec<String>)
        ensures
            final(self).shown() == crate::text::strings_view(paths@),
            final(self).selected_set() == old(self).selected_set().intersect(
                crate::text::strings_view(paths@).to_set(),
            ),
            final(self).pending() == old(self).pending(),
            final(self).sort() == old(self).sort(),
            final(self).only_favorites() == old(self).only_favorites(),
    {
        let mut kept = IdSet::new();
        let mut i: usize = 0;
        let ghost sel = self.selected.view();
        let ghost pv = crate::text::strings_view(paths@);
        while i < paths.len()
            invariant
                i <= paths@.len(),
                pv == crate::text::strings_view(paths@),
                sel == self.selected.view(),
                kept.view() == sel.intersect(pv.subrange(0, i as int).to_set()),
            decreases paths.len() - i,
        {
            let ghost before = pv.subrange(0, i as int);
            let ghost after = pv.subrange(0, i + 1);
            assert(after =~= before.push(pv[i as int]));
            assert(after.to_set() =~= before.to_set().insert(pv[i as int])) by {
                assert forall|x: Seq<char>| #[trigger] after.to_set().contains(x) <==> before.to_set().insert(
                    pv[i as int],
                ).contains(x) by {
                    if after.contains(x) {
                        let t = choose|t: int| 0 <= t < after.len() && after[t] == x;
                        if t < before.len() {
                            assert(before[t] == x);
                        }
                    }
                    if before.contains(x) {
                        let t = choose|t: int| 0 <= t < before.len() && before[t] == x;
                        assert(after[t] == x);
                    }
                    if x == pv[i as int] {
                        assert(after[i as int] == x);
                    }
                }
            }
            assert(pv[i as int] == paths@[i as int]@);
            if self.selected.contains(paths[i].as_str()) {
                kept.insert(paths[i].as_str());
            }
            assert(kept.view() =~= sel.intersect(after.to_set()));
            i = i + 1;
        }
        assert(pv.subrange(0, pv.len() as int) =~= pv);
        self.selected = kept;
        self.displayed = paths;
    }

    /// The screenshot at a position of the gallery.
    pub fn path_at(&self, index: i32) -> (r: Option<String>)
        ensures
            match r {
                Some(p) => 0 <= index < self.shown().len() && p@ == self.shown()[index as int],
                None => !(0 <= index < self.shown().len()),
            },
    {
        if index < 0 {
            return None;
        }
        let i = index as usize;
        if i >= self.displayed.len() {
            return None;
        }
        Some(owned(self.displayed[i].as_str()))
    }

    /// Selects the screenshot at a position, or unselects it. Returns
    /// whether it is selected now and how many are, or `None` for a
    /// position outside the gallery.
    pub fn toggle_select(&mut self, index: i32) -> (r: Option<(bool, usize)>)
        ensures
            !(0 <= index < old(self).shown().len()) ==> r is None && final(self).selected_set() == old(
                self,
            ).selected_set(),
            0 <= index < old(self).shown().len() ==> {
                let p = old(self).shown()[index as int];
                &&& r matches Some(x) && x.0 == !old(self).selected_set().contains(p)
                    && x.1 == final(self).selected_set().len()
                &&& final(self).selected_set() == (if old(self).selected_set().contains(p) {
                    old(self).selected_set().remove(p)
                } else {
                    old(self).selected_set().insert(p)
                })
            },
            final(self).shown() == old(self).shown(),
            final(self).pending() == old(self).pending(),
    {
        let path = match self.path_at(index) {
            Some(p) => p,
            None => return None,
        };
        let now = self.selected.toggle(path.as_str());
        Some((now, self.selected.len()))
    }

    /// Unselects everything.
    pub fn clear_selection(&mut self)
        ensures
            final(self).selected_set() == Set::<Seq<char>>::empty(),
            final(self).shown() == old(self).shown(),
            final(self).pending() == old(self).pending(),
    {
        self.selected.clear();
    }

    /// The selected screenshots in gallery order.
    pub fn selected_paths(&self) -> (r: Vec<String>)
        ensures
            crate::text::strings_view(r@) == self.shown().filter(|p: Seq<char>| self.selected_set().contains(p)),
    {
        let ghost keep = |p: Seq<char>| self.selected_set().contains(p);
        let ghost sv = self.shown();
        let mut out: Vec<String> = Vec::new();
        let mut i: usize = 0;
        while i < self.displayed.len()
            invariant
                i <= self.displayed@.len(),
                sv == self.shown(),
                keep == (|p: Seq<char>| self.selected_set().contains(p)),
                crate::text::strings_view(out@) == sv.subrange(0, i as int).filter(keep),
            decreases self.displayed.len() - i,
        {
            proof {
                reveal(Seq::filter);
                assert(sv.subrange(0, i + 1).drop_last() =~= sv.subrange(0, i as int));
                assert(sv.subrange(0, i + 1).last() == self.displayed@[i as int]@);
            }
            if self.selected.contains(self.displayed[i].as_str()) {
                let ghost before = crate::text::strings_view(out@);
                out.push(owned(self.displayed[i].as_str()));
                assert(crate::text::strings_view(out@) =~= before.push(self.displayed@[i as int]@));
            }
            i = i + 1;
        }
        assert(sv.subrange(0, sv.len() as int) =~= sv);
        out
    }

    /// Asks to delete screenshots: they wait for the confirmation and the
    /// question is returned, or, for none, nothing waits and nothing is
    /// asked.
    pub fn request_delete(&mut self, paths: Vec<String>, names: &Vec<String>) -> (r: Option<String>)
        ensures
            paths@.len() == 0 ==> r is None && final(self).pending().len() == 0,
            paths@.len() > 0 ==> (r matches Some(m) && m@ == spec_delete_message(crate::text::strings_view(names@))
                && final(self).pending() == crate::text::strings_view(paths@)),
            final(self).shown() == old(self).shown(),
            final(self).selected_set() == old(self).selected_set(),
    {
        if paths.len() == 0 {
            self.pending_delete = Vec::new();
            return None;
        }
        let m = delete_message(names);
        self.pending_delete = paths;
        Some(m)
    }

    /// The delete question was answered no: nothing waits any more.
    pub fn cancel_delete(&mut self)
        ensures
            final(self).pending().len() == 0,
            final(self).shown() == old(self).shown(),
            final(self).selected_set() == old(self).selected_set(),
    {
        self.pending_delete = Vec::new();
    }

    /// The delete question was answered yes: what waited is handed out and
    /// nothing waits any more.
    pub fn confirm_delete(&mut self) -> (r: Vec<String>)
        ensures
            crate::text::strings_view(r@) == old(self).pending(),
            final(self).pending().len() == 0,
            final(self).shown() == old(self).shown(),
    {
        let mut taken = Vec::new();
        std::mem::swap(&mut taken, &mut self.pending_delete);
        taken
    }

    /// The deleted screenshots are no longer selected.
    pub fn forget(&mut self, paths: &Vec<String>)
        ensures
            final(self).selected_set() == old(self).selected_set().difference(crate::text::strings_view(paths@).to_set()),
            final(self).shown() == old(self).shown(),
            final(self).pending() == old(self).pending(),
    {
        let ghost start = self.selected.view();
        let ghost pv = crate::text::strings_view(paths@);
        let mut i: usize = 0;
        while i < paths.len()
            invariant
                i <= paths@.len(),
                pv == crate::text::strings_view(paths@),
                self.selected.view() == start.difference(pv.subrange(0, i as int).to_set()),
                self.displayed@ == old(self).displayed@,
                self.pending_delete@ == old(self).pending_delete@,
            decreases paths.len() - i,
        {
            let ghost before = pv.subrange(0, i as int);
            let ghost after = pv.subrange(0, i + 1);
            assert(after =~= before.push(pv[i as int]));
            assert(after.to_set() =~= before.to_set().insert(pv[i as int])) by {
                assert forall|x: Seq<char>| #[trigger] after.to_set().contains(x) <==> before.to_set().insert(
                    pv[i as int],
                ).contains(x) by {
                    if after.contains(x) {
                        let t = choose|t: int| 0 <= t < after.len() && after[t] == x;
                        if t < before.len() {
                            assert(before[t] == x);
                        }
                    }
                    if before.contains(x) {
                        let t = choose|t: int| 0 <= t < before.len() && before[t] == x;
                        assert(after[t] == x);
                    }
                    if x == pv[i as int] {
                        assert(after[i as int] == x);
                    }
                }
            }
            assert(pv[i as int] == paths@[i as int]@);
            self.selected.remove(paths[i].as_str());
            assert(self.selected.view() =~= start.difference(after.to_set()));
            i = i + 1;
        }
        assert(pv.subrange(0, pv.len() as int) =~= pv);
    }

    /// The sort mode chosen.
    pub fn set_sort_mode(&mut self, mode: SortMode)
        ensures
            final(self).sort() == mode,
            final(self).shown() == old(self).shown(),
            final(self).selected_set() == old(self).selected_set(),
    {
        self.sort_mode = mode;
    }

    /// The favorites filter switched.
    pub fn set_favorites_only(&mut self, enabled: bool)
        ensures
            final(self).only_favorites() == enabled,
            final(self).shown() == old(self).shown(),
            final(self).selected_set() == old(self).selected_set(),
    {
        self.favorites_only = enabled;
    }

    /// The sort and filter a reload applies.
    pub fn ordering(&self) -> (r: (SortMode, bool))
        ensures
            r == (self.sort(), self.only_favorites()),
    {
        (self.sort_mode, self.favorites_only)
    }
}

} // verus!
