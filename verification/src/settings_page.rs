//! The settings page's choices: the language list that the language combo
//! box indexes, and which Proton build the Proton combo box shows.
use vstd::prelude::*;
use crate::text::{eq_chars, from_chars, split_on, split_on_exec, to_chars, trim, trim_chars, TrimSet};

verus! {

/// A language the UI is translated into: its name and its code.
pub struct Language {
    pub name: String,
    pub code: String,
}

/// The settings page, with the list of languages its combo box shows.
pub struct SettingsHandler {
    pub languages: Vec<Language>,
}

pub open spec fn codes(ls: Seq<Language>) -> Seq<Seq<char>> {
    ls.map_values(|l: Language| l.code@)
}

/// The code behind a combo box index; a negative index reads as the first
/// language, and an index past the list as English.
pub open spec fn spec_index_to_code(ls: Seq<Seq<char>>, index: i32) -> Seq<char> {
    let i: int = if index < 0 { 0 } else { index as int };
    if i < ls.len() {
        ls[i]
    } else {
        "en"@
    }
}

/// The first position of a code in the list.
pub open spec fn first_position(ls: Seq<Seq<char>>, code: Seq<char>) -> Option<int>
    decreases ls.len(),
{
    if ls.len() == 0 {
        None
    } else if ls[0] == code {
        Some(0)
    } else {
        match first_position(ls.drop_first(), code) {
            Some(i) => Some(i + 1),
            None => None,
        }
    }
}

pub proof fn lemma_first_position(ls: Seq<Seq<char>>, code: Seq<char>)
    ensures
        first_position(ls, code) matches Some(i) ==> 0 <= i < ls.len() && ls[i] == code && forall|
            j: int,
        | 0 <= j < i ==> #[trigger] ls[j] != code,
        first_position(ls, code) is None ==> forall|j: int| 0 <= j < ls.len() ==> #[trigger] ls[j] != code,
    decreases ls.len(),
{
    if ls.len() > 0 && ls[0] != code {
        let rest = ls.drop_first();
        lemma_first_position(rest, code);
        assert forall|j: int| 1 <= j < ls.len() implies ls[j] == #[trigger] rest[j - 1] by {}
        if let Some(i) = first_position(rest, code) {
            assert forall|j: int| 0 <= j < i + 1 implies #[trigger] ls[j] != code by {
                if j > 0 {
                    assert(ls[j] == rest[j - 1]);
                }
            }
        } else {
            assert forall|j: int| 0 <= j < ls.len() implies #[trigger] ls[j] != code by {
                if j > 0 {
                    assert(ls[j] == rest[j - 1]);
                }
            }
        }
    }
}

/// The combo box index of a code: its first position (0 where that does
/// not fit an `i32`), or `None` for a code the list lacks.
pub open spec fn spec_code_to_index(ls: Seq<Seq<char>>, code: Seq<char>) -> Option<i32> {
    match first_position(ls, code) {
        Some(i) => Some(if i <= i32::MAX { i as i32 } else { 0 }),
        None => None,
    }
}

fn same_text(a: &str, b: &str) -> (r: bool)
    ensures
        r == (a@ == b@),
{
    let x = to_chars(a);
    let y = to_chars(b);
    eq_chars(x.as_slice(), y.as_slice())
}

impl SettingsHandler {
    pub fn new(languages: Vec<Language>) -> (r: Self)
        ensures
            r.languages@ == languages@,
    {
        SettingsHandler { languages }
    }

    /// The language code behind a combo box index.
    pub fn index_to_code(&self, index: i32) -> (r: String)
        ensures
            r@ == spec_index_to_code(codes(self.languages@), index),
    {
        let i: usize = if index < 0 { 0 } else { index as usize };
        if i < self.languages.len() {
            from_chars(to_chars(self.languages[i].code.as_str()).as_slice())
        } else {
            from_chars(to_chars("en").as_slice())
        }
    }

    /// The combo box index of a language code.
    pub fn code_to_index(&self, code: &str) -> (r: Option<i32>)
        ensures
            r == spec_code_to_index(codes(self.languages@), code@),
    {
        let ghost ls = codes(self.languages@);
        proof {
            lemma_first_position(ls, code@);
        }
        let mut i: usize = 0;
        while i < self.languages.len()
            invariant
                i <= self.languages@.len(),
                ls == codes(self.languages@),
                forall|j: int| 0 <= j < i ==> #[trigger] ls[j] != code@,
                first_position(ls, code@) matches Some(f) ==> 0 <= f < ls.len() && ls[f] == code@
                    && forall|j: int| 0 <= j < f ==> #[trigger] ls[j] != code@,
                first_position(ls, code@) is None ==> forall|j: int|
                    0 <= j < ls.len() ==> #[trigger] ls[j] != code@,
            decreases self.languages.len() - i,
        {
            assert(ls[i as int] == self.languages@[i as int].code@);
            if same_text(self.languages[i].code.as_str(), code) {
                assert(first_position(ls, code@) == Some(i as int)) by {
                    match first_position(ls, code@) {
                        Some(f) => {
                            if f < i {
                                assert(ls[f] != code@);
                            } else if f > i {
                                assert(ls[i as int] != code@);
                            }
                        },
                        None => {
                            assert(ls[i as int] != code@);
                        },
                    }
                }
                return Some(if i <= i32::MAX as usize { i as i32 } else { 0 });
            }
            i = i + 1;
        }
        assert(first_position(ls, code@) is None) by {
            if let Some(f) = first_position(ls, code@) {
                assert(ls[f] != code@);
            }
        }
        None
    }
}

/// Reading back the index of a listed code gives the code again, for a
/// list of codes that appear once each.
pub proof fn law_code_index_round_trip(ls: Seq<Seq<char>>, code: Seq<char>)
    requires
        ls.len() <= i32::MAX,
        first_position(ls, code) is Some,
    ensures
        spec_code_to_index(ls, code) matches Some(i) && spec_index_to_code(ls, i) == code,
{
    lemma_first_position(ls, code);
}

/// Which entry the Proton combo box shows: 0 is Automatic, then the
/// installed builds, then the installations added by hand. The selected
/// installation and the saved build are read trimmed; one that is gone
/// shows Automatic.
pub open spec fn spec_proton_index(
    builds: Seq<Seq<char>>,
    customs: Seq<Seq<char>>,
    raw_custom: Seq<char>,
    raw_saved: Seq<char>,
) -> int {
    let selected_custom = trim(raw_custom, TrimSet::Whitespace);
    let saved = trim(raw_saved, TrimSet::Whitespace);
    if selected_custom.len() > 0 {
        match first_position(customs, selected_custom) {
            Some(i) => builds.len() + 1 + i,
            None => 0,
        }
    } else if saved.len() == 0 {
        0
    } else {
        match first_position(builds, saved) {
            Some(i) => i + 1,
            None => 0,
        }
    }
}

fn position(v: &Vec<String>, s: &str) -> (r: Option<usize>)
    ensures
        match r {
            Some(i) => first_position(v@.map_values(|x: String| x@), s@) == Some(i as int),
            None => first_position(v@.map_values(|x: String| x@), s@) is None,
        },
        r matches Some(i) ==> i < v@.len(),
{
    let ghost ls = v@.map_values(|x: String| x@);
    proof {
        lemma_first_position(ls, s@);
    }
    let mut i: usize = 0;
    while i < v.len()
        invariant
            i <= v@.len(),
            ls == v@.map_values(|x: String| x@),
            forall|j: int| 0 <= j < i ==> #[trigger] ls[j] != s@,
            first_position(ls, s@) matches Some(f) ==> 0 <= f < ls.len() && ls[f] == s@ && forall|
                j: int,
            | 0 <= j < f ==> #[trigger] ls[j] != s@,
            first_position(ls, s@) is None ==> forall|j: int| 0 <= j < ls.len() ==> #[trigger] ls[j] != s@,
        decreases v.len() - i,
    {
        assert(ls[i as int] == v@[i as int]@);
        if same_text(v[i].as_str(), s) {
            assert(first_position(ls, s@) == Some(i as int)) by {
                match first_position(ls, s@) {
                    Some(f) => {
                        if f < i {
                            assert(ls[f] != s@);
                        } else if f > i {
                            assert(ls[i as int] != s@);
                        }
                    },
                    None => {
                        assert(ls[i as int] != s@);
                    },
                }
            }
            return Some(i);
        }
        i = i + 1;
    }
    assert(first_position(ls, s@) is None) by {
        if let Some(f) = first_position(ls, s@) {
            assert(ls[f] != s@);
        }
    }
    None
}

/// The Proton combo box index to show for what the settings hold.
pub fn proton_index(builds: &Vec<String>, customs: &Vec<String>, selected_custom: &str, saved: &str) -> (r:
    usize)
    requires
        builds@.len() + customs@.len() + 1 <= usize::MAX,
    ensures
        r == spec_proton_index(
            builds@.map_values(|x: String| x@),
            customs@.map_values(|x: String| x@),
            selected_custom@,
            saved@,
        ),
{
    let custom = trim_chars(to_chars(selected_custom).as_slice(), TrimSet::Whitespace);
    let wanted = trim_chars(to_chars(saved).as_slice(), TrimSet::Whitespace);
    if custom.len() > 0 {
        match position(customs, from_chars(custom.as_slice()).as_str()) {
            Some(i) => builds.len() + 1 + i,
            None => 0,
        }
    } else if wanted.len() == 0 {
        0
    } else {
        match position(builds, from_chars(wanted.as_slice()).as_str()) {
            Some(i) => i + 1,
            None => 0,
        }
    }
}

/// The last piece of a path that names something: empty pieces (from
/// doubled or trailing slashes) and `.` pieces are passed over.
pub open spec fn last_named(pieces: Seq<Seq<char>>) -> Option<Seq<char>>
    decreases pieces.len(),
{
    if pieces.len() == 0 {
        None
    } else if pieces.last().len() == 0 || pieces.last() == "."@ {
        last_named(pieces.drop_last())
    } else {
        Some(pieces.last())
    }
}

/// `Path::file_name` of a Unix path: its last component, unless that is
/// `..` or there is none (an empty path, `/` or `.`).
pub open spec fn unix_file_name(path: Seq<char>) -> Option<Seq<char>> {
    match last_named(split_on(path, '/')) {
        Some(n) => if n == ".."@ {
            None
        } else {
            Some(n)
        },
        None => None,
    }
}

/// The name a Proton installation added by hand is listed under: its
/// folder's name, or the whole path where it has none.
pub open spec fn spec_proton_build_name(dir: Seq<char>) -> Seq<char> {
    match unix_file_name(dir) {
        Some(n) => n,
        None => dir,
    }
}

/// What choosing an entry of the Proton combo box saves: the installation
/// added by hand (empty for none), the build (empty for Automatic or an
/// installation added by hand), and the name of the chosen entry (empty
/// for Automatic).
pub struct ProtonChoice {
    pub custom_path: String,
    pub version: String,
    pub shown_name: String,
}

impl SettingsHandler {
    /// The name a Proton installation added by hand is listed under.
    pub fn proton_build_name(dir: &str) -> (r: String)
        ensures
            r@ == spec_proton_build_name(dir@),
    {
        let chars = to_chars(dir);
        let pieces = split_on_exec(chars.as_slice(), '/');
        let ghost pv = pieces@.map_values(|v: Vec<char>| v@);
        let dot = to_chars(".");
        let dots = to_chars("..");
        let mut j = pieces.len();
        assert(pv.subrange(0, j as int) =~= pv);
        while j > 0
            invariant
                j <= pieces@.len(),
                pv == pieces@.map_values(|v: Vec<char>| v@),
                pv == split_on(dir@, '/'),
                chars@ == dir@,
                dot@ == "."@,
                dots@ == ".."@,
                last_named(pv) == last_named(pv.subrange(0, j as int)),
            decreases j,
        {
            let ghost sub = pv.subrange(0, j as int);
            assert(sub.drop_last() =~= pv.subrange(0, j - 1));
            assert(sub.last() == pieces@[j - 1]@);
            let piece = pieces[j - 1].as_slice();
            if piece.len() > 0 && !eq_chars(piece, dot.as_slice()) {
                assert(last_named(pv) == Some(piece@));
                if eq_chars(piece, dots.as_slice()) {
                    assert(unix_file_name(dir@) is None);
                    return from_chars(chars.as_slice());
                }
                return from_chars(piece);
            }
            j = j - 1;
        }
        from_chars(chars.as_slice())
    }

    /// The names the Proton combo box lists after Automatic: the installed
    /// builds, then the installations added by hand.
    pub fn proton_names(builds: &Vec<String>, customs: &Vec<String>) -> (r: Vec<String>)
        ensures
            crate::text::strings_view(r@) == crate::text::strings_view(builds@) + customs@.map_values(
                |c: String| spec_proton_build_name(c@),
            ),
    {
        let mut out: Vec<String> = Vec::new();
        let mut i: usize = 0;
        while i < builds.len()
            invariant
                i <= builds@.len(),
                crate::text::strings_view(out@) == crate::text::strings_view(builds@.subrange(0, i as int)),
            decreases builds.len() - i,
        {
            let ghost before = crate::text::strings_view(out@);
            out.push(from_chars(to_chars(builds[i].as_str()).as_slice()));
            assert(crate::text::strings_view(builds@.subrange(0, i + 1)) =~= before.push(builds@[i as int]@));
            assert(crate::text::strings_view(out@) =~= before.push(builds@[i as int]@));
            i = i + 1;
        }
        assert(builds@.subrange(0, builds@.len() as int) =~= builds@);
        let mut k: usize = 0;
        while k < customs.len()
            invariant
                k <= customs@.len(),
                crate::text::strings_view(out@) == crate::text::strings_view(builds@) + customs@.subrange(
                    0,
                    k as int,
                ).map_values(|c: String| spec_proton_build_name(c@)),
            decreases customs.len() - k,
        {
            let ghost before = crate::text::strings_view(out@);
            out.push(Self::proton_build_name(customs[k].as_str()));
            assert(customs@.subrange(0, k + 1).map_values(|c: String| spec_proton_build_name(c@)) =~= customs@.subrange(
                0,
                k as int,
            ).map_values(|c: String| spec_proton_build_name(c@)).push(spec_proton_build_name(customs@[k as int]@)));
            assert(crate::text::strings_view(out@) =~= before.push(spec_proton_build_name(customs@[k as int]@)));
            k = k + 1;
        }
        assert(customs@.subrange(0, customs@.len() as int) =~= customs@);
        out
    }

    /// What choosing entry `index` of the Proton combo box saves, where
    /// `names` are the entries after Automatic and the first
    /// `builtin_count` entries (Automatic included) are not added by hand:
    /// an entry at or past `builtin_count` selects the installation added
    /// by hand at that offset; any other selects its build.
    pub fn proton_choice(index: i32, names: &Vec<String>, builtin_count: i32, customs: &Vec<String>) -> (r:
        ProtonChoice)
        requires
            i32::MIN <= index - builtin_count <= i32::MAX,
        ensures
            r.shown_name@ == (if 0 < index && index - 1 < names@.len() {
                names@[index - 1]@
            } else {
                Seq::<char>::empty()
            }),
            index - builtin_count >= 0 ==> r.version@ == Seq::<char>::empty() && r.custom_path@ == (if index
                - builtin_count < customs@.len() {
                customs@[index - builtin_count]@
            } else {
                Seq::<char>::empty()
            }),
            index - builtin_count < 0 ==> r.custom_path@ == Seq::<char>::empty() && r.version@ == r.shown_name@,
    {
        let name = if index > 0 && ((index - 1) as usize) < names.len() {
            from_chars(to_chars(names[(index - 1) as usize].as_str()).as_slice())
        } else {
            String::new()
        };
        let offset = index - builtin_count;
        if offset >= 0 {
            let path = if (offset as usize) < customs.len() {
                from_chars(to_chars(customs[offset as usize].as_str()).as_slice())
            } else {
                String::new()
            };
            ProtonChoice { custom_path: path, version: String::new(), shown_name: name }
        } else {
            let version = from_chars(to_chars(name.as_str()).as_slice());
            ProtonChoice { custom_path: String::new(), version, shown_name: name }
        }
    }

    /// Removing entry `index` of the Proton combo box: the offset of the
    /// installation added by hand that goes, and whether it was the
    /// selected one, so that the selection falls back to Automatic; nothing
    /// for an entry that was not added by hand.
    pub fn proton_removal(index: i32, builtin_count: i32, customs: &Vec<String>, selected_custom: &str) -> (r:
        Option<(usize, bool)>)
        requires
            i32::MIN <= index - builtin_count <= i32::MAX,
        ensures
            (0 <= index - builtin_count < customs@.len()) ==> r == Some(
                ((index - builtin_count) as usize, customs@[index - builtin_count]@ == selected_custom@),
            ),
            !(0 <= index - builtin_count < customs@.len()) ==> r is None,
    {
        let offset = index - builtin_count;
        if offset >= 0 && (offset as usize) < customs.len() {
            let k = offset as usize;
            Some((k, same_text(customs[k].as_str(), selected_custom)))
        } else {
            None
        }
    }
}

} // verus!
