//! The Lua script manager's bookkeeping: the UE4SS mod lists `mods.json`
//! and `mods.txt`, the debug console switch in `UE4SS-settings.ini`, and the
//! names that scripts may take.
use vstd::prelude::*;
use crate::text::{
    concat_chars, contains_seq, ends_with_chars, eq_chars, eq_ignore_ascii_case,
    eq_ignore_ascii_case_chars, find_chars, from_chars, is_whitespace, is_ws, lines, lines_exec,
    split_once, split_once_chars, starts_with_chars, to_chars, trim, trim_chars, TrimSet,
    join_lines_crlf, lemma_index_of_char_at, lemma_lines_of_crlf_join, trim_end, trim_start,
    join_terminated, lemma_index_of_char, lemma_lines_free, lemma_lines_of_terminated,
    lemma_trim_ends, lemma_trim_keeps_absent, lemma_trim_noop, lemma_trim_strip_cr, no_newline,
};

verus! {

/// The script names that UE4SS keeps for itself.
pub open spec fn blocklist() -> Seq<Seq<char>> {
    seq!["shared"@, "keybinds"@]
}

pub open spec fn spec_is_blocklisted(name: Seq<char>) -> bool {
    eq_ignore_ascii_case(blocklist()[0], name) || eq_ignore_ascii_case(blocklist()[1], name)
}

/// Whether `name` is one that UE4SS keeps for itself, in any case.
pub fn is_blocklisted_name(name: &str) -> (r: bool)
    ensures
        r == spec_is_blocklisted(name@),
{
    let chars = to_chars(name);
    is_blocklisted_chars(chars.as_slice())
}

fn is_blocklisted_chars(name: &[char]) -> (r: bool)
    ensures
        r == spec_is_blocklisted(name@),
{
    let shared = to_chars("shared");
    let keybinds = to_chars("keybinds");
    eq_ignore_ascii_case_chars(shared.as_slice(), name) || eq_ignore_ascii_case_chars(
        keybinds.as_slice(),
        name,
    )
}

/// `s` without any whitespace.
pub open spec fn strip_ws(s: Seq<char>) -> Seq<char>
    decreases s.len(),
{
    if s.len() == 0 {
        seq![]
    } else if is_ws(s.last()) {
        strip_ws(s.drop_last())
    } else {
        strip_ws(s.drop_last()).push(s.last())
    }
}

fn strip_ws_chars(s: &[char]) -> (r: Vec<char>)
    ensures
        r@ == strip_ws(s@),
{
    let mut out: Vec<char> = Vec::new();
    let mut i: usize = 0;
    while i < s.len()
        invariant
            i <= s@.len(),
            out@ == strip_ws(s@.subrange(0, i as int)),
        decreases s.len() - i,
    {
        assert(s@.subrange(0, i + 1).drop_last() =~= s@.subrange(0, i as int));
        if !is_whitespace(s[i]) {
            out.push(s[i]);
        }
        i = i + 1;
    }
    assert(s@.subrange(0, s@.len() as int) =~= s@);
    out
}

/// The name under which UE4SS lists a script: the script's name without
/// whitespace.
pub fn sanitize_mod_config_name(name: &str) -> (r: String)
    ensures
        r@ == strip_ws(name@),
{
    let chars = to_chars(name);
    from_chars(strip_ws_chars(chars.as_slice()).as_slice())
}

/// One entry of `mods.json`.
pub struct ModJsonEntry {
    pub mod_name: String,
    pub mod_enabled: bool,
}

/// One line of `mods.txt`: a name and whether it is on.
pub struct TxtEntry {
    pub name: String,
    pub enabled: bool,
}

pub open spec fn json_view(e: ModJsonEntry) -> (Seq<char>, bool) {
    (e.mod_name@, e.mod_enabled)
}

pub open spec fn txt_view(e: TxtEntry) -> (Seq<char>, bool) {
    (e.name@, e.enabled)
}

pub open spec fn json_list(v: Seq<ModJsonEntry>) -> Seq<(Seq<char>, bool)> {
    v.map_values(|e: ModJsonEntry| json_view(e))
}

pub open spec fn txt_list(v: Seq<TxtEntry>) -> Seq<(Seq<char>, bool)> {
    v.map_values(|e: TxtEntry| txt_view(e))
}

/// The entries whose name is not `name`, in order.
pub open spec fn without(v: Seq<(Seq<char>, bool)>, name: Seq<char>) -> Seq<(Seq<char>, bool)>
    decreases v.len(),
{
    if v.len() == 0 {
        seq![]
    } else if v.last().0 == name {
        without(v.drop_last(), name)
    } else {
        without(v.drop_last(), name).push(v.last())
    }
}

/// Every entry named `old` renamed to `new`.
pub open spec fn renamed(v: Seq<(Seq<char>, bool)>, old: Seq<char>, new: Seq<char>) -> Seq<
    (Seq<char>, bool),
> {
    v.map_values(
        |e: (Seq<char>, bool)|
            if e.0 == old {
                (new, e.1)
            } else {
                e
            },
    )
}

/// The first entry named `name`, if any.
pub open spec fn first_named(v: Seq<(Seq<char>, bool)>, name: Seq<char>) -> Option<int>
    decreases v.len(),
{
    if v.len() == 0 {
        None
    } else {
        match first_named(v.drop_last(), name) {
            Some(i) => Some(i),
            None => if v.last().0 == name {
                Some(v.len() - 1)
            } else {
                None
            },
        }
    }
}

/// The entries with the first one named `name` switched to `enabled`, or,
/// when none is, with a new entry added by `add`.
pub open spec fn switched(
    v: Seq<(Seq<char>, bool)>,
    name: Seq<char>,
    enabled: bool,
    at_front: bool,
) -> Seq<(Seq<char>, bool)> {
    match first_named(v, name) {
        Some(i) => v.update(i, (name, enabled)),
        None => if at_front {
            seq![(name, enabled)] + v
        } else {
            v.push((name, enabled))
        },
    }
}

pub proof fn lemma_first_named(v: Seq<(Seq<char>, bool)>, name: Seq<char>)
    ensures
        first_named(v, name) matches Some(i) ==> 0 <= i < v.len() && v[i].0 == name && forall|k: int|
            0 <= k < i ==> v[k].0 != name,
        first_named(v, name) is None ==> forall|k: int| 0 <= k < v.len() ==> v[k].0 != name,
    decreases v.len(),
{
    if v.len() > 0 {
        lemma_first_named(v.drop_last(), name);
        assert forall|k: int| 0 <= k < v.len() - 1 implies v.drop_last()[k] == v[k] by {}
    }
}

/// Switching a script that a list already holds changes only the flag of
/// its first entry: the list keeps its length, that entry becomes
/// `(name, enabled)`, and every other entry, of this script or another,
/// stays as it was and where it was. A script the list does not hold is
/// added, in front of the list (`at_front`) or after it, and nothing else
/// changes.
pub proof fn law_switch_touches_only_first_entry(
    v: Seq<(Seq<char>, bool)>,
    name: Seq<char>,
    enabled: bool,
    at_front: bool,
)
    ensures
        (exists|k: int| 0 <= k < v.len() && #[trigger] v[k].0 == name) ==> ({
            let r = switched(v, name, enabled, at_front);
            &&& r.len() == v.len()
            &&& exists|i: int| {
                &&& 0 <= i < v.len()
                &&& v[i].0 == name
                &&& (forall|k: int| 0 <= k < i ==> #[trigger] v[k].0 != name)
                &&& r[i] == (name, enabled)
                &&& forall|k: int| 0 <= k < v.len() && k != i ==> #[trigger] r[k] == v[k]
            }
        }),
        (forall|k: int| 0 <= k < v.len() ==> #[trigger] v[k].0 != name) ==> ({
            let r = switched(v, name, enabled, at_front);
            &&& r.len() == v.len() + 1
            &&& at_front ==> r[0] == (name, enabled) && forall|k: int| 0 <= k < v.len() ==> #[trigger] r[k + 1] == v[k]
            &&& !at_front ==> r[v.len() as int] == (name, enabled) && forall|k: int| 0 <= k < v.len() ==> #[trigger] r[k] == v[k]
        }),
{
    lemma_first_named(v, name);
    let r = switched(v, name, enabled, at_front);
    if exists|k: int| 0 <= k < v.len() && #[trigger] v[k].0 == name {
        let k = choose|k: int| 0 <= k < v.len() && #[trigger] v[k].0 == name;
        assert(first_named(v, name) is Some);
        let i = first_named(v, name)->0;
        assert(r[i] == (name, enabled));
    }
}

fn clone_string(s: &String) -> (r: String)
    ensures
        r@ == s@,
{
    s.clone()
}

/// Drops every `mods.json` entry named `name`.
pub fn json_retain_other(v: &mut Vec<ModJsonEntry>, name: &str)
    ensures
        json_list(final(v)@) == without(json_list(old(v)@), name@),
{
    let target = to_chars(name);
    let mut out: Vec<ModJsonEntry> = Vec::new();
    let ghost orig = json_list(v@);
    let mut i: usize = 0;
    while i < v.len()
        invariant
            i <= v@.len(),
            orig == json_list(v@),
            target@ == name@,
            json_list(out@) == without(orig.take(i as int), name@),
        decreases v.len() - i,
    {
        assert(orig.take(i + 1).drop_last() =~= orig.take(i as int));
        assert(orig[i as int] == json_view(v@[i as int]));
        let entry_name = to_chars(v[i].mod_name.as_str());
        if !eq_chars(entry_name.as_slice(), target.as_slice()) {
            let ghost before = json_list(out@);
            out.push(ModJsonEntry { mod_name: clone_string(&v[i].mod_name), mod_enabled: v[i].mod_enabled });
            assert(json_list(out@) =~= before.push(orig[i as int]));
        }
        i = i + 1;
    }
    assert(orig.take(orig.len() as int) =~= orig);
    *v = out;
}

/// Drops every `mods.txt` entry named `name`.
pub fn txt_retain_other(v: &mut Vec<TxtEntry>, name: &str)
    ensures
        txt_list(final(v)@) == without(txt_list(old(v)@), name@),
{
    let target = to_chars(name);
    let mut out: Vec<TxtEntry> = Vec::new();
    let ghost orig = txt_list(v@);
    let mut i: usize = 0;
    while i < v.len()
        invariant
            i <= v@.len(),
            orig == txt_list(v@),
            target@ == name@,
            txt_list(out@) == without(orig.take(i as int), name@),
        decreases v.len() - i,
    {
        assert(orig.take(i + 1).drop_last() =~= orig.take(i as int));
        assert(orig[i as int] == txt_view(v@[i as int]));
        let entry_name = to_chars(v[i].name.as_str());
        if !eq_chars(entry_name.as_slice(), target.as_slice()) {
            let ghost before = txt_list(out@);
            out.push(TxtEntry { name: clone_string(&v[i].name), enabled: v[i].enabled });
            assert(txt_list(out@) =~= before.push(orig[i as int]));
        }
        i = i + 1;
    }
    assert(orig.take(orig.len() as int) =~= orig);
    *v = out;
}

/// Lists a new script in both files: any entry of the same name goes, and
/// the script is added last to `mods.json` and first to `mods.txt`.
pub fn register_mod_in_config(
    json: &mut Vec<ModJsonEntry>,
    txt: &mut Vec<TxtEntry>,
    name: &str,
    enabled: bool,
)
    ensures
        json_list(final(json)@) == without(json_list(old(json)@), strip_ws(name@)).push(
            (strip_ws(name@), enabled),
        ),
        txt_list(final(txt)@) == seq![(strip_ws(name@), enabled)] + without(
            txt_list(old(txt)@),
            strip_ws(name@),
        ),
{
    let config_name = sanitize_mod_config_name(name);
    json_retain_other(json, config_name.as_str());
    let ghost j = json_list(json@);
    json.push(ModJsonEntry { mod_name: clone_string(&config_name), mod_enabled: enabled });
    assert(json_list(json@) =~= j.push((strip_ws(name@), enabled)));
    txt_retain_other(txt, config_name.as_str());
    let ghost t = txt_list(txt@);
    txt.insert(0, TxtEntry { name: config_name, enabled });
    assert(txt_list(txt@) =~= seq![(strip_ws(name@), enabled)] + t);
}

/// Removes a script from both files.
pub fn unregister_mod_from_config(json: &mut Vec<ModJsonEntry>, txt: &mut Vec<TxtEntry>, name: &str)
    ensures
        json_list(final(json)@) == without(json_list(old(json)@), strip_ws(name@)),
        txt_list(final(txt)@) == without(txt_list(old(txt)@), strip_ws(name@)),
{
    let config_name = sanitize_mod_config_name(name);
    json_retain_other(json, config_name.as_str());
    txt_retain_other(txt, config_name.as_str());
}

/// Renames every entry of a script in both files.
pub fn rename_mod_in_config(
    json: &mut Vec<ModJsonEntry>,
    txt: &mut Vec<TxtEntry>,
    old_name: &str,
    new_name: &str,
)
    ensures
        json_list(final(json)@) == renamed(json_list(old(json)@), strip_ws(old_name@), strip_ws(new_name@)),
        txt_list(final(txt)@) == renamed(txt_list(old(txt)@), strip_ws(old_name@), strip_ws(new_name@)),
{
    let old_config = sanitize_mod_config_name(old_name);
    let new_config = sanitize_mod_config_name(new_name);
    let old_chars = to_chars(old_config.as_str());
    let ghost oj = json_list(json@);
    let mut i: usize = 0;
    while i < json.len()
        invariant
            i <= json@.len(),
            json@.len() == oj.len(),
            old_chars@ == strip_ws(old_name@),
            new_config@ == strip_ws(new_name@),
            forall|k: int| 0 <= k < i ==> json_view(#[trigger] json@[k]) == renamed(oj, strip_ws(old_name@), strip_ws(new_name@))[k],
            forall|k: int| i <= k < json@.len() ==> json_view(#[trigger] json@[k]) == oj[k],
        decreases json.len() - i,
    {
        let entry_name = to_chars(json[i].mod_name.as_str());
        assert(json_view(json@[i as int]) == oj[i as int]);
        if eq_chars(entry_name.as_slice(), old_chars.as_slice()) {
            let flag = json[i].mod_enabled;
            json.set(i, ModJsonEntry { mod_name: clone_string(&new_config), mod_enabled: flag });
        }
        i = i + 1;
    }
    assert(json_list(json@) =~= renamed(oj, strip_ws(old_name@), strip_ws(new_name@)));
    let ghost ot = txt_list(txt@);
    let mut k: usize = 0;
    while k < txt.len()
        invariant
            k <= txt@.len(),
            txt@.len() == ot.len(),
            old_chars@ == strip_ws(old_name@),
            new_config@ == strip_ws(new_name@),
            forall|t: int| 0 <= t < k ==> txt_view(#[trigger] txt@[t]) == renamed(ot, strip_ws(old_name@), strip_ws(new_name@))[t],
            forall|t: int| k <= t < txt@.len() ==> txt_view(#[trigger] txt@[t]) == ot[t],
        decreases txt.len() - k,
    {
        let entry_name = to_chars(txt[k].name.as_str());
        assert(txt_view(txt@[k as int]) == ot[k as int]);
        if eq_chars(entry_name.as_slice(), old_chars.as_slice()) {
            let flag = txt[k].enabled;
            txt.set(k, TxtEntry { name: clone_string(&new_config), enabled: flag });
        }
        k = k + 1;
    }
    assert(txt_list(txt@) =~= renamed(ot, strip_ws(old_name@), strip_ws(new_name@)));
}

fn find_json(v: &Vec<ModJsonEntry>, target: &[char]) -> (r: Option<usize>)
    ensures
        r matches Some(i) ==> first_named(json_list(v@), target@) == Some(i as int),
        r is None ==> first_named(json_list(v@), target@) is None,
{
    let ghost oj = json_list(v@);
    proof {
        lemma_first_named(oj, target@);
    }
    let mut i: usize = 0;
    while i < v.len()
        invariant
            i <= v@.len(),
            oj == json_list(v@),
            forall|k: int| 0 <= k < i ==> oj[k].0 != target@,
        decreases v.len() - i,
    {
        let entry_name = to_chars(v[i].mod_name.as_str());
        assert(oj[i as int] == json_view(v@[i as int]));
        if eq_chars(entry_name.as_slice(), target) {
            proof {
                lemma_first_named(oj, target@);
            }
            return Some(i);
        }
        i = i + 1;
    }
    None
}

fn find_txt(v: &Vec<TxtEntry>, target: &[char]) -> (r: Option<usize>)
    ensures
        r matches Some(i) ==> first_named(txt_list(v@), target@) == Some(i as int),
        r is None ==> first_named(txt_list(v@), target@) is None,
{
    let ghost ot = txt_list(v@);
    proof {
        lemma_first_named(ot, target@);
    }
    let mut i: usize = 0;
    while i < v.len()
        invariant
            i <= v@.len(),
            ot == txt_list(v@),
            forall|k: int| 0 <= k < i ==> ot[k].0 != target@,
        decreases v.len() - i,
    {
        let entry_name = to_chars(v[i].name.as_str());
        assert(ot[i as int] == txt_view(v@[i as int]));
        if eq_chars(entry_name.as_slice(), target) {
            proof {
                lemma_first_named(ot, target@);
            }
            return Some(i);
        }
        i = i + 1;
    }
    None
}

/// Switches a script on or off in both files; a script missing from a file
/// is added, last to `mods.json` and first to `mods.txt`.
pub fn set_mod_enabled_in_config(
    json: &mut Vec<ModJsonEntry>,
    txt: &mut Vec<TxtEntry>,
    name: &str,
    enabled: bool,
)
    ensures
        json_list(final(json)@) == switched(json_list(old(json)@), strip_ws(name@), enabled, false),
        txt_list(final(txt)@) == switched(txt_list(old(txt)@), strip_ws(name@), enabled, true),
{
    let config_name = sanitize_mod_config_name(name);
    let target = to_chars(config_name.as_str());
    let ghost oj = json_list(json@);
    proof {
        lemma_first_named(oj, strip_ws(name@));
    }
    match find_json(json, target.as_slice()) {
        Some(i) => {
            json.set(i, ModJsonEntry { mod_name: clone_string(&config_name), mod_enabled: enabled });
            assert(json_list(json@) =~= oj.update(i as int, (strip_ws(name@), enabled)));
        },
        None => {
            json.push(ModJsonEntry { mod_name: clone_string(&config_name), mod_enabled: enabled });
            assert(json_list(json@) =~= oj.push((strip_ws(name@), enabled)));
        },
    }
    let ghost ot = txt_list(txt@);
    proof {
        lemma_first_named(ot, strip_ws(name@));
    }
    match find_txt(txt, target.as_slice()) {
        Some(k) => {
            txt.set(k, TxtEntry { name: config_name, enabled });
            assert(txt_list(txt@) =~= ot.update(k as int, (strip_ws(name@), enabled)));
        },
        None => {
            txt.insert(0, TxtEntry { name: config_name, enabled });
            assert(txt_list(txt@) =~= seq![(strip_ws(name@), enabled)] + ot);
        },
    }
}

/// The `mods.txt` entry that a line holds: `name : flag`, trimmed, on when
/// the flag is `1`. Blank lines and lines without `:` hold none.
pub open spec fn line_entry(line: Seq<char>) -> Option<(Seq<char>, bool)> {
    let l = trim(line, TrimSet::Whitespace);
    if l.len() == 0 {
        None
    } else {
        match split_once(l, ':') {
            Some(p) => Some(
                (trim(p.0, TrimSet::Whitespace), trim(p.1, TrimSet::Whitespace) == seq!['1']),
            ),
            None => None,
        }
    }
}

pub open spec fn parse_lines(ls: Seq<Seq<char>>) -> Seq<(Seq<char>, bool)>
    decreases ls.len(),
{
    if ls.len() == 0 {
        seq![]
    } else {
        match line_entry(ls.last()) {
            Some(e) => parse_lines(ls.drop_last()).push(e),
            None => parse_lines(ls.drop_last()),
        }
    }
}

/// The entries that `mods.txt` lists, line by line.
pub open spec fn spec_parse_mods_txt(contents: Seq<char>) -> Seq<(Seq<char>, bool)> {
    parse_lines(lines(contents))
}

fn is_one(v: &[char]) -> (r: bool)
    ensures
        r == (v@ == seq!['1']),
{
    let r = v.len() == 1 && v[0] == '1';
    if r {
        assert(v@ =~= seq!['1']);
    }
    r
}

fn line_entry_exec(line: &[char]) -> (r: Option<TxtEntry>)
    ensures
        r matches Some(e) ==> line_entry(line@) == Some(txt_view(e)),
        r is None ==> line_entry(line@) is None,
{
    let l = trim_chars(line, TrimSet::Whitespace);
    if l.len() == 0 {
        return None;
    }
    match split_once_chars(l.as_slice(), ':') {
        Some((name, flag)) => {
            let n = trim_chars(name.as_slice(), TrimSet::Whitespace);
            let f = trim_chars(flag.as_slice(), TrimSet::Whitespace);
            Some(TxtEntry { name: from_chars(n.as_slice()), enabled: is_one(f.as_slice()) })
        },
        None => None,
    }
}

/// `mods.txt` read into its entries: each non-blank line `name : flag`,
/// trimmed; a flag of `1` is on and anything else off.
pub fn parse_mods_txt(contents: &str) -> (r: Vec<TxtEntry>)
    ensures
        txt_list(r@) == spec_parse_mods_txt(contents@),
{
    let chars = to_chars(contents);
    let ls = lines_exec(chars.as_slice());
    let ghost lv = ls@.map_values(|v: Vec<char>| v@);
    let mut out: Vec<TxtEntry> = Vec::new();
    let mut i: usize = 0;
    while i < ls.len()
        invariant
            i <= ls@.len(),
            lv == ls@.map_values(|v: Vec<char>| v@),
            txt_list(out@) == parse_lines(lv.take(i as int)),
        decreases ls.len() - i,
    {
        assert(lv.take(i + 1).drop_last() =~= lv.take(i as int));
        assert(lv[i as int] == ls@[i as int]@);
        match line_entry_exec(ls[i].as_slice()) {
            Some(e) => {
                let ghost before = txt_list(out@);
                out.push(e);
                assert(txt_list(out@) =~= before.push(txt_view(e)));
            },
            None => {},
        }
        i = i + 1;
    }
    assert(lv.take(lv.len() as int) =~= lv);
    out
}

/// The entries whose name is (or is not) a UE4SS name, in order.
pub open spec fn keep(v: Seq<(Seq<char>, bool)>, builtin: bool) -> Seq<(Seq<char>, bool)>
    decreases v.len(),
{
    if v.len() == 0 {
        seq![]
    } else if spec_is_blocklisted(v.last().0) == builtin {
        keep(v.drop_last(), builtin).push(v.last())
    } else {
        keep(v.drop_last(), builtin)
    }
}

/// The order in which `mods.txt` lists entries: the user's scripts first,
/// then the ones UE4SS ships, each group in its own order.
pub open spec fn txt_order(v: Seq<(Seq<char>, bool)>) -> Seq<(Seq<char>, bool)> {
    keep(v, false) + keep(v, true)
}

/// One `mods.txt` line: `name : 1` or `name : 0`.
pub open spec fn entry_line(e: (Seq<char>, bool)) -> Seq<char> {
    e.0 + seq![' ', ':', ' '] + seq![
        if e.1 {
            '1'
        } else {
            '0'
        },
    ]
}

pub open spec fn spec_format_mods_txt(v: Seq<(Seq<char>, bool)>) -> Seq<char> {
    join_lines_crlf(txt_order(v).map_values(|e: (Seq<char>, bool)| entry_line(e)))
}

pub proof fn lemma_join_crlf_push(ls: Seq<Seq<char>>, x: Seq<char>)
    requires
        ls.len() >= 1,
    ensures
        join_lines_crlf(ls.push(x)) == join_lines_crlf(ls) + seq!['\r', '\n'] + x,
    decreases ls.len(),
{
    if ls.len() == 1 {
        assert(ls.push(x).drop_first() =~= seq![x]);
        assert(join_lines_crlf(seq![x]) == x);
        assert(join_lines_crlf(ls) == ls[0]);
    } else {
        lemma_join_crlf_push(ls.drop_first(), x);
        assert(ls.push(x).drop_first() =~= ls.drop_first().push(x));
        assert(ls.push(x)[0] == ls[0]);
        assert(join_lines_crlf(ls.push(x)) =~= join_lines_crlf(ls) + seq!['\r', '\n'] + x);
    }
}

fn keep_exec(v: &Vec<TxtEntry>, builtin: bool, out: &mut Vec<TxtEntry>)
    ensures
        txt_list(final(out)@) == txt_list(old(out)@) + keep(txt_list(v@), builtin),
{
    let ghost orig = txt_list(v@);
    let ghost start = txt_list(out@);
    let mut i: usize = 0;
    while i < v.len()
        invariant
            i <= v@.len(),
            orig == txt_list(v@),
            txt_list(out@) == start + keep(orig.take(i as int), builtin),
        decreases v.len() - i,
    {
        assert(orig.take(i + 1).drop_last() =~= orig.take(i as int));
        assert(orig[i as int] == txt_view(v@[i as int]));
        let name = to_chars(v[i].name.as_str());
        if is_blocklisted_chars(name.as_slice()) == builtin {
            let ghost before = txt_list(out@);
            out.push(TxtEntry { name: clone_string(&v[i].name), enabled: v[i].enabled });
            assert(txt_list(out@) =~= before.push(orig[i as int]));
        }
        i = i + 1;
    }
    assert(orig.take(orig.len() as int) =~= orig);
}

fn entry_line_exec(e: &TxtEntry) -> (r: Vec<char>)
    ensures
        r@ == entry_line(txt_view(*e)),
{
    let name = to_chars(e.name.as_str());
    let sep = vec![' ', ':', ' '];
    let flag = if e.enabled {
        vec!['1']
    } else {
        vec!['0']
    };
    let head = concat_chars(name.as_slice(), sep.as_slice());
    let r = concat_chars(head.as_slice(), flag.as_slice());
    assert(r@ =~= entry_line(txt_view(*e)));
    r
}

/// `mods.txt` as written: one `name : flag` line per entry, the user's
/// scripts before the ones UE4SS ships, lines joined with `\r\n`.
pub fn format_mods_txt(entries: &Vec<TxtEntry>) -> (r: String)
    ensures
        r@ == spec_format_mods_txt(txt_list(entries@)),
{
    let mut ordered: Vec<TxtEntry> = Vec::new();
    keep_exec(entries, false, &mut ordered);
    keep_exec(entries, true, &mut ordered);
    let ghost ov = txt_list(ordered@);
    assert(ov =~= txt_order(txt_list(entries@)));
    let ghost ls = ov.map_values(|e: (Seq<char>, bool)| entry_line(e));
    let mut out: Vec<char> = Vec::new();
    let mut i: usize = 0;
    let crlf = vec!['\r', '\n'];
    while i < ordered.len()
        invariant
            i <= ordered@.len(),
            ov == txt_list(ordered@),
            ls == ov.map_values(|e: (Seq<char>, bool)| entry_line(e)),
            crlf@ == seq!['\r', '\n'],
            out@ == join_lines_crlf(ls.take(i as int)),
        decreases ordered.len() - i,
    {
        let line = entry_line_exec(&ordered[i]);
        assert(ov[i as int] == txt_view(ordered@[i as int]));
        assert(ls.take(i + 1) =~= ls.take(i as int).push(ls[i as int]));
        if i == 0 {
            assert(ls.take(1) =~= seq![ls[0]]);
            out = line;
        } else {
            proof {
                lemma_join_crlf_push(ls.take(i as int), ls[i as int]);
            }
            let with_sep = concat_chars(out.as_slice(), crlf.as_slice());
            out = concat_chars(with_sep.as_slice(), line.as_slice());
        }
        i = i + 1;
    }
    assert(ls.take(ls.len() as int) =~= ls);
    from_chars(out.as_slice())
}

/// The key of a `key = value` line, trimmed.
pub open spec fn ini_key(t: Seq<char>) -> Seq<char> {
    match split_once(t, '=') {
        Some(p) => trim(p.0, TrimSet::Whitespace),
        None => seq![],
    }
}

/// The value of a `key = value` line, trimmed.
pub open spec fn ini_value(t: Seq<char>) -> Seq<char> {
    match split_once(t, '=') {
        Some(p) => trim(p.1, TrimSet::Whitespace),
        None => seq![],
    }
}

/// A line that opens an INI section: `[...]` once trimmed.
pub open spec fn is_section(t: Seq<char>) -> bool {
    t.len() >= 1 && t[0] == '[' && t.last() == ']'
}

/// Whether the `GuiConsoleEnabled` key of the `[Debug]` section is `1`,
/// reading lines from the first on while `in_debug` tells whether the
/// current section is `[Debug]`.
pub open spec fn debug_scan(ls: Seq<Seq<char>>, in_debug: bool) -> bool
    decreases ls.len(),
{
    if ls.len() == 0 {
        false
    } else {
        let t = trim(ls[0], TrimSet::Whitespace);
        if is_section(t) {
            debug_scan(ls.drop_first(), eq_ignore_ascii_case(t, "[Debug]"@))
        } else if in_debug && split_once(t, '=') is Some && eq_ignore_ascii_case(
            ini_key(t),
            "GuiConsoleEnabled"@,
        ) {
            ini_value(t) == seq!['1']
        } else {
            debug_scan(ls.drop_first(), in_debug)
        }
    }
}

fn is_section_exec(t: &[char]) -> (r: bool)
    ensures
        r == is_section(t@),
{
    t.len() >= 1 && t[0] == '[' && t[t.len() - 1] == ']'
}

/// Whether UE4SS's settings turn the debug console on: the first
/// `GuiConsoleEnabled` key inside a `[Debug]` section, in any case, set to
/// `1`.
pub fn read_debug_enabled(contents: &str) -> (r: bool)
    ensures
        r == debug_scan(lines(contents@), false),
{
    let chars = to_chars(contents);
    let ls = lines_exec(chars.as_slice());
    let ghost lv = ls@.map_values(|v: Vec<char>| v@);
    let debug_header = to_chars("[Debug]");
    let key_name = to_chars("GuiConsoleEnabled");
    let mut in_debug = false;
    let mut i: usize = 0;
    assert(lv.subrange(0, lv.len() as int) =~= lv);
    while i < ls.len()
        invariant
            i <= ls@.len(),
            lv == ls@.map_values(|v: Vec<char>| v@),
            debug_header@ == "[Debug]"@,
            key_name@ == "GuiConsoleEnabled"@,
            lv == lines(contents@),
            debug_scan(lv, false) == debug_scan(lv.subrange(i as int, lv.len() as int), in_debug),
        decreases ls.len() - i,
    {
        let ghost rest = lv.subrange(i as int, lv.len() as int);
        assert(rest.drop_first() =~= lv.subrange(i + 1, lv.len() as int));
        assert(rest[0] == ls@[i as int]@);
        let t = trim_chars(ls[i].as_slice(), TrimSet::Whitespace);
        if is_section_exec(t.as_slice()) {
            in_debug = eq_ignore_ascii_case_chars(t.as_slice(), debug_header.as_slice());
        } else if in_debug {
            match split_once_chars(t.as_slice(), '=') {
                Some((key, value)) => {
                    let k = trim_chars(key.as_slice(), TrimSet::Whitespace);
                    if eq_ignore_ascii_case_chars(k.as_slice(), key_name.as_slice()) {
                        let v = trim_chars(value.as_slice(), TrimSet::Whitespace);
                        assert(ini_key(t@) == k@);
                        assert(ini_value(t@) == v@);
                        assert(debug_scan(rest, in_debug) == (v@ == seq!['1']));
                        return is_one(v.as_slice());
                    }
                },
                None => {},
            }
        }
        i = i + 1;
    }
    false
}

/// Whether a line of UE4SS's settings is a `GuiConsoleEnabled` or
/// `GuiConsoleVisible` key inside `[Debug]`.
pub open spec fn console_key_line(line: Seq<char>, in_debug: bool) -> bool {
    let t = trim(line, TrimSet::Whitespace);
    !is_section(t) && in_debug && split_once(t, '=') is Some && (eq_ignore_ascii_case(
        ini_key(t),
        "GuiConsoleEnabled"@,
    ) || eq_ignore_ascii_case(ini_key(t), "GuiConsoleVisible"@))
}

/// The text that a line of UE4SS's settings becomes when the debug console
/// is switched: a console key inside `[Debug]` is rewritten as
/// `key = value`; every other line is kept.
pub open spec fn rewritten_core(line: Seq<char>, in_debug: bool, value: char) -> Seq<char> {
    if console_key_line(line, in_debug) {
        ini_key(trim(line, TrimSet::Whitespace)) + seq![' ', '=', ' ', value]
    } else {
        line
    }
}

/// A rewritten line followed by `ending`.
pub open spec fn rewritten_line(line: Seq<char>, in_debug: bool, value: char, ending: Seq<char>) -> Seq<char> {
    rewritten_core(line, in_debug, value) + ending
}

/// Whether the section after a line is `[Debug]`.
pub open spec fn next_in_debug(line: Seq<char>, in_debug: bool) -> bool {
    let t = trim(line, TrimSet::Whitespace);
    if is_section(t) {
        eq_ignore_ascii_case(t, "[Debug]"@)
    } else {
        in_debug
    }
}

pub open spec fn debug_rewrite(ls: Seq<Seq<char>>, in_debug: bool, value: char, ending: Seq<char>) -> Seq<char>
    decreases ls.len(),
{
    if ls.len() == 0 {
        seq![]
    } else {
        rewritten_line(ls[0], in_debug, value, ending) + debug_rewrite(
            ls.drop_first(),
            next_in_debug(ls[0], in_debug),
            value,
            ending,
        )
    }
}

/// The line ending a settings file uses: `\r\n` when it has one anywhere.
pub open spec fn line_ending(contents: Seq<char>) -> Seq<char> {
    if contains_seq(contents, seq!['\r', '\n']) {
        seq!['\r', '\n']
    } else {
        seq!['\n']
    }
}

pub open spec fn spec_set_debug_enabled(contents: Seq<char>, enabled: bool) -> Seq<char> {
    debug_rewrite(
        lines(contents),
        false,
        if enabled {
            '1'
        } else {
            '0'
        },
        line_ending(contents),
    )
}

/// UE4SS's settings with the debug console switched on or off: inside
/// `[Debug]`, `GuiConsoleEnabled` and `GuiConsoleVisible` are set to `1` or
/// `0`; every other line is kept, and the file keeps its line ending.
pub fn set_debug_enabled(contents: &str, enabled: bool) -> (r: String)
    ensures
        r@ == spec_set_debug_enabled(contents@, enabled),
{
    let chars = to_chars(contents);
    let crlf = vec!['\r', '\n'];
    let lf = vec!['\n'];
    let ending = if find_chars(chars.as_slice(), crlf.as_slice()).is_some() {
        crlf
    } else {
        lf
    };
    assert(ending@ =~= line_ending(contents@));
    let value = if enabled {
        '1'
    } else {
        '0'
    };
    let ls = lines_exec(chars.as_slice());
    let ghost lv = ls@.map_values(|v: Vec<char>| v@);
    let debug_header = to_chars("[Debug]");
    let enabled_key = to_chars("GuiConsoleEnabled");
    let visible_key = to_chars("GuiConsoleVisible");
    let mut out: Vec<char> = Vec::new();
    let mut in_debug = false;
    let mut i: usize = 0;
    assert(lv.subrange(0, lv.len() as int) =~= lv);
    assert(out@ + debug_rewrite(lv, false, value, ending@) =~= debug_rewrite(lv, false, value, ending@));
    while i < ls.len()
        invariant
            i <= ls@.len(),
            lv == ls@.map_values(|v: Vec<char>| v@),
            lv == lines(contents@),
            ending@ == line_ending(contents@),
            debug_header@ == "[Debug]"@,
            enabled_key@ == "GuiConsoleEnabled"@,
            visible_key@ == "GuiConsoleVisible"@,
            out@ + debug_rewrite(lv.subrange(i as int, lv.len() as int), in_debug, value, ending@)
                == debug_rewrite(lv, false, value, ending@),
        decreases ls.len() - i,
    {
        let ghost rest = lv.subrange(i as int, lv.len() as int);
        assert(rest.drop_first() =~= lv.subrange(i + 1, lv.len() as int));
        assert(rest[0] == ls@[i as int]@);
        let line = ls[i].as_slice();
        let t = trim_chars(line, TrimSet::Whitespace);
        let mut piece: Vec<char> = concat_chars(line, ending.as_slice());
        let mut next = in_debug;
        if is_section_exec(t.as_slice()) {
            next = eq_ignore_ascii_case_chars(t.as_slice(), debug_header.as_slice());
        } else if in_debug {
            match split_once_chars(t.as_slice(), '=') {
                Some((key, _)) => {
                    let k = trim_chars(key.as_slice(), TrimSet::Whitespace);
                    if eq_ignore_ascii_case_chars(k.as_slice(), enabled_key.as_slice())
                        || eq_ignore_ascii_case_chars(k.as_slice(), visible_key.as_slice()) {
                        let tail = vec![' ', '=', ' ', value];
                        let head = concat_chars(k.as_slice(), tail.as_slice());
                        piece = concat_chars(head.as_slice(), ending.as_slice());
                        assert(tail@ =~= seq![' ', '=', ' ', value]);
                    }
                },
                None => {},
            }
        }
        assert(piece@ == rewritten_line(rest[0], in_debug, value, ending@));
        assert(next == next_in_debug(rest[0], in_debug));
        let ghost before = out@;
        out = concat_chars(out.as_slice(), piece.as_slice());
        assert(before + debug_rewrite(rest, in_debug, value, ending@) =~= out@ + debug_rewrite(
            lv.subrange(i + 1, lv.len() as int),
            next,
            value,
            ending@,
        ));
        in_debug = next;
        i = i + 1;
    }
    assert(lv.subrange(ls@.len() as int, lv.len() as int) =~= Seq::<Seq<char>>::empty());
    assert(out@ =~= debug_rewrite(lv, false, value, ending@));
    from_chars(out.as_slice())
}

/// Whether the scan of `debug_scan` meets a `GuiConsoleEnabled` key inside
/// `[Debug]`.
pub open spec fn debug_key_present(ls: Seq<Seq<char>>, in_debug: bool) -> bool
    decreases ls.len(),
{
    if ls.len() == 0 {
        false
    } else {
        let t = trim(ls[0], TrimSet::Whitespace);
        if is_section(t) {
            debug_key_present(ls.drop_first(), eq_ignore_ascii_case(t, "[Debug]"@))
        } else if in_debug && split_once(t, '=') is Some && eq_ignore_ascii_case(
            ini_key(t),
            "GuiConsoleEnabled"@,
        ) {
            true
        } else {
            debug_key_present(ls.drop_first(), in_debug)
        }
    }
}

/// The rewritten lines, without their endings.
pub open spec fn rewritten_cores(ls: Seq<Seq<char>>, in_debug: bool, value: char) -> Seq<Seq<char>>
    decreases ls.len(),
{
    if ls.len() == 0 {
        seq![]
    } else {
        seq![rewritten_core(ls[0], in_debug, value)] + rewritten_cores(
            ls.drop_first(),
            next_in_debug(ls[0], in_debug),
            value,
        )
    }
}

proof fn lemma_rewrite_joins(ls: Seq<Seq<char>>, in_debug: bool, value: char, ending: Seq<char>)
    ensures
        debug_rewrite(ls, in_debug, value, ending) == join_terminated(rewritten_cores(ls, in_debug, value), ending),
        rewritten_cores(ls, in_debug, value).len() == ls.len(),
    decreases ls.len(),
{
    if ls.len() > 0 {
        lemma_rewrite_joins(ls.drop_first(), next_in_debug(ls[0], in_debug), value, ending);
        let cs = rewritten_cores(ls, in_debug, value);
        assert(cs.drop_first() =~= rewritten_cores(ls.drop_first(), next_in_debug(ls[0], in_debug), value));
        assert(debug_rewrite(ls, in_debug, value, ending) =~= join_terminated(cs, ending));
    }
}

/// The parts of a console key line: its trimmed text, the key before the
/// first `=`, trimmed, and that key holds neither `=` nor `\n` and starts
/// and ends with a letter of the key it matches.
proof fn lemma_console_key(line: Seq<char>, value: char)
    requires
        no_newline(line),
        split_once(trim(line, TrimSet::Whitespace), '=') is Some,
        eq_ignore_ascii_case(ini_key(trim(line, TrimSet::Whitespace)), "GuiConsoleEnabled"@)
            || eq_ignore_ascii_case(ini_key(trim(line, TrimSet::Whitespace)), "GuiConsoleVisible"@),
        value == '0' || value == '1',
    ensures
        ({
            let key = ini_key(trim(line, TrimSet::Whitespace));
            let core = key + seq![' ', '=', ' ', value];
            &&& no_newline(core)
            &&& trim(core, TrimSet::Whitespace) == core
            &&& !is_section(core)
            &&& split_once(core, '=') is Some
            &&& ini_key(core) == key
            &&& ini_value(core) == seq![value]
        }),
{
    reveal_strlit("GuiConsoleEnabled");
    reveal_strlit("GuiConsoleVisible");
    let t = trim(line, TrimSet::Whitespace);
    let p = split_once(t, '=')->0;
    let key = ini_key(t);
    assert(key == trim(p.0, TrimSet::Whitespace));
    lemma_index_of_char(t, '=');
    let i = crate::text::index_of_char(t, '=')->0;
    assert(p.0 == t.subrange(0, i));
    assert forall|k: int| 0 <= k < line.len() implies line[k] != '\n' by {}
    lemma_trim_keeps_absent(line, TrimSet::Whitespace, '\n');
    assert forall|k: int| 0 <= k < p.0.len() implies p.0[k] != '=' && p.0[k] != '\n' by {
        assert(p.0[k] == t[k]);
    }
    lemma_trim_keeps_absent(p.0, TrimSet::Whitespace, '=');
    lemma_trim_keeps_absent(p.0, TrimSet::Whitespace, '\n');
    lemma_trim_ends(p.0, TrimSet::Whitespace);
    assert(key.len() == 17);
    let core = key + seq![' ', '=', ' ', value];
    assert forall|k: int| 0 <= k < core.len() implies core[k] != '\n' by {
        if k < key.len() {
            assert(core[k] == key[k]);
        }
    }
    assert(core[0] == key[0]);
    assert(core.last() == value);
    lemma_trim_noop(core, TrimSet::Whitespace);
    assert(crate::text::ascii_lower(key[0]) == 'g');
    assert(core[0] != '[');
    let n = key.len() as int;
    assert forall|k: int| 0 <= k < n + 1 implies core[k] != '=' by {
        if k < n {
            assert(core[k] == key[k]);
        }
    }
    assert(core[n + 1] == '=');
    lemma_index_of_char_at(core, '=', n + 1);
    let kp = core.subrange(0, n + 1);
    assert(kp =~= key.push(' '));
    assert(core.subrange(n + 2, core.len() as int) =~= seq![' ', value]);
    assert(trim_start(kp, TrimSet::Whitespace) == kp);
    assert(kp.drop_last() =~= key);
    assert(trim_end(kp, TrimSet::Whitespace) == trim_end(key, TrimSet::Whitespace));
    assert(trim_end(key, TrimSet::Whitespace) == key);
    let vp = seq![' ', value];
    assert(vp.drop_first() =~= seq![value]);
    assert(trim_start(vp, TrimSet::Whitespace) == trim_start(seq![value], TrimSet::Whitespace));
    assert(trim_start(seq![value], TrimSet::Whitespace) == seq![value]);
    assert(trim_end(seq![value], TrimSet::Whitespace) == seq![value]);
}

proof fn lemma_cores_free(ls: Seq<Seq<char>>, in_debug: bool, value: char)
    requires
        forall|i: int| 0 <= i < ls.len() ==> no_newline(#[trigger] ls[i]),
        value == '0' || value == '1',
    ensures
        forall|i: int| 0 <= i < rewritten_cores(ls, in_debug, value).len() ==> no_newline(
            #[trigger] rewritten_cores(ls, in_debug, value)[i],
        ),
    decreases ls.len(),
{
    if ls.len() > 0 {
        let rest = ls.drop_first();
        assert forall|i: int| 0 <= i < rest.len() implies no_newline(#[trigger] rest[i]) by {
            assert(rest[i] == ls[i + 1]);
        }
        lemma_cores_free(rest, next_in_debug(ls[0], in_debug), value);
        assert(no_newline(ls[0]));
        if console_key_line(ls[0], in_debug) {
            lemma_console_key(ls[0], value);
        }
        let cs = rewritten_cores(ls, in_debug, value);
        assert forall|i: int| 0 <= i < cs.len() implies no_newline(#[trigger] cs[i]) by {
            if i > 0 {
                assert(cs[i] == rewritten_cores(rest, next_in_debug(ls[0], in_debug), value)[i - 1]);
            }
        }
    }
}

/// The scan reads only the trimmed lines.
proof fn lemma_scan_trimmed(a: Seq<Seq<char>>, b: Seq<Seq<char>>, in_debug: bool)
    requires
        a.len() == b.len(),
        forall|i: int| 0 <= i < a.len() ==> trim(#[trigger] a[i], TrimSet::Whitespace) == trim(b[i], TrimSet::Whitespace),
    ensures
        debug_scan(a, in_debug) == debug_scan(b, in_debug),
    decreases a.len(),
{
    if a.len() > 0 {
        assert(trim(a[0], TrimSet::Whitespace) == trim(b[0], TrimSet::Whitespace));
        let a1 = a.drop_first();
        let b1 = b.drop_first();
        assert forall|i: int| 0 <= i < a1.len() implies trim(#[trigger] a1[i], TrimSet::Whitespace) == trim(
            b1[i],
            TrimSet::Whitespace,
        ) by {
            assert(a1[i] == a[i + 1]);
            assert(b1[i] == b[i + 1]);
        }
        lemma_scan_trimmed(a1, b1, true);
        lemma_scan_trimmed(a1, b1, false);
    }
}

/// Scanning the rewritten lines finds the value written, where the scan of
/// the original lines meets a key.
proof fn lemma_scan_cores(ls: Seq<Seq<char>>, in_debug: bool, value: char)
    requires
        forall|i: int| 0 <= i < ls.len() ==> no_newline(#[trigger] ls[i]),
        value == '0' || value == '1',
    ensures
        debug_scan(rewritten_cores(ls, in_debug, value), in_debug) == (debug_key_present(ls, in_debug) && value
            == '1'),
    decreases ls.len(),
{
    if ls.len() > 0 {
        let rest = ls.drop_first();
        assert forall|i: int| 0 <= i < rest.len() implies no_newline(#[trigger] rest[i]) by {
            assert(rest[i] == ls[i + 1]);
        }
        let next = next_in_debug(ls[0], in_debug);
        lemma_scan_cores(rest, next, value);
        let cs = rewritten_cores(ls, in_debug, value);
        assert(cs.drop_first() =~= rewritten_cores(rest, next, value));
        assert(cs[0] == rewritten_core(ls[0], in_debug, value));
        assert(no_newline(ls[0]));
        let t = trim(ls[0], TrimSet::Whitespace);
        if console_key_line(ls[0], in_debug) {
            lemma_console_key(ls[0], value);
            let key = ini_key(t);
            assert(cs[0] == key + seq![' ', '=', ' ', value]);
            assert(trim(cs[0], TrimSet::Whitespace) == cs[0]);
            assert(!is_section(t));
            assert(next == in_debug);
            if eq_ignore_ascii_case(key, "GuiConsoleEnabled"@) {
                assert(debug_key_present(ls, in_debug));
                assert(ini_value(cs[0]) == seq![value]);
                if value == '1' {
                    assert(seq![value] =~= seq!['1']);
                } else {
                    assert(seq![value][0] != seq!['1'][0]);
                }
                assert(debug_scan(cs, in_debug) == (seq![value] == seq!['1']));
            } else {
                assert(debug_key_present(ls, in_debug) == debug_key_present(rest, in_debug));
                assert(debug_scan(cs, in_debug) == debug_scan(cs.drop_first(), in_debug));
            }
        } else {
            assert(cs[0] == ls[0]);
            if is_section(t) {
                assert(debug_scan(cs, in_debug) == debug_scan(cs.drop_first(), next));
            } else {
                assert(next == in_debug);
            }
        }
    }
}

/// After the debug console is switched, reading UE4SS's settings gives the
/// value written where the `[Debug]` section holds a `GuiConsoleEnabled`
/// key, and off where it holds none.
pub proof fn law_debug_switch_reads_back(contents: Seq<char>, enabled: bool)
    ensures
        debug_scan(lines(spec_set_debug_enabled(contents, enabled)), false) == (enabled && debug_key_present(
            lines(contents),
            false,
        )),
{
    let ls = lines(contents);
    let value = if enabled { '1' } else { '0' };
    let e = line_ending(contents);
    lemma_lines_free(contents);
    lemma_rewrite_joins(ls, false, value, e);
    let cs = rewritten_cores(ls, false, value);
    lemma_cores_free(ls, false, value);
    lemma_lines_of_terminated(cs, e);
    let back = lines(join_terminated(cs, e));
    assert forall|i: int| 0 <= i < back.len() implies trim(#[trigger] back[i], TrimSet::Whitespace) == trim(
        cs[i],
        TrimSet::Whitespace,
    ) by {
        lemma_trim_strip_cr(cs[i]);
    }
    lemma_scan_trimmed(back, cs, false);
    lemma_scan_cores(ls, false, value);
}

/// A name that `mods.txt` holds exactly: not empty, without `:` or line
/// breaks, and without whitespace at either end.
pub open spec fn txt_clean(name: Seq<char>) -> bool {
    &&& name.len() > 0
    &&& !is_ws(name[0])
    &&& !is_ws(name.last())
    &&& forall|k: int| 0 <= k < name.len() ==> name[k] != ':' && name[k] != '\n'
}

proof fn lemma_line_entry_of_entry_line(e: (Seq<char>, bool))
    requires
        txt_clean(e.0),
    ensures
        line_entry(entry_line(e)) == Some(e),
{
    let name = e.0;
    let d = if e.1 {
        '1'
    } else {
        '0'
    };
    let l = entry_line(e);
    let n = name.len() as int;
    assert(l =~= name + seq![' ', ':', ' ', d]);
    assert(l[0] == name[0]);
    crate::text::lemma_trim_noop(l, TrimSet::Whitespace);
    assert forall|k: int| 0 <= k < n + 1 implies l[k] != ':' by {
        if k < n {
            assert(l[k] == name[k]);
        }
    }
    lemma_index_of_char_at(l, ':', n + 1);
    assert(l.subrange(0, n + 1) =~= name.push(' '));
    assert(l.subrange(n + 2, l.len() as int) =~= seq![' ', d]);
    assert(trim_end(name.push(' '), TrimSet::Whitespace) == trim_end(name, TrimSet::Whitespace)) by {
        assert(name.push(' ').drop_last() =~= name);
    }
    assert(trim(name.push(' '), TrimSet::Whitespace) == name) by {
        assert(name.push(' ')[0] == name[0]);
    }
    assert(trim(seq![' ', d], TrimSet::Whitespace) =~= seq![d]) by {
        let sd = seq![d];
        assert(seq![' ', d].drop_first() =~= sd);
        assert(!is_ws(d));
        assert(trim_start(sd, TrimSet::Whitespace) == sd);
        assert(trim_start(seq![' ', d], TrimSet::Whitespace) == sd);
        assert(sd.last() == d);
        assert(trim_end(sd, TrimSet::Whitespace) == sd);
    }
    assert((seq![d] == seq!['1']) == e.1) by {
        if seq![d] == seq!['1'] {
            assert(seq![d][0] == seq!['1'][0]);
        }
    }
}

proof fn lemma_parse_entry_lines(v: Seq<(Seq<char>, bool)>)
    requires
        forall|i: int| 0 <= i < v.len() ==> txt_clean(#[trigger] v[i].0),
    ensures
        parse_lines(v.map_values(|e: (Seq<char>, bool)| entry_line(e))) == v,
    decreases v.len(),
{
    let ls = v.map_values(|e: (Seq<char>, bool)| entry_line(e));
    if v.len() > 0 {
        assert(ls.drop_last() =~= v.drop_last().map_values(|e: (Seq<char>, bool)| entry_line(e)));
        assert forall|i: int| 0 <= i < v.drop_last().len() implies txt_clean(#[trigger] v.drop_last()[i].0) by {
            assert(v.drop_last()[i] == v[i]);
        }
        lemma_parse_entry_lines(v.drop_last());
        assert(txt_clean(v[v.len() - 1].0));
        lemma_line_entry_of_entry_line(v.last());
        assert(v.drop_last().push(v.last()) =~= v);
    } else {
        assert(ls.len() == 0);
    }
}

proof fn lemma_keep_subset(v: Seq<(Seq<char>, bool)>, builtin: bool)
    ensures
        forall|i: int| 0 <= i < keep(v, builtin).len() ==> v.contains(#[trigger] keep(v, builtin)[i]),
    decreases v.len(),
{
    if v.len() > 0 {
        lemma_keep_subset(v.drop_last(), builtin);
        assert forall|i: int| 0 <= i < keep(v, builtin).len() implies v.contains(#[trigger] keep(v, builtin)[i]) by {
            if i < keep(v.drop_last(), builtin).len() {
                let x = keep(v.drop_last(), builtin)[i];
                let j = choose|j: int| 0 <= j < v.drop_last().len() && v.drop_last()[j] == x;
                assert(v[j] == x);
            } else {
                assert(keep(v, builtin)[i] == v.last());
                assert(v[v.len() - 1] == v.last());
            }
        }
    }
}

/// Writing `mods.txt` and reading it back gives every entry back, the
/// user's scripts first and then the ones UE4SS ships, for names that the
/// file holds exactly (see `txt_clean`).
pub proof fn law_mods_txt_round_trip(v: Seq<(Seq<char>, bool)>)
    requires
        forall|i: int| 0 <= i < v.len() ==> txt_clean(#[trigger] v[i].0),
    ensures
        spec_parse_mods_txt(spec_format_mods_txt(v)) == txt_order(v),
{
    let ord = txt_order(v);
    lemma_keep_subset(v, false);
    lemma_keep_subset(v, true);
    assert forall|i: int| 0 <= i < ord.len() implies txt_clean(#[trigger] ord[i].0) by {
        if i < keep(v, false).len() {
            assert(ord[i] == keep(v, false)[i]);
            assert(v.contains(keep(v, false)[i]));
        } else {
            assert(ord[i] == keep(v, true)[i - keep(v, false).len()]);
            assert(v.contains(keep(v, true)[i - keep(v, false).len()]));
        }
    }
    let ls = ord.map_values(|e: (Seq<char>, bool)| entry_line(e));
    assert forall|i: int| 0 <= i < ls.len() implies #[trigger] ls[i].len() > 0 by {
        assert(ls[i] == entry_line(ord[i]));
    }
    assert forall|i: int, k: int| 0 <= i < ls.len() && 0 <= k < ls[i].len() implies #[trigger] ls[i][k] != '\n' by {
        let name = ord[i].0;
        assert(txt_clean(name));
        assert(ls[i] == entry_line(ord[i]));
        if k < name.len() {
            assert(ls[i][k] == name[k]);
        }
    }
    lemma_lines_of_crlf_join(ls);
    lemma_parse_entry_lines(ord);
}


// ---------------------------------------------------------------------
// The script list

/// A path with its separators read as `/`: on Windows `\` separates too,
/// elsewhere only `/` does.
pub open spec fn read_separators(path: Seq<char>, windows_paths: bool) -> Seq<char> {
    path.map_values(|c: char| if windows_paths && c == '\\' { '/' } else { c })
}

/// Whether a path starts with a drive prefix such as `C:`.
pub open spec fn drive_prefix(path: Seq<char>) -> bool {
    path.len() >= 2 && path[1] == ':' && (('a' <= path[0] && path[0] <= 'z') || ('A' <= path[0] && path[0] <= 'Z'))
}

/// Where an archive entry is unpacked, as the folders and file below the
/// target, reading the path's components as the system does: on Windows
/// (`windows_paths`) both `/` and `\` separate and a leading drive (`C:`)
/// is a prefix; elsewhere only `/` separates, so `\` and `:` are parts of a
/// name. The entry is refused where it climbs out (`..`), starts at a root
/// (a leading separator, which on Windows also opens a network or device
/// prefix) or names a drive; `.` and empty pieces are dropped.
pub open spec fn spec_archive_path(path: Seq<char>, windows_paths: bool) -> Option<Seq<Seq<char>>> {
    let p = read_separators(path, windows_paths);
    let pieces = crate::text::split_on(p, '/');
    if (windows_paths && drive_prefix(path)) || (p.len() > 0 && p[0] == '/') || exists|i: int|
        0 <= i < pieces.len() && #[trigger] pieces[i] == ".."@ {
        None
    } else {
        Some(pieces.filter(|p: Seq<char>| p.len() > 0 && p != "."@))
    }
}

/// The pieces an archive entry `path` unpacks to below the target, or
/// `None` where it would leave it; `windows_paths` says whether the system
/// reads paths as Windows does.
pub fn sanitize_archive_path(path: &str, windows_paths: bool) -> (r: Option<Vec<String>>)
    ensures
        match r {
            Some(v) => spec_archive_path(path@, windows_paths) == Some(crate::text::strings_view(v@)),
            None => spec_archive_path(path@, windows_paths) is None,
        },
{
    let raw = to_chars(path);
    if windows_paths && raw.len() >= 2 && raw[1] == ':' && (('a' <= raw[0] && raw[0] <= 'z') || ('A' <= raw[0] && raw[0] <= 'Z')) {
        return None;
    }
    let mut chars: Vec<char> = Vec::new();
    let mut k: usize = 0;
    while k < raw.len()
        invariant
            k <= raw@.len(),
            raw@ == path@,
            chars@ == read_separators(raw@.subrange(0, k as int), windows_paths),
        decreases raw.len() - k,
    {
        let c = if windows_paths && raw[k] == '\\' { '/' } else { raw[k] };
        chars.push(c);
        assert(raw@.subrange(0, k + 1) =~= raw@.subrange(0, k as int).push(raw@[k as int]));
        assert(chars@ =~= read_separators(raw@.subrange(0, k + 1), windows_paths));
        k = k + 1;
    }
    assert(raw@.subrange(0, raw@.len() as int) =~= raw@);
    assert(chars@ == read_separators(path@, windows_paths));
    if chars.len() > 0 && chars[0] == '/' {
        return None;
    }
    let pieces = crate::text::split_on_exec(chars.as_slice(), '/');
    let ghost pv = pieces@.map_values(|v: Vec<char>| v@);
    let ghost keep = |p: Seq<char>| p.len() > 0 && p != "."@;
    let dots = to_chars("..");
    let dot = to_chars(".");
    let mut out: Vec<String> = Vec::new();
    let mut i: usize = 0;
    proof {
        reveal(Seq::filter);
    }
    while i < pieces.len()
        invariant
            i <= pieces@.len(),
            pv == pieces@.map_values(|v: Vec<char>| v@),
            pv == crate::text::split_on(read_separators(path@, windows_paths), '/'),
            !(windows_paths && drive_prefix(path@)),
            !(read_separators(path@, windows_paths).len() > 0 && read_separators(path@, windows_paths)[0] == '/'),
            keep == (|p: Seq<char>| p.len() > 0 && p != "."@),
            dots@ == ".."@,
            dot@ == "."@,
            forall|k: int| 0 <= k < i ==> #[trigger] pv[k] != ".."@,
            crate::text::strings_view(out@) == pv.subrange(0, i as int).filter(keep),
        decreases pieces.len() - i,
    {
        assert(pv[i as int] == pieces@[i as int]@);
        if eq_chars(pieces[i].as_slice(), dots.as_slice()) {
            return None;
        }
        proof {
            reveal(Seq::filter);
            assert(pv.subrange(0, i + 1).drop_last() =~= pv.subrange(0, i as int));
            assert(pv.subrange(0, i + 1).last() == pv[i as int]);
        }
        if pieces[i].len() > 0 && !eq_chars(pieces[i].as_slice(), dot.as_slice()) {
            let ghost before = crate::text::strings_view(out@);
            out.push(from_chars(pieces[i].as_slice()));
            assert(crate::text::strings_view(out@) =~= before.push(pv[i as int]));
        }
        i = i + 1;
    }
    assert(pv.subrange(0, pv.len() as int) =~= pv);
    Some(out)
}

/// A script of the list.
pub struct LuaScript {
    pub id: u32,
    pub name: String,
    pub enabled: bool,
    pub code: String,
}

/// What a new script's `main.lua` holds.
pub open spec fn starter_code() -> Seq<char> {
    "-- Aurora uses UE4SS' LUA API to load scripts, for more information see their documentation.\n"@
}

/// The name a new script takes: `lua_script_<id>`, with `_script` added
/// should that be a name UE4SS keeps.
pub open spec fn spec_new_script_name(id: u32) -> Seq<char> {
    let base = "lua_script_"@ + crate::text::decimal(id as nat);
    if spec_is_blocklisted(base) {
        base + "_script"@
    } else {
        base
    }
}

/// Whether a script found on disk is on: the last `mods.txt` entry for
/// its name without whitespace says so; a script missing there is off.
pub open spec fn spec_script_enabled(entries: Seq<(Seq<char>, bool)>, name: Seq<char>) -> bool
    decreases entries.len(),
{
    if entries.len() == 0 {
        false
    } else if entries.last().0 == strip_ws(name) {
        entries.last().1
    } else {
        spec_script_enabled(entries.drop_last(), name)
    }
}

pub fn script_enabled(entries: &Vec<TxtEntry>, name: &str) -> (r: bool)
    ensures
        r == spec_script_enabled(txt_list(entries@), name@),
{
    let key = sanitize_mod_config_name(name);
    let ghost ev = txt_list(entries@);
    let mut j = entries.len();
    assert(ev.subrange(0, ev.len() as int) =~= ev);
    while j > 0
        invariant
            j <= entries@.len(),
            ev == txt_list(entries@),
            key@ == strip_ws(name@),
            spec_script_enabled(ev, name@) == spec_script_enabled(ev.subrange(0, j as int), name@),
        decreases j,
    {
        assert(ev.subrange(0, j as int).drop_last() =~= ev.subrange(0, j - 1));
        assert(ev.subrange(0, j as int).last() == ev[j - 1]);
        assert(ev[j - 1] == (entries@[j - 1].name@, entries@[j - 1].enabled));
        if eq_chars(to_chars(entries[j - 1].name.as_str()).as_slice(), to_chars(key.as_str()).as_slice()) {
            return entries[j - 1].enabled;
        }
        j = j - 1;
    }
    false
}

proof fn lemma_without_has_none(v: Seq<(Seq<char>, bool)>, s: Seq<char>)
    ensures
        forall|k: int| 0 <= k < without(v, s).len() ==> (#[trigger] without(v, s)[k]).0 != s,
    decreases v.len(),
{
    if v.len() > 0 {
        let rest = without(v.drop_last(), s);
        lemma_without_has_none(v.drop_last(), s);
        if v.last().0 != s {
            assert forall|k: int| 0 <= k < rest.push(v.last()).len() implies (#[trigger] rest.push(
                v.last(),
            )[k]).0 != s by {
                if k < rest.len() {
                    assert(rest.push(v.last())[k] == rest[k]);
                }
            }
        }
    }
}

proof fn lemma_enabled_skips(head: Seq<(Seq<char>, bool)>, w: Seq<(Seq<char>, bool)>, name: Seq<char>)
    requires
        forall|k: int| 0 <= k < w.len() ==> (#[trigger] w[k]).0 != strip_ws(name),
    ensures
        spec_script_enabled(head + w, name) == spec_script_enabled(head, name),
    decreases w.len(),
{
    if w.len() > 0 {
        assert((head + w).drop_last() =~= head + w.drop_last());
        assert((head + w).last() == w[w.len() - 1]);
        lemma_enabled_skips(head, w.drop_last(), name);
    } else {
        assert(head + w =~= head);
    }
}

/// A script just registered with `enabled` reads back as `enabled` from the
/// new `mods.txt`, whatever the file held before; one just unregistered
/// reads back as off.
pub proof fn law_registered_script_state(old_txt: Seq<(Seq<char>, bool)>, name: Seq<char>, enabled: bool)
    ensures
        spec_script_enabled(seq![(strip_ws(name), enabled)] + without(old_txt, strip_ws(name)), name)
            == enabled,
        !spec_script_enabled(without(old_txt, strip_ws(name)), name),
{
    let w = without(old_txt, strip_ws(name));
    lemma_without_has_none(old_txt, strip_ws(name));
    lemma_enabled_skips(seq![(strip_ws(name), enabled)], w, name);
    let e: Seq<(Seq<char>, bool)> = seq![];
    lemma_enabled_skips(e, w, name);
    assert(e + w =~= w);
    assert(seq![(strip_ws(name), enabled)].drop_last() =~= e);
}

/// How far the UE4SS install is after unpacking `done` of `count` entries:
/// half for the download, the other half shared by the entries.
pub fn install_percent(done: usize, count: usize) -> (r: i32)
    requires
        0 < done <= count,
        count * 50 <= usize::MAX,
    ensures
        r == 50 + (done as int * 50) / (count as int),
{
    let part = done * 50 / count;
    assert(part <= 50) by (nonlinear_arith)
        requires
            part as int == (done as int * 50) / (count as int),
            0 < done <= count,
    ;
    50 + part as i32
}

/// The Lua scripts page: the scripts listed and the ID the next one gets.
pub struct LuaScriptsHandler {
    scripts: Vec<LuaScript>,
    next_id: u32,
}

pub open spec fn script_ids(v: Seq<LuaScript>) -> Seq<u32> {
    v.map_values(|s: LuaScript| s.id)
}

pub open spec fn max_id(ids: Seq<u32>) -> nat
    decreases ids.len(),
{
    if ids.len() == 0 {
        0
    } else {
        let m = max_id(ids.drop_last());
        if ids.last() > m { ids.last() as nat } else { m }
    }
}

impl LuaScriptsHandler {
    pub closed spec fn list(&self) -> Seq<LuaScript> {
        self.scripts@
    }

    pub closed spec fn next(&self) -> u32 {
        self.next_id
    }

    /// The scripts found on disk; the next script takes the ID after the
    /// highest one listed.
    pub fn load(scripts: Vec<LuaScript>) -> (r: Self)
        requires
            max_id(script_ids(scripts@)) < u32::MAX,
        ensures
            r.list() == scripts@,
            r.next() == max_id(script_ids(scripts@)) + 1,
    {
        let mut m: u32 = 0;
        let mut i: usize = 0;
        let ghost ids = script_ids(scripts@);
        while i < scripts.len()
            invariant
                i <= scripts@.len(),
                ids == script_ids(scripts@),
                m == max_id(ids.subrange(0, i as int)),
            decreases scripts.len() - i,
        {
            assert(ids.subrange(0, i + 1).drop_last() =~= ids.subrange(0, i as int));
            assert(ids.subrange(0, i + 1).last() == scripts@[i as int].id);
            if scripts[i].id > m {
                m = scripts[i].id;
            }
            i = i + 1;
        }
        assert(ids.subrange(0, ids.len() as int) =~= ids);
        LuaScriptsHandler { scripts, next_id: m + 1 }
    }

    fn position(&self, id: u32) -> (r: Option<usize>)
        ensures
            match r {
                Some(i) => i < self.list().len() && self.list()[i as int].id == id && forall|k: int|
                    0 <= k < i ==> #[trigger] self.list()[k].id != id,
                None => forall|k: int| 0 <= k < self.list().len() ==> #[trigger] self.list()[k].id != id,
            },
    {
        let mut i: usize = 0;
        while i < self.scripts.len()
            invariant
                i <= self.scripts@.len(),
                forall|k: int| 0 <= k < i ==> #[trigger] self.scripts@[k].id != id,
            decreases self.scripts.len() - i,
        {
            if self.scripts[i].id == id {
                return Some(i);
            }
            i = i + 1;
        }
        None
    }

    /// A new script: it takes the next ID and a fresh name, starts off with
    /// the starter code, and goes to the end of the list. Returns its name.
    pub fn create(&mut self) -> (r: String)
        requires
            old(self).next() < u32::MAX,
        ensures
            r@ == spec_new_script_name(old(self).next()),
            final(self).list().len() == old(self).list().len() + 1,
            final(self).list().drop_last() == old(self).list(),
            final(self).list().last().id == old(self).next(),
            final(self).list().last().name@ == r@,
            !final(self).list().last().enabled,
            final(self).list().last().code@ == starter_code(),
            final(self).next() == old(self).next() + 1,
    {
        let id = self.next_id;
        self.next_id = id + 1;
        let head = to_chars("lua_script_");
        let digits = crate::text::decimal_chars(id as usize);
        let base = concat_chars(head.as_slice(), digits.as_slice());
        let name_chars = if is_blocklisted_chars(base.as_slice()) {
            concat_chars(base.as_slice(), to_chars("_script").as_slice())
        } else {
            base
        };
        let name = from_chars(name_chars.as_slice());
        let code = from_chars(
            to_chars(
                "-- Aurora uses UE4SS' LUA API to load scripts, for more information see their documentation.\n",
            ).as_slice(),
        );
        let ghost before = self.scripts@;
        self.scripts.push(LuaScript { id, name: from_chars(name_chars.as_slice()), enabled: false, code });
        assert(self.scripts@.drop_last() =~= before);
        name
    }

    /// Switches a script; returns its name and new state, or `None` for an
    /// ID not listed.
    pub fn toggle(&mut self, id: u32) -> (r: Option<(String, bool)>)
        ensures
            match r {
                None => final(self).list() == old(self).list() && forall|k: int|
                    0 <= k < old(self).list().len() ==> #[trigger] old(self).list()[k].id != id,
                Some((name, on)) => exists|i: int|
                    0 <= i < old(self).list().len() && old(self).list()[i].id == id && name@ == old(self).list()[i].name@
                        && on == !old(self).list()[i].enabled && final(self).list()[i].enabled == on
                        && final(self).list().len() == old(self).list().len()
                        && forall|k: int| 0 <= k < old(self).list().len() && k != i ==> #[trigger] final(self).list()[k] == old(self).list()[k],
            },
            final(self).next() == old(self).next(),
    {
        match self.position(id) {
            None => None,
            Some(i) => {
                let ghost before = self.scripts@;
                let mut s = self.scripts.remove(i);
                s.enabled = !s.enabled;
                let on = s.enabled;
                let name = from_chars(to_chars(s.name.as_str()).as_slice());
                self.scripts.insert(i, s);
                assert forall|k: int| 0 <= k < before.len() && k != i implies #[trigger] self.scripts@[k] == before[k] by {}
                assert(self.scripts@[i as int].enabled == on);
                Some((name, on))
            },
        }
    }

    /// Renames a script. A name UE4SS keeps is refused (`Err` with the
    /// message to show); else the script takes the name and its old name is
    /// returned (`None` for an ID not listed).
    pub fn rename(&mut self, id: u32, new_name: &str) -> (r: Result<Option<String>, String>)
        ensures
            spec_is_blocklisted(new_name@) ==> (r matches Err(m) && m@ == "\""@ + new_name@
                + "\" is a reserved name and can't be used."@ && final(self).list() == old(self).list()),
            !spec_is_blocklisted(new_name@) ==> match r {
                Ok(None) => final(self).list() == old(self).list() && forall|k: int|
                    0 <= k < old(self).list().len() ==> #[trigger] old(self).list()[k].id != id,
                Ok(Some(old_name)) => exists|i: int|
                    0 <= i < old(self).list().len() && old(self).list()[i].id == id && old_name@
                        == old(self).list()[i].name@ && final(self).list()[i].name@ == new_name@
                        && final(self).list()[i].id == id && final(self).list().len() == old(self).list().len(),
                Err(_) => false,
            },
            final(self).next() == old(self).next(),
    {
        if is_blocklisted_name(new_name) {
            let a = to_chars("\"");
            let b = to_chars(new_name);
            let c = to_chars("\" is a reserved name and can't be used.");
            return Err(from_chars(concat_chars(concat_chars(a.as_slice(), b.as_slice()).as_slice(), c.as_slice()).as_slice()));
        }
        match self.position(id) {
            None => Ok(None),
            Some(i) => {
                let mut s = self.scripts.remove(i);
                let old_name = from_chars(to_chars(s.name.as_str()).as_slice());
                s.name = from_chars(to_chars(new_name).as_slice());
                self.scripts.insert(i, s);
                Ok(Some(old_name))
            },
        }
    }

    /// Removes a script from the list; returns its name, or `None` for an
    /// ID not listed.
    pub fn delete(&mut self, id: u32) -> (r: Option<String>)
        ensures
            match r {
                None => final(self).list() == old(self).list() && forall|k: int|
                    0 <= k < old(self).list().len() ==> #[trigger] old(self).list()[k].id != id,
                Some(name) => exists|i: int|
                    0 <= i < old(self).list().len() && old(self).list()[i].id == id && name@ == old(self).list()[i].name@
                        && final(self).list() == old(self).list().remove(i) && forall|k: int|
                        0 <= k < i ==> #[trigger] old(self).list()[k].id != id,
            },
            final(self).next() == old(self).next(),
    {
        match self.position(id) {
            None => None,
            Some(i) => {
                let s = self.scripts.remove(i);
                Some(s.name)
            },
        }
    }

    /// Keeps edited code for a script; returns its name, or `None` for an ID
    /// not listed.
    pub fn save_code(&mut self, id: u32, code: String) -> (r: Option<String>)
        ensures
            match r {
                None => final(self).list() == old(self).list() && forall|k: int|
                    0 <= k < old(self).list().len() ==> #[trigger] old(self).list()[k].id != id,
                Some(name) => exists|i: int|
                    0 <= i < old(self).list().len() && old(self).list()[i].id == id && name@ == old(self).list()[i].name@
                        && (forall|k: int| 0 <= k < i ==> #[trigger] old(self).list()[k].id != id)
                        && final(self).list() == old(self).list().update(
                        i,
                        (LuaScript {
                            id: old(self).list()[i].id,
                            name: old(self).list()[i].name,
                            enabled: old(self).list()[i].enabled,
                            code: code,
                        }),
                    ),
            },
            final(self).next() == old(self).next(),
    {
        match self.position(id) {
            None => None,
            Some(i) => {
                let ghost before = self.scripts@;
                let mut s = self.scripts.remove(i);
                s.code = code;
                let name = from_chars(to_chars(s.name.as_str()).as_slice());
                self.scripts.insert(i, s);
                assert(self.scripts@ =~= before.update(
                    i as int,
                    LuaScript {
                        id: before[i as int].id,
                        name: before[i as int].name,
                        enabled: before[i as int].enabled,
                        code: code,
                    },
                ));
                Some(name)
            },
        }
    }
}

} // verus!
