//! The add-on manager's rules: the `.auadd` description files, which
//! config switch belongs to which add-on, where an add-on's files come
//! from, and when it counts as installed, enabled or out of date.
use vstd::prelude::*;
use crate::filenames::{byte_len, byte_len_within, extension, extension_exec};
use crate::idset::{owned, same_text};
use crate::oneclick::{parse_u32, parse_u32_exec};
use crate::text::{
    concat_chars, ends_with, ends_with_chars, eq_ignore_ascii_case, eq_ignore_ascii_case_chars,
    from_chars, join, join_strings, lines, lines_exec, slice_chars, split_on, split_on_exec,
    split_once, split_once_chars, starts_with, starts_with_chars, strings_view, to_chars, trim,
    trim_chars, TrimSet,
};

verus! {

/// The add-ons Aurora knows, each with its config switch.
pub open spec fn addon_keys() -> Seq<(Seq<char>, Seq<char>)> {
    seq![
        ("No 3D Driving Waypoint"@, "drv_lin"@),
        ("Hide UID"@, "uid_rem"@),
        ("Hide Notification Dots"@, "nor_rem"@),
        ("Censorship Remover"@, "csn_rem"@),
        ("Cooldown Timers"@, "col_tim"@),
        ("Collectible Highlighter"@, "collectibles"@),
    ]
}

fn addon_key_list() -> (r: Vec<(&'static str, &'static str)>)
    ensures
        r@.map_values(|p: (&'static str, &'static str)| (p.0@, p.1@)) == addon_keys(),
{
    let v: Vec<(&'static str, &'static str)> = vec![
        ("No 3D Driving Waypoint", "drv_lin"),
        ("Hide UID", "uid_rem"),
        ("Hide Notification Dots", "nor_rem"),
        ("Censorship Remover", "csn_rem"),
        ("Cooldown Timers", "col_tim"),
        ("Collectible Highlighter", "collectibles"),
    ];
    assert(v@.map_values(|p: (&'static str, &'static str)| (p.0@, p.1@)) =~= addon_keys());
    v
}

/// The config switch of an add-on, by its name: the first entry of the
/// table with that name.
pub open spec fn spec_config_key(name: Seq<char>) -> Option<Seq<char>> {
    first_key(addon_keys(), name)
}

pub open spec fn first_key(table: Seq<(Seq<char>, Seq<char>)>, name: Seq<char>) -> Option<Seq<char>>
    decreases table.len(),
{
    if table.len() == 0 {
        None
    } else if table[0].0 == name {
        Some(table[0].1)
    } else {
        first_key(table.drop_first(), name)
    }
}

proof fn lemma_map_push<A, B>(s: Seq<A>, i: int, f: spec_fn(A) -> B)
    requires
        0 <= i < s.len(),
    ensures
        s.subrange(0, i + 1).map_values(f) == s.subrange(0, i).map_values(f).push(f(s[i])),
{
    assert(s.subrange(0, i + 1).map_values(f) =~= s.subrange(0, i).map_values(f).push(f(s[i])));
}

pub fn config_key(name: &str) -> (r: Option<&'static str>)
    ensures
        match r {
            Some(k) => spec_config_key(name@) == Some(k@),
            None => spec_config_key(name@) is None,
        },
{
    let table = addon_key_list();
    let ghost tv = table@.map_values(|p: (&'static str, &'static str)| (p.0@, p.1@));
    let mut i: usize = 0;
    assert(tv.subrange(0, tv.len() as int) =~= tv);
    while i < table.len()
        invariant
            i <= table@.len(),
            tv == table@.map_values(|p: (&'static str, &'static str)| (p.0@, p.1@)),
            tv == addon_keys(),
            first_key(tv, name@) == first_key(tv.subrange(i as int, tv.len() as int), name@),
        decreases table.len() - i,
    {
        let ghost rest = tv.subrange(i as int, tv.len() as int);
        assert(rest[0] == (table@[i as int].0@, table@[i as int].1@));
        if same_text(table[i].0, name) {
            return Some(table[i].1);
        }
        assert(rest.drop_first() =~= tv.subrange(i + 1, tv.len() as int));
        i = i + 1;
    }
    None
}

/// One file an add-on installs: its name, where it comes from, and its
/// checksum (or ETag).
pub struct AddonData {
    pub file_name: String,
    pub url: String,
    pub md5: String,
}

impl AddonData {
    pub fn new(file_name: String, url: String, md5: String) -> (r: Self)
        ensures
            r.file_name == file_name,
            r.url == url,
            r.md5 == md5,
    {
        AddonData { file_name, url, md5 }
    }
}

// ---------------------------------------------------------------------
// .auadd files

/// What an `.auadd` file says of its add-on.
pub struct AddonInfo {
    pub name: String,
    pub author: String,
    pub version: String,
    pub description: String,
    pub link: String,
    pub image_url: String,
    pub files: Vec<String>,
}

/// The fields as (name, author, version, description, link, image, files).
pub type InfoView = (Seq<char>, Seq<char>, Seq<char>, Seq<char>, Seq<char>, Seq<char>, Seq<Seq<char>>);

pub open spec fn info_view(a: AddonInfo) -> InfoView {
    (a.name@, a.author@, a.version@, a.description@, a.link@, a.image_url@, strings_view(a.files@))
}

/// What a line `KEY|value` sets: a known key takes the trimmed value (a
/// `FILE` line adds a file); other lines change nothing.
pub open spec fn apply_line(a: InfoView, line: Seq<char>) -> InfoView {
    match split_once(line, '|') {
        None => a,
        Some((k, v)) => {
            let key = trim(k, TrimSet::Whitespace);
            let value = trim(v, TrimSet::Whitespace);
            if key == "NAME"@ {
                (value, a.1, a.2, a.3, a.4, a.5, a.6)
            } else if key == "AUTHOR"@ {
                (a.0, value, a.2, a.3, a.4, a.5, a.6)
            } else if key == "VERSION"@ {
                (a.0, a.1, value, a.3, a.4, a.5, a.6)
            } else if key == "DESCRIPTION"@ {
                (a.0, a.1, a.2, value, a.4, a.5, a.6)
            } else if key == "LINK"@ {
                (a.0, a.1, a.2, a.3, value, a.5, a.6)
            } else if key == "FILE"@ {
                (a.0, a.1, a.2, a.3, a.4, a.5, a.6.push(value))
            } else if key == "IMAGE"@ {
                (a.0, a.1, a.2, a.3, a.4, value, a.6)
            } else {
                a
            }
        },
    }
}

pub open spec fn apply_lines(ls: Seq<Seq<char>>) -> InfoView
    decreases ls.len(),
{
    if ls.len() == 0 {
        (seq![], seq![], seq![], seq![], seq![], seq![], seq![])
    } else {
        apply_line(apply_lines(ls.drop_last()), ls.last())
    }
}

/// An `.auadd` file read line by line.
pub open spec fn spec_parse_auadd(contents: Seq<char>) -> InfoView {
    apply_lines(lines(contents))
}

/// The key a line sets, if it has one: the trimmed text before its first
/// `|`.
pub open spec fn line_key(line: Seq<char>) -> Option<Seq<char>> {
    match split_once(line, '|') {
        Some((k, _)) => Some(trim(k, TrimSet::Whitespace)),
        None => None,
    }
}

/// The trimmed text after a line's first `|`.
pub open spec fn line_value(line: Seq<char>) -> Seq<char> {
    match split_once(line, '|') {
        Some((_, v)) => trim(v, TrimSet::Whitespace),
        None => seq![],
    }
}

/// The keys that name one text field of an add-on.
pub open spec fn is_text_key(key: Seq<char>) -> bool {
    key == "NAME"@ || key == "AUTHOR"@ || key == "VERSION"@ || key == "DESCRIPTION"@ || key == "LINK"@
        || key == "IMAGE"@
}

/// The text field that a key names.
pub open spec fn info_field(a: InfoView, key: Seq<char>) -> Seq<char> {
    if key == "NAME"@ {
        a.0
    } else if key == "AUTHOR"@ {
        a.1
    } else if key == "VERSION"@ {
        a.2
    } else if key == "DESCRIPTION"@ {
        a.3
    } else if key == "LINK"@ {
        a.4
    } else {
        a.5
    }
}

proof fn lemma_keys_differ()
    ensures
        "NAME"@ != "AUTHOR"@, "NAME"@ != "VERSION"@, "NAME"@ != "DESCRIPTION"@, "NAME"@ != "LINK"@,
        "NAME"@ != "FILE"@, "NAME"@ != "IMAGE"@, "AUTHOR"@ != "VERSION"@, "AUTHOR"@ != "DESCRIPTION"@,
        "AUTHOR"@ != "LINK"@, "AUTHOR"@ != "FILE"@, "AUTHOR"@ != "IMAGE"@, "VERSION"@ != "DESCRIPTION"@,
        "VERSION"@ != "LINK"@, "VERSION"@ != "FILE"@, "VERSION"@ != "IMAGE"@, "DESCRIPTION"@ != "LINK"@,
        "DESCRIPTION"@ != "FILE"@, "DESCRIPTION"@ != "IMAGE"@, "LINK"@ != "FILE"@, "LINK"@ != "IMAGE"@,
        "FILE"@ != "IMAGE"@,
{
    reveal_strlit("NAME");
    reveal_strlit("AUTHOR");
    reveal_strlit("VERSION");
    reveal_strlit("DESCRIPTION");
    reveal_strlit("LINK");
    reveal_strlit("FILE");
    reveal_strlit("IMAGE");
    let ks = seq!["NAME"@, "AUTHOR"@, "VERSION"@, "DESCRIPTION"@, "LINK"@, "FILE"@, "IMAGE"@];
    assert(ks[0][0] == 'N' && ks[1][0] == 'A' && ks[2][0] == 'V' && ks[3][0] == 'D' && ks[4][0] == 'L'
        && ks[5][0] == 'F' && ks[6][0] == 'I');
    assert forall|i: int, j: int| 0 <= i < j < 7 implies ks[i] != ks[j] by {
        assert(ks[i][0] != ks[j][0]);
    }
    assert(ks[0] != ks[1] && ks[0] != ks[2] && ks[0] != ks[3] && ks[0] != ks[4] && ks[0] != ks[5] && ks[0] != ks[6]);
    assert(ks[1] != ks[2] && ks[1] != ks[3] && ks[1] != ks[4] && ks[1] != ks[5] && ks[1] != ks[6]);
    assert(ks[2] != ks[3] && ks[2] != ks[4] && ks[2] != ks[5] && ks[2] != ks[6]);
    assert(ks[3] != ks[4] && ks[3] != ks[5] && ks[3] != ks[6]);
    assert(ks[4] != ks[5] && ks[4] != ks[6] && ks[5] != ks[6]);
}

proof fn lemma_apply_line_field(a: InfoView, line: Seq<char>, key: Seq<char>)
    requires
        is_text_key(key),
    ensures
        line_key(line) == Some(key) ==> info_field(apply_line(a, line), key) == line_value(line),
        line_key(line) != Some(key) ==> info_field(apply_line(a, line), key) == info_field(a, key),
{
    lemma_keys_differ();
}

proof fn lemma_last_key_line(ls: Seq<Seq<char>>, key: Seq<char>, k: int)
    requires
        is_text_key(key),
        0 <= k < ls.len(),
        line_key(ls[k]) == Some(key),
        forall|j: int| k < j < ls.len() ==> line_key(#[trigger] ls[j]) != Some(key),
    ensures
        info_field(apply_lines(ls), key) == line_value(ls[k]),
    decreases ls.len(),
{
    lemma_apply_line_field(apply_lines(ls.drop_last()), ls.last(), key);
    if k < ls.len() - 1 {
        assert forall|j: int| k < j < ls.drop_last().len() implies line_key(#[trigger] ls.drop_last()[j]) != Some(key) by {
            assert(ls.drop_last()[j] == ls[j]);
        }
        lemma_last_key_line(ls.drop_last(), key, k);
    }
}

proof fn lemma_no_key_line(ls: Seq<Seq<char>>, key: Seq<char>)
    requires
        is_text_key(key),
        forall|j: int| 0 <= j < ls.len() ==> line_key(#[trigger] ls[j]) != Some(key),
    ensures
        info_field(apply_lines(ls), key) == Seq::<char>::empty(),
    decreases ls.len(),
{
    if ls.len() > 0 {
        lemma_apply_line_field(apply_lines(ls.drop_last()), ls.last(), key);
        assert forall|j: int| 0 <= j < ls.drop_last().len() implies line_key(#[trigger] ls.drop_last()[j]) != Some(key) by {
            assert(ls.drop_last()[j] == ls[j]);
        }
        lemma_no_key_line(ls.drop_last(), key);
    }
}

/// In an `.auadd` file the last line `KEY|value` for a text field (name,
/// author, version, description, link, image) decides it: the field is
/// that value, trimmed, whatever other lines say; a field no line names
/// stays empty.
pub proof fn law_last_line_sets_field(contents: Seq<char>, key: Seq<char>, k: int)
    requires
        is_text_key(key),
    ensures
        ({
            let ls = lines(contents);
            0 <= k < ls.len() && line_key(ls[k]) == Some(key) && (forall|j: int|
                k < j < ls.len() ==> line_key(#[trigger] ls[j]) != Some(key)) ==> info_field(
                spec_parse_auadd(contents),
                key,
            ) == line_value(ls[k])
        }),
        (forall|j: int| 0 <= j < lines(contents).len() ==> line_key(#[trigger] lines(contents)[j]) != Some(key))
            ==> info_field(spec_parse_auadd(contents), key) == Seq::<char>::empty(),
{
    let ls = lines(contents);
    if 0 <= k < ls.len() && line_key(ls[k]) == Some(key) && (forall|j: int|
        k < j < ls.len() ==> line_key(#[trigger] ls[j]) != Some(key)) {
        lemma_last_key_line(ls, key, k);
    }
    if forall|j: int| 0 <= j < ls.len() ==> line_key(#[trigger] ls[j]) != Some(key) {
        lemma_no_key_line(ls, key);
    }
}

/// Whether a line names a file of the add-on.
pub open spec fn is_file_line(line: Seq<char>) -> bool {
    line_key(line) == Some("FILE"@)
}

proof fn lemma_files_listed(ls: Seq<Seq<char>>)
    ensures
        apply_lines(ls).6 == ls.filter(|l: Seq<char>| is_file_line(l)).map_values(|l: Seq<char>| line_value(l)),
    decreases ls.len(),
{
    reveal(Seq::filter);
    if ls.len() > 0 {
        lemma_files_listed(ls.drop_last());
        lemma_keys_differ();
        let prev = ls.drop_last().filter(|l: Seq<char>| is_file_line(l));
        if is_file_line(ls.last()) {
            assert(ls.filter(|l: Seq<char>| is_file_line(l)) == prev.push(ls.last()));
            assert(prev.push(ls.last()).map_values(|l: Seq<char>| line_value(l)) =~= prev.map_values(
                |l: Seq<char>| line_value(l),
            ).push(line_value(ls.last())));
        } else {
            assert(ls.filter(|l: Seq<char>| is_file_line(l)) == prev);
        }
    } else {
        assert(ls.filter(|l: Seq<char>| is_file_line(l)) =~= Seq::<Seq<char>>::empty());
    }
}

/// An `.auadd` file lists as its add-on's files the values of its `FILE`
/// lines, trimmed, in the order they come, and no others.
pub proof fn law_file_lines_listed(contents: Seq<char>)
    ensures
        spec_parse_auadd(contents).6 == lines(contents).filter(|l: Seq<char>| is_file_line(l)).map_values(
            |l: Seq<char>| line_value(l),
        ),
{
    lemma_files_listed(lines(contents));
}

fn is_key(k: &[char], name: &str) -> (r: bool)
    ensures
        r == (k@ == name@),
{
    let n = to_chars(name);
    crate::text::eq_chars(k, n.as_slice())
}

/// Reads an `.auadd` file.
pub fn parse_auadd(contents: &str) -> (r: AddonInfo)
    ensures
        info_view(r) == spec_parse_auadd(contents@),
{
    let ls = lines_exec(to_chars(contents).as_slice());
    let ghost lv = ls@.map_values(|v: Vec<char>| v@);
    assert(lv == lines(contents@));
    let mut a = AddonInfo {
        name: String::new(),
        author: String::new(),
        version: String::new(),
        description: String::new(),
        link: String::new(),
        image_url: String::new(),
        files: Vec::new(),
    };
    assert(info_view(a) =~= apply_lines(lv.subrange(0, 0)));
    let mut i: usize = 0;
    while i < ls.len()
        invariant
            i <= ls@.len(),
            lv == ls@.map_values(|v: Vec<char>| v@),
            info_view(a) == apply_lines(lv.subrange(0, i as int)),
        decreases ls.len() - i,
    {
        assert(lv.subrange(0, i + 1).drop_last() =~= lv.subrange(0, i as int));
        assert(lv.subrange(0, i + 1).last() == ls@[i as int]@);
        let ghost before = info_view(a);
        match split_once_chars(ls[i].as_slice(), '|') {
            None => {},
            Some((k, v)) => {
                let key = trim_chars(k.as_slice(), TrimSet::Whitespace);
                let value = trim_chars(v.as_slice(), TrimSet::Whitespace);
                let text = from_chars(value.as_slice());
                if is_key(key.as_slice(), "NAME") {
                    a.name = text;
                } else if is_key(key.as_slice(), "AUTHOR") {
                    a.author = text;
                } else if is_key(key.as_slice(), "VERSION") {
                    a.version = text;
                } else if is_key(key.as_slice(), "DESCRIPTION") {
                    a.description = text;
                } else if is_key(key.as_slice(), "LINK") {
                    a.link = text;
                } else if is_key(key.as_slice(), "FILE") {
                    let ghost fb = strings_view(a.files@);
                    a.files.push(text);
                    assert(strings_view(a.files@) =~= fb.push(value@));
                } else if is_key(key.as_slice(), "IMAGE") {
                    a.image_url = text;
                }
            },
        }
        assert(info_view(a) == apply_line(before, ls@[i as int]@));
        i = i + 1;
    }
    assert(lv.subrange(0, lv.len() as int) =~= lv);
    a
}

// ---------------------------------------------------------------------
// Files and checksums

/// The checksum an installed add-on is compared by: its files' checksums,
/// trimmed and joined by commas, or nothing when there are no files or one
/// lacks a checksum.
pub open spec fn spec_combined_md5(md5s: Seq<Seq<char>>) -> Seq<char> {
    if md5s.len() == 0 || exists|i: int| 0 <= i < md5s.len() && trim(#[trigger] md5s[i], TrimSet::Whitespace).len() == 0 {
        seq![]
    } else {
        join(md5s.map_values(|m: Seq<char>| trim(m, TrimSet::Whitespace)), ","@)
    }
}

pub open spec fn md5s_of(d: Seq<AddonData>) -> Seq<Seq<char>> {
    d.map_values(|x: AddonData| x.md5@)
}

pub fn combined_md5(install_data: &Vec<AddonData>) -> (r: String)
    ensures
        r@ == spec_combined_md5(md5s_of(install_data@)),
{
    let ghost ms = md5s_of(install_data@);
    if install_data.len() == 0 {
        return String::new();
    }
    let mut trimmed: Vec<String> = Vec::new();
    let mut i: usize = 0;
    while i < install_data.len()
        invariant
            i <= install_data@.len(),
            ms == md5s_of(install_data@),
            strings_view(trimmed@) == ms.subrange(0, i as int).map_values(|m: Seq<char>| trim(m, TrimSet::Whitespace)),
            forall|k: int| 0 <= k < i ==> trim(#[trigger] ms[k], TrimSet::Whitespace).len() > 0,
        decreases install_data.len() - i,
    {
        assert(ms[i as int] == install_data@[i as int].md5@);
        let t = trim_chars(to_chars(install_data[i].md5.as_str()).as_slice(), TrimSet::Whitespace);
        if t.len() == 0 {
            return String::new();
        }
        let ghost before = strings_view(trimmed@);
        let tt = from_chars(t.as_slice());
        trimmed.push(tt);
        assert(strings_view(trimmed@) =~= before.push(t@));
        proof {
            lemma_map_push(ms, i as int, |m: Seq<char>| trim(m, TrimSet::Whitespace));
        }
        i = i + 1;
    }
    assert(ms.subrange(0, ms.len() as int) =~= ms);
    from_chars(join_strings(&trimmed, ",").as_slice())
}

/// The file name a direct link downloads to: its last path segment, up to
/// a `?` or `#`.
pub open spec fn spec_link_file_name(url: Seq<char>) -> Seq<char> {
    let last = split_on(url, '/').last();
    let q = split_on(last, '?')[0];
    split_on(q, '#')[0]
}

/// An ETag as the server sends it, without its weak marks and quotes.
pub open spec fn spec_clean_etag(raw: Seq<char>) -> Seq<char> {
    trim_quotes(strip_weak(raw))
}

pub open spec fn strip_weak(s: Seq<char>) -> Seq<char>
    decreases s.len(),
{
    if s.len() >= 2 && s[0] == 'W' && s[1] == '/' {
        strip_weak(s.subrange(2, s.len() as int))
    } else {
        s
    }
}

pub open spec fn trim_quotes(s: Seq<char>) -> Seq<char>
    decreases s.len(),
{
    if s.len() > 0 && s[0] == '"' {
        trim_quotes(s.drop_first())
    } else if s.len() > 0 && s.last() == '"' {
        trim_quotes(s.drop_last())
    } else {
        s
    }
}

fn strip_weak_exec(s: &[char]) -> (r: Vec<char>)
    ensures
        r@ == strip_weak(s@),
{
    let mut start: usize = 0;
    assert(s@.subrange(0, s@.len() as int) =~= s@);
    while s.len() - start >= 2 && s[start] == 'W' && s[start + 1] == '/'
        invariant
            start <= s@.len(),
            strip_weak(s@) == strip_weak(s@.subrange(start as int, s@.len() as int)),
        decreases s.len() - start,
    {
        assert(s@.subrange(start as int, s@.len() as int).subrange(2, s@.len() - start) =~= s@.subrange(
            start + 2,
            s@.len() as int,
        ));
        start = start + 2;
    }
    let r = slice_chars(s, start, s.len());
    r
}

fn trim_quotes_exec(s: &[char]) -> (r: Vec<char>)
    ensures
        r@ == trim_quotes(s@),
{
    let mut lo: usize = 0;
    let mut hi: usize = s.len();
    assert(s@.subrange(0, s@.len() as int) =~= s@);
    while lo < hi && (s[lo] == '"' || s[hi - 1] == '"')
        invariant
            lo <= hi <= s@.len(),
            trim_quotes(s@) == trim_quotes(s@.subrange(lo as int, hi as int)),
        decreases hi - lo,
    {
        if s[lo] == '"' {
            assert(s@.subrange(lo as int, hi as int).drop_first() =~= s@.subrange(lo + 1, hi as int));
            lo = lo + 1;
        } else {
            assert(s@.subrange(lo as int, hi as int).drop_last() =~= s@.subrange(lo as int, hi - 1));
            hi = hi - 1;
        }
    }
    slice_chars(s, lo, hi)
}

pub fn clean_etag(raw: &str) -> (r: String)
    ensures
        r@ == spec_clean_etag(raw@),
{
    let a = strip_weak_exec(to_chars(raw).as_slice());
    let b = trim_quotes_exec(a.as_slice());
    from_chars(b.as_slice())
}

/// The file a direct link installs, with the link's ETag (already read from
/// the server) as its checksum.
pub fn direct_file(url: &str, raw_etag: &str) -> (r: AddonData)
    ensures
        r.file_name@ == spec_link_file_name(url@),
        r.url@ == url@,
        r.md5@ == spec_clean_etag(raw_etag@),
{
    let segs = split_on_exec(to_chars(url).as_slice(), '/');
    proof {
        crate::text::lemma_split_on_nonempty(url@, '/');
    }
    let ghost sv = segs@.map_values(|v: Vec<char>| v@);
    let last = &segs[segs.len() - 1];
    assert(last@ == sv.last());
    let qs = split_on_exec(last.as_slice(), '?');
    proof {
        crate::text::lemma_split_on_nonempty(last@, '?');
    }
    let q = &qs[0];
    assert(q@ == qs@.map_values(|v: Vec<char>| v@)[0]);
    let hs = split_on_exec(q.as_slice(), '#');
    proof {
        crate::text::lemma_split_on_nonempty(q@, '#');
    }
    let h = &hs[0];
    assert(h@ == hs@.map_values(|v: Vec<char>| v@)[0]);
    AddonData::new(from_chars(h.as_slice()), owned(url), clean_etag(raw_etag))
}

/// The GameBanana mod an add-on's link names: its last path segment as a
/// number, else 0.
pub open spec fn spec_link_mod_id(link: Seq<char>) -> u32 {
    match parse_u32(split_on(link, '/').last()) {
        Some(id) => id,
        None => 0,
    }
}

pub fn link_mod_id(link: &str) -> (r: u32)
    ensures
        r == spec_link_mod_id(link@),
{
    let segs = split_on_exec(to_chars(link).as_slice(), '/');
    proof {
        crate::text::lemma_split_on_nonempty(link@, '/');
    }
    let last = &segs[segs.len() - 1];
    assert(last@ == segs@.map_values(|v: Vec<char>| v@).last());
    match parse_u32_exec(last.as_slice()) {
        Some(id) => id,
        None => 0,
    }
}

// ---------------------------------------------------------------------
// Status

pub open spec fn disabled_mark() -> Seq<char> {
    ".disabled"@
}

/// The state of an add-on's files: installed when it has payload files,
/// enabled when installed and none is switched off, out of date when
/// installed and the recorded checksum (trimmed) differs from a known
/// current one.
pub struct AddonStatus {
    pub installed: bool,
    pub enabled: bool,
    pub update_available: bool,
}

pub open spec fn spec_status(payload: Seq<Seq<char>>, local_hash: Seq<char>, remote_hash: Seq<char>) -> (bool, bool, bool) {
    let installed = payload.len() > 0;
    let enabled = installed && forall|i: int| 0 <= i < payload.len() ==> !ends_with(#[trigger] payload[i], disabled_mark());
    let update = installed && remote_hash.len() > 0 && trim(local_hash, TrimSet::Whitespace) != remote_hash;
    (installed, enabled, update)
}

pub fn status(payload: &Vec<String>, local_hash: &str, remote_hash: &str) -> (r: AddonStatus)
    ensures
        (r.installed, r.enabled, r.update_available) == spec_status(strings_view(payload@), local_hash@, remote_hash@),
{
    let ghost pv = strings_view(payload@);
    let installed = payload.len() > 0;
    let mark = to_chars(".disabled");
    let mut all_on = true;
    let mut i: usize = 0;
    while i < payload.len()
        invariant
            i <= payload@.len(),
            pv == strings_view(payload@),
            mark@ == disabled_mark(),
            all_on == forall|k: int| 0 <= k < i ==> !ends_with(#[trigger] pv[k], disabled_mark()),
        decreases payload.len() - i,
    {
        assert(pv[i as int] == payload@[i as int]@);
        if ends_with_chars(to_chars(payload[i].as_str()).as_slice(), mark.as_slice()) {
            all_on = false;
        }
        i = i + 1;
    }
    let enabled = installed && all_on;
    let local = trim_chars(to_chars(local_hash).as_slice(), TrimSet::Whitespace);
    let remote = to_chars(remote_hash);
    let update = installed && remote.len() > 0 && !crate::text::eq_chars(local.as_slice(), remote.as_slice());
    AddonStatus { installed, enabled, update_available: update }
}

/// Whether a click on an add-on's button switches it (installed and up to
/// date) rather than installing or updating it.
pub fn is_toggle(installed: bool, update_available: bool) -> (r: bool)
    ensures
        r == (installed && !update_available),
{
    installed && !update_available
}

/// The renames that switch an add-on's payload files: enabling drops
/// `.disabled` where a file has it; disabling adds it where a file lacks it.
/// Returns (index, new path) pairs.
pub open spec fn spec_switch_plan(paths: Seq<Seq<char>>, enable: bool) -> Seq<(int, Seq<char>)>
    decreases paths.len(),
{
    if paths.len() == 0 {
        seq![]
    } else {
        let earlier = spec_switch_plan(paths.drop_last(), enable);
        let p = paths.last();
        let i = paths.len() - 1;
        if enable && ends_with(p, disabled_mark()) {
            earlier.push((i, p.subrange(0, p.len() - disabled_mark().len())))
        } else if !enable && !ends_with(p, disabled_mark()) {
            earlier.push((i, p + disabled_mark()))
        } else {
            earlier
        }
    }
}

/// The path a payload file gets when the add-on is switched on or off.
pub open spec fn switched_path(p: Seq<char>, enable: bool) -> Seq<char> {
    if enable && ends_with(p, disabled_mark()) {
        p.subrange(0, p.len() - disabled_mark().len())
    } else if !enable && !ends_with(p, disabled_mark()) {
        p + disabled_mark()
    } else {
        p
    }
}

/// Switching an add-on off and on again gives a payload file without the
/// `.disabled` mark its path back, and switching it on and off again does
/// the same for that path with the mark; and a switch renames each file to
/// its switched path, in order, leaving out those it would not change.
pub proof fn law_switch_round_trip(p: Seq<char>, paths: Seq<Seq<char>>, enable: bool)
    ensures
        !ends_with(p, disabled_mark()) ==> switched_path(switched_path(p, false), true) == p,
        !ends_with(p, disabled_mark()) ==> switched_path(switched_path(p + disabled_mark(), true), false) == p
            + disabled_mark(),
        forall|k: int|
            0 <= k < spec_switch_plan(paths, enable).len() ==> {
                let e = #[trigger] spec_switch_plan(paths, enable)[k];
                &&& 0 <= e.0 < paths.len()
                &&& e.1 == switched_path(paths[e.0], enable)
                &&& e.1 != paths[e.0]
            },
    decreases paths.len(),
{
    reveal_strlit(".disabled");
    let m = disabled_mark();
    let q = p + m;
    assert(q.subrange(q.len() - m.len(), q.len() as int) =~= m);
    assert(q.subrange(0, q.len() - m.len()) =~= p);
    if paths.len() > 0 {
        law_switch_round_trip(p, paths.drop_last(), enable);
        let last = paths.last();
        let plan = spec_switch_plan(paths, enable);
        let earlier = spec_switch_plan(paths.drop_last(), enable);
        assert forall|k: int| 0 <= k < plan.len() implies {
            let e = #[trigger] plan[k];
            &&& 0 <= e.0 < paths.len()
            &&& e.1 == switched_path(paths[e.0], enable)
            &&& e.1 != paths[e.0]
        } by {
            if k < earlier.len() {
                assert(plan[k] == earlier[k]);
                assert(paths[earlier[k].0] == paths.drop_last()[earlier[k].0]);
            } else {
                assert(plan[k].0 == paths.len() - 1);
                if enable {
                    assert(plan[k].1.len() < last.len());
                } else {
                    assert(plan[k].1.len() > last.len());
                }
            }
        }
    }
}

pub fn switch_plan(paths: &Vec<String>, enable: bool) -> (r: Vec<(usize, String)>)
    ensures
        r@.map_values(|x: (usize, String)| (x.0 as int, x.1@)) == spec_switch_plan(strings_view(paths@), enable),
{
    let ghost pv = strings_view(paths@);
    let mark = to_chars(".disabled");
    let mut plan: Vec<(usize, String)> = Vec::new();
    let mut i: usize = 0;
    while i < paths.len()
        invariant
            i <= paths@.len(),
            pv == strings_view(paths@),
            mark@ == disabled_mark(),
            plan@.map_values(|x: (usize, String)| (x.0 as int, x.1@)) == spec_switch_plan(pv.subrange(0, i as int), enable),
        decreases paths.len() - i,
    {
        let p = to_chars(paths[i].as_str());
        assert(pv.subrange(0, i + 1).drop_last() =~= pv.subrange(0, i as int));
        assert(pv.subrange(0, i + 1).last() == p@);
        let ghost before = plan@.map_values(|x: (usize, String)| (x.0 as int, x.1@));
        let marked = ends_with_chars(p.as_slice(), mark.as_slice());
        if enable && marked {
            let stem = slice_chars(p.as_slice(), 0, p.len() - mark.len());
            plan.push((i, from_chars(stem.as_slice())));
            assert(plan@.map_values(|x: (usize, String)| (x.0 as int, x.1@)) =~= before.push((i as int, stem@)));
        } else if !enable && !marked {
            let renamed = concat_chars(p.as_slice(), mark.as_slice());
            plan.push((i, from_chars(renamed.as_slice())));
            assert(plan@.map_values(|x: (usize, String)| (x.0 as int, x.1@)) =~= before.push((i as int, renamed@)));
        }
        i = i + 1;
    }
    assert(pv.subrange(0, pv.len() as int) =~= pv);
    plan
}

/// Whether a file of an add-on's folder stays when the add-on is deleted:
/// its `.auadd` description does.
pub fn keep_on_delete(name: &str) -> (r: bool)
    ensures
        r == (extension(name@) matches Some(e) && eq_ignore_ascii_case(e, "auadd"@)),
{
    match extension_exec(to_chars(name).as_slice()) {
        Some(e) => eq_ignore_ascii_case_chars(e.as_slice(), to_chars("auadd").as_slice()),
        None => false,
    }
}

/// The config switches a scan writes: for each known add-on, whether the
/// scan found it enabled (the last finding counts), else off.
pub open spec fn spec_switch_values(found: Seq<(Seq<char>, bool)>) -> Seq<(Seq<char>, bool)> {
    addon_keys().map_values(|p: (Seq<char>, Seq<char>)| (p.1, last_finding(found, p.1)))
}

pub open spec fn last_finding(found: Seq<(Seq<char>, bool)>, key: Seq<char>) -> bool
    decreases found.len(),
{
    if found.len() == 0 {
        false
    } else if found.last().0 == key {
        found.last().1
    } else {
        last_finding(found.drop_last(), key)
    }
}

fn last_finding_exec(found: &Vec<(&'static str, bool)>, key: &str) -> (r: bool)
    ensures
        r == last_finding(found@.map_values(|p: (&'static str, bool)| (p.0@, p.1)), key@),
{
    let ghost fv = found@.map_values(|p: (&'static str, bool)| (p.0@, p.1));
    let mut j = found.len();
    assert(fv.subrange(0, fv.len() as int) =~= fv);
    while j > 0
        invariant
            j <= found@.len(),
            fv == found@.map_values(|p: (&'static str, bool)| (p.0@, p.1)),
            last_finding(fv, key@) == last_finding(fv.subrange(0, j as int), key@),
        decreases j,
    {
        assert(fv.subrange(0, j as int).drop_last() =~= fv.subrange(0, j - 1));
        assert(fv.subrange(0, j as int).last() == fv[j - 1]);
        if same_text(found[j - 1].0, key) {
            return found[j - 1].1;
        }
        j = j - 1;
    }
    false
}

/// The config switch of every known add-on, from what a scan found (each
/// add-on's switch and whether it is enabled).
pub fn switch_values(found: &Vec<(&'static str, bool)>) -> (r: Vec<(&'static str, bool)>)
    ensures
        r@.map_values(|p: (&'static str, bool)| (p.0@, p.1)) == spec_switch_values(
            found@.map_values(|p: (&'static str, bool)| (p.0@, p.1)),
        ),
{
    let ghost fv = found@.map_values(|p: (&'static str, bool)| (p.0@, p.1));
    let table = addon_key_list();
    let ghost tv = table@.map_values(|p: (&'static str, &'static str)| (p.0@, p.1@));
    let mut out: Vec<(&'static str, bool)> = Vec::new();
    let mut i: usize = 0;
    while i < table.len()
        invariant
            i <= table@.len(),
            tv == table@.map_values(|p: (&'static str, &'static str)| (p.0@, p.1@)),
            tv == addon_keys(),
            fv == found@.map_values(|p: (&'static str, bool)| (p.0@, p.1)),
            out@.map_values(|p: (&'static str, bool)| (p.0@, p.1)) == tv.subrange(0, i as int).map_values(
                |p: (Seq<char>, Seq<char>)| (p.1, last_finding(fv, p.1)),
            ),
        decreases table.len() - i,
    {
        let key = table[i].1;
        assert(tv[i as int] == (table@[i as int].0@, key@));
        let v = last_finding_exec(found, key);
        let ghost before = out@.map_values(|p: (&'static str, bool)| (p.0@, p.1));
        out.push((key, v));
        assert(out@.map_values(|p: (&'static str, bool)| (p.0@, p.1)) =~= before.push((key@, v)));
        proof {
            lemma_map_push(tv, i as int, |p: (Seq<char>, Seq<char>)| (p.1, last_finding(fv, p.1)));
        }
        i = i + 1;
    }
    assert(tv.subrange(0, tv.len() as int) =~= tv);
    out
}

// ---------------------------------------------------------------------
// Cached images

/// What `char::is_alphanumeric` returns for a character.
pub uninterp spec fn alphanumeric(c: char) -> bool;

/// `char::is_alphanumeric`: the result is `alphanumeric` of the character;
/// among ASCII characters exactly the letters and digits are alphanumeric.
#[verifier::external_body]
fn is_alphanumeric(c: char) -> (r: bool)
    ensures
        r == alphanumeric(c),
        (c as u32) < 0x80 ==> (r == (('a' <= c && c <= 'z') || ('A' <= c && c <= 'Z') || ('0' <= c && c <= '9'))),
{
    c.is_alphanumeric()
}

/// What `BuildHasherDefault::<DefaultHasher>::default().hash_one(..)` gives
/// for a text: the hash of a fresh, unseeded `DefaultHasher`.
pub uninterp spec fn default_hash(s: Seq<char>) -> u64;

/// `BuildHasher::hash_one` with `BuildHasherDefault<DefaultHasher>`: the
/// hash of the URL, named `default_hash`. Such a hasher is not seeded per
/// process, so the same URL gives the same hash.
#[verifier::external_body]
fn url_hash(url: &str) -> (r: u64)
    ensures
        r == default_hash(url@),
{
    std::hash::BuildHasher::hash_one(&std::hash::BuildHasherDefault::<std::collections::hash_map::DefaultHasher>::default(), url)
}

pub open spec fn hex_char(d: nat) -> char {
    if d < 10 {
        ((d + 48) as u32) as char
    } else {
        ((d + 87) as u32) as char
    }
}

/// The `n` lowest hexadecimal digits of `h`, in lower case, the most
/// significant first: `{:016x}` for `n` of 16.
pub open spec fn hex_digits(h: nat, n: nat) -> Seq<char>
    decreases n,
{
    if n == 0 {
        seq![]
    } else {
        hex_digits(h / 16, (n - 1) as nat).push(hex_char(h % 16))
    }
}

fn hex_digits_exec(h: u64, n: usize) -> (r: Vec<char>)
    ensures
        r@ == hex_digits(h as nat, n as nat),
    decreases n,
{
    if n == 0 {
        Vec::new()
    } else {
        let mut v = hex_digits_exec(h / 16, n - 1);
        let d = h % 16;
        let c: char = if d < 10 {
            char_of(48 + d)
        } else {
            char_of(87 + d)
        };
        v.push(c);
        v
    }
}

fn char_of(code: u64) -> (r: char)
    requires
        48 <= code < 128,
    ensures
        r == (code as u32) as char,
{
    let b: u8 = code as u8;
    b as char
}

/// The extension an image keeps in the cache: what follows the URL's last
/// `.` (the whole URL where it has none), when it takes at most 5 bytes
/// and is all letters and digits; `img` otherwise.
pub open spec fn cache_ext(url: Seq<char>) -> Seq<char> {
    let pieces = split_on(url, '.');
    let last = pieces.last();
    if byte_len(last) <= 5 && forall|i: int| 0 <= i < last.len() ==> alphanumeric(#[trigger] last[i]) {
        last
    } else {
        "img"@
    }
}

/// The name an add-on image is cached under: the URL's hash in 16 hex
/// digits, a `.` and the kept extension.
pub open spec fn spec_cache_filename(hash: u64, url: Seq<char>) -> Seq<char> {
    hex_digits(hash as nat, 16) + seq!['.'] + cache_ext(url)
}

// ---------------------------------------------------------------------
// The page's state

/// The add-on page: the add-on waiting for the delete confirmation.
pub struct AddonsHandler {
    pending_delete: Option<usize>,
}

impl AddonsHandler {
    pub closed spec fn pending(&self) -> Option<usize> {
        self.pending_delete
    }

    pub fn new() -> (r: Self)
        ensures
            r.pending() is None,
    {
        AddonsHandler { pending_delete: None }
    }

    /// The name an add-on image from `url` is cached under, for the URL's
    /// hash `hash`.
    pub fn cache_filename_for(hash: u64, url: &str) -> (r: String)
        ensures
            r@ == spec_cache_filename(hash, url@),
    {
        let chars = to_chars(url);
        let pieces = split_on_exec(chars.as_slice(), '.');
        proof {
            crate::text::lemma_split_on_nonempty(url@, '.');
        }
        let last = &pieces[pieces.len() - 1];
        assert(last@ == split_on(url@, '.').last());
        let mut all_alnum = true;
        let mut i: usize = 0;
        while i < last.len()
            invariant
                i <= last@.len(),
                all_alnum == forall|k: int| 0 <= k < i ==> alphanumeric(#[trigger] last@[k]),
            decreases last.len() - i,
        {
            if !is_alphanumeric(last[i]) {
                all_alnum = false;
            }
            i = i + 1;
        }
        let ext = if all_alnum && byte_len_within(last.as_slice(), 5).is_some() {
            slice_chars(last.as_slice(), 0, last.len())
        } else {
            to_chars("img")
        };
        assert(ext@ =~= cache_ext(url@));
        let digits = hex_digits_exec(hash, 16);
        let dot = vec!['.'];
        let head = concat_chars(digits.as_slice(), dot.as_slice());
        let name = concat_chars(head.as_slice(), ext.as_slice());
        assert(dot@ =~= seq!['.']);
        from_chars(name.as_slice())
    }

    /// The name an add-on image from `url` is cached under: the URL's hash
    /// (which `DefaultHasher` computes) in 16 hex digits and the kept
    /// extension.
    pub fn cache_filename(url: &str) -> (r: String)
        ensures
            r@ == spec_cache_filename(default_hash(url@), url@),
    {
        let hash = url_hash(url);
        Self::cache_filename_for(hash, url)
    }

    /// Asks to delete the add-on at a position: only an installed add-on
    /// that is not busy can be; it then waits for the confirmation.
    pub fn request_delete(&mut self, index: usize, installed: bool, installing: bool) -> (r: bool)
        ensures
            r == (installed && !installing),
            r ==> final(self).pending() == Some(index),
            !r ==> final(self).pending() == old(self).pending(),
    {
        if !installed || installing {
            return false;
        }
        self.pending_delete = Some(index);
        true
    }

    /// The delete was confirmed: the waiting add-on is handed out, once.
    pub fn confirm_delete(&mut self) -> (r: Option<usize>)
        ensures
            r == old(self).pending(),
            final(self).pending() is None,
    {
        self.pending_delete.take()
    }
}

/// The question asked before deleting an add-on.
pub fn delete_message(name: &str) -> (r: String)
    ensures
        r@ == "\""@ + name@ + "\" will be uninstalled and its files permanently deleted. You can install it again later."@,
{
    let a = to_chars("\"");
    let b = to_chars(name);
    let c = to_chars("\" will be uninstalled and its files permanently deleted. You can install it again later.");
    from_chars(concat_chars(concat_chars(a.as_slice(), b.as_slice()).as_slice(), c.as_slice()).as_slice())
}

} // verus!
