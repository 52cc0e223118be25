//! Character-level text helpers shared by the parsers and rules of the
//! launcher: trimming, searching, splitting and case folding, each with a
//! specification over `Seq<char>`.
use vstd::prelude::*;

verus! {

/// Unicode `White_Space`, the set that `char::is_whitespace` tests.
pub open spec fn is_ws(c: char) -> bool {
    ||| c == ' '
    ||| ('\u{9}' <= c && c <= '\u{d}')
    ||| c == '\u{85}'
    ||| c == '\u{a0}'
    ||| c == '\u{1680}'
    ||| ('\u{2000}' <= c && c <= '\u{200a}')
    ||| c == '\u{2028}'
    ||| c == '\u{2029}'
    ||| c == '\u{202f}'
    ||| c == '\u{205f}'
    ||| c == '\u{3000}'
}

pub fn is_whitespace(c: char) -> (r: bool)
    ensures
        r == is_ws(c),
{
    c == ' ' || ('\u{9}' <= c && c <= '\u{d}') || c == '\u{85}' || c == '\u{a0}' || c
        == '\u{1680}' || ('\u{2000}' <= c && c <= '\u{200a}') || c == '\u{2028}' || c
        == '\u{2029}' || c == '\u{202f}' || c == '\u{205f}' || c == '\u{3000}'
}

/// The sets of characters that the launcher trims from the ends of a text.
#[derive(Clone, Copy, PartialEq, Eq, Debug)]
pub enum TrimSet {
    /// `str::trim`
    Whitespace,
    /// Whitespace and `.`, as file names are trimmed.
    WhitespaceOrDot,
    /// A version's leading `v` or `V`.
    LetterV,
    /// The byte-order mark that some editors put in front of a line.
    Bom,
    /// The `#` in front of a hex colour.
    Hash,
}

pub open spec fn in_set(set: TrimSet, c: char) -> bool {
    match set {
        TrimSet::Whitespace => is_ws(c),
        TrimSet::WhitespaceOrDot => is_ws(c) || c == '.',
        TrimSet::LetterV => c == 'v' || c == 'V',
        TrimSet::Bom => c == '\u{feff}',
        TrimSet::Hash => c == '#',
    }
}

pub fn in_set_exec(set: TrimSet, c: char) -> (r: bool)
    ensures
        r == in_set(set, c),
{
    match set {
        TrimSet::Whitespace => is_whitespace(c),
        TrimSet::WhitespaceOrDot => is_whitespace(c) || c == '.',
        TrimSet::LetterV => c == 'v' || c == 'V',
        TrimSet::Bom => c == '\u{feff}',
        TrimSet::Hash => c == '#',
    }
}

/// Drops every leading character of the set.
pub open spec fn trim_start(s: Seq<char>, set: TrimSet) -> Seq<char>
    decreases s.len(),
{
    if s.len() > 0 && in_set(set, s[0]) {
        trim_start(s.drop_first(), set)
    } else {
        s
    }
}

/// Drops every trailing character of the set.
pub open spec fn trim_end(s: Seq<char>, set: TrimSet) -> Seq<char>
    decreases s.len(),
{
    if s.len() > 0 && in_set(set, s.last()) {
        trim_end(s.drop_last(), set)
    } else {
        s
    }
}

pub open spec fn trim(s: Seq<char>, set: TrimSet) -> Seq<char> {
    trim_end(trim_start(s, set), set)
}

/// Removes the characters of `set` from the front of `v`.
pub fn trim_start_chars(v: &[char], set: TrimSet) -> (r: Vec<char>)
    ensures
        r@ == trim_start(v@, set),
{
    let n = v.len();
    let mut i: usize = 0;
    assert(v@.subrange(0, n as int) =~= v@);
    while i < n && in_set_exec(set, v[i])
        invariant
            n == v@.len(),
            i <= n,
            trim_start(v@, set) == trim_start(v@.subrange(i as int, n as int), set),
        decreases n - i,
    {
        assert(v@.subrange(i as int, n as int).drop_first() =~= v@.subrange(
            i + 1,
            n as int,
        ));
        i = i + 1;
    }
    let mut out: Vec<char> = Vec::new();
    let mut k = i;
    while k < n
        invariant
            i <= k <= n,
            n == v@.len(),
            out@ =~= v@.subrange(i as int, k as int),
        decreases n - k,
    {
        out.push(v[k]);
        k = k + 1;
    }
    out
}

/// Removes the characters of `set` from both ends of `v`.
pub fn trim_chars(v: &[char], set: TrimSet) -> (r: Vec<char>)
    ensures
        r@ == trim(v@, set),
{
    let s = trim_start_chars(v, set);
    let mut j = s.len();
    assert(s@.subrange(0, j as int) =~= s@);
    while j > 0 && in_set_exec(set, s[j - 1])
        invariant
            j <= s@.len(),
            trim_end(s@, set) == trim_end(s@.subrange(0, j as int), set),
        decreases j,
    {
        assert(s@.subrange(0, j as int).drop_last() =~= s@.subrange(0, j - 1));
        j = j - 1;
    }
    assert(s@.subrange(0, j as int) == trim_end(s@.subrange(0, j as int), set));
    let mut out: Vec<char> = Vec::new();
    let mut k: usize = 0;
    while k < j
        invariant
            k <= j <= s@.len(),
            out@ =~= s@.subrange(0, k as int),
        decreases j - k,
    {
        out.push(s[k]);
        k = k + 1;
    }
    out
}

/// `needle` occurs in `hay` starting at `i`.
pub open spec fn occurs_at(hay: Seq<char>, needle: Seq<char>, i: int) -> bool {
    0 <= i && i + needle.len() <= hay.len() && hay.subrange(i, i + needle.len()) == needle
}

/// The first position at or after `from` where `needle` occurs.
pub open spec fn find_from(hay: Seq<char>, needle: Seq<char>, from: int) -> Option<int>
    decreases hay.len() + 1 - from,
{
    if from < 0 || from + needle.len() > hay.len() {
        None
    } else if occurs_at(hay, needle, from) {
        Some(from)
    } else {
        find_from(hay, needle, from + 1)
    }
}

/// `str::find` with a text pattern, counted in characters.
pub open spec fn find(hay: Seq<char>, needle: Seq<char>) -> Option<int> {
    find_from(hay, needle, 0)
}

pub proof fn lemma_find_from(hay: Seq<char>, needle: Seq<char>, from: int)
    requires
        0 <= from,
    ensures
        find_from(hay, needle, from) matches Some(i) ==> from <= i && occurs_at(hay, needle, i)
            && forall|k: int| from <= k < i ==> !occurs_at(hay, needle, k),
        find_from(hay, needle, from) is None ==> forall|k: int|
            from <= k ==> !occurs_at(hay, needle, k),
    decreases hay.len() + 1 - from,
{
    if from + needle.len() > hay.len() {
    } else if occurs_at(hay, needle, from) {
    } else {
        lemma_find_from(hay, needle, from + 1);
    }
}

pub fn matches_at(hay: &[char], needle: &[char], i: usize) -> (r: bool)
    ensures
        r == occurs_at(hay@, needle@, i as int),
{
    if needle.len() > hay.len() || i > hay.len() - needle.len() {
        return false;
    }
    let mut k: usize = 0;
    while k < needle.len()
        invariant
            i + needle.len() <= hay.len(),
            k <= needle@.len(),
            forall|t: int| 0 <= t < k ==> hay@[i + t] == needle@[t],
        decreases needle.len() - k,
    {
        assert(i + k < hay@.len());
        if hay[i + k] != needle[k] {
            assert(hay@.subrange(i as int, i + needle@.len())[k as int] != needle@[k as int]);
            return false;
        }
        k = k + 1;
    }
    assert(hay@.subrange(i as int, i + needle@.len()) =~= needle@);
    true
}

/// The position of the first occurrence of `needle` in `hay`.
pub fn find_chars(hay: &[char], needle: &[char]) -> (r: Option<usize>)
    ensures
        r matches Some(i) ==> find(hay@, needle@) == Some(i as int),
        r is None ==> find(hay@, needle@) is None,
{
    if needle.len() > hay.len() {
        return None;
    }
    let last = hay.len() - needle.len();
    let mut i: usize = 0;
    loop
        invariant
            last + needle@.len() == hay@.len(),
            i <= last,
            find(hay@, needle@) == find_from(hay@, needle@, i as int),
        decreases last - i,
    {
        if matches_at(hay, needle, i) {
            return Some(i);
        }
        if i >= last {
            assert(find_from(hay@, needle@, i as int + 1) is None);
            return None;
        }
        i = i + 1;
    }
}

pub open spec fn contains_seq(hay: Seq<char>, needle: Seq<char>) -> bool {
    find(hay, needle) is Some
}

pub proof fn lemma_contains_iff(hay: Seq<char>, needle: Seq<char>)
    ensures
        contains_seq(hay, needle) <==> exists|i: int| occurs_at(hay, needle, i),
{
    lemma_find_from(hay, needle, 0);
    if contains_seq(hay, needle) {
        let i = find(hay, needle)->0;
        assert(occurs_at(hay, needle, i));
    }
}

pub open spec fn starts_with(s: Seq<char>, prefix: Seq<char>) -> bool {
    prefix.len() <= s.len() && s.subrange(0, prefix.len() as int) == prefix
}

pub open spec fn ends_with(s: Seq<char>, suffix: Seq<char>) -> bool {
    suffix.len() <= s.len() && s.subrange(s.len() - suffix.len(), s.len() as int) == suffix
}

pub fn starts_with_chars(s: &[char], prefix: &[char]) -> (r: bool)
    ensures
        r == starts_with(s@, prefix@),
{
    let r = matches_at(s, prefix, 0);
    assert(r == starts_with(s@, prefix@));
    r
}

pub fn ends_with_chars(s: &[char], suffix: &[char]) -> (r: bool)
    ensures
        r == ends_with(s@, suffix@),
{
    if suffix.len() > s.len() {
        return false;
    }
    matches_at(s, suffix, s.len() - suffix.len())
}

/// The characters `v[from..to]`.
pub fn slice_chars(v: &[char], from: usize, to: usize) -> (r: Vec<char>)
    requires
        from <= to <= v@.len(),
    ensures
        r@ == v@.subrange(from as int, to as int),
{
    let mut out: Vec<char> = Vec::new();
    let mut k = from;
    while k < to
        invariant
            from <= k <= to <= v@.len(),
            out@ =~= v@.subrange(from as int, k as int),
        decreases to - k,
    {
        out.push(v[k]);
        k = k + 1;
    }
    out
}

/// `a` followed by `b`.
pub fn concat_chars(a: &[char], b: &[char]) -> (r: Vec<char>)
    ensures
        r@ == a@ + b@,
{
    let mut out = slice_chars(a, 0, a.len());
    let mut k: usize = 0;
    while k < b.len()
        invariant
            k <= b@.len(),
            out@ =~= a@ + b@.subrange(0, k as int),
        decreases b.len() - k,
    {
        out.push(b[k]);
        k = k + 1;
    }
    assert(b@.subrange(0, b@.len() as int) =~= b@);
    out
}

pub fn eq_chars(a: &[char], b: &[char]) -> (r: bool)
    ensures
        r == (a@ == b@),
{
    if a.len() != b.len() {
        return false;
    }
    let r = matches_at(a, b, 0);
    assert(r ==> a@.subrange(0, b@.len() as int) =~= a@);
    assert(a@.subrange(0, b@.len() as int) =~= a@);
    r
}

/// ASCII lower case of one character; every other character is kept.
pub open spec fn ascii_lower(c: char) -> char {
    if 'A' <= c && c <= 'Z' {
        ((c as u32) + 32) as char
    } else {
        c
    }
}

pub fn ascii_lower_exec(c: char) -> (r: char)
    ensures
        r == ascii_lower(c),
{
    if 'A' <= c && c <= 'Z' {
        let b: u8 = c as u8;
        ((b + 32) as u8) as char
    } else {
        c
    }
}

/// `str::eq_ignore_ascii_case`.
pub open spec fn eq_ignore_ascii_case(a: Seq<char>, b: Seq<char>) -> bool {
    a.len() == b.len() && forall|i: int| 0 <= i < a.len() ==> ascii_lower(a[i]) == ascii_lower(b[i])
}

pub fn eq_ignore_ascii_case_chars(a: &[char], b: &[char]) -> (r: bool)
    ensures
        r == eq_ignore_ascii_case(a@, b@),
{
    if a.len() != b.len() {
        return false;
    }
    let mut k: usize = 0;
    while k < a.len()
        invariant
            a@.len() == b@.len(),
            k <= a@.len(),
            forall|i: int| 0 <= i < k ==> ascii_lower(a@[i]) == ascii_lower(b@[i]),
        decreases a.len() - k,
    {
        if ascii_lower_exec(a[k]) != ascii_lower_exec(b[k]) {
            return false;
        }
        k = k + 1;
    }
    true
}

/// The characters of `s`.
#[verifier::external_body]
pub(crate) fn to_chars(s: &str) -> (v: Vec<char>)
    ensures
        v@ == s@,
{
    s.chars().collect()
}

/// A string made of the characters `v`.
#[verifier::external_body]
pub(crate) fn from_chars(v: &[char]) -> (s: String)
    ensures
        s@ == v@,
{
    v.iter().collect()
}

/// What `str::to_lowercase` returns for a text: Unicode lower case,
/// including the context rule for a final sigma.
pub uninterp spec fn lowercase(s: Seq<char>) -> Seq<char>;

/// What `str::to_uppercase` returns for a text.
pub uninterp spec fn uppercase(s: Seq<char>) -> Seq<char>;

/// ASCII upper case of one character; every other character is kept.
pub open spec fn ascii_upper(c: char) -> char {
    if 'a' <= c && c <= 'z' {
        ((c as u32) - 32) as char
    } else {
        c
    }
}

/// Whether every character of a text is ASCII.
pub open spec fn all_ascii(s: Seq<char>) -> bool {
    forall|i: int| 0 <= i < s.len() ==> (#[trigger] s[i] as u32) < 0x80
}

/// `str::to_lowercase`: the result is `lowercase` of the text; an ASCII
/// text is lowered letter by letter.
#[verifier::external_body]
pub(crate) fn to_lowercase(s: &str) -> (r: String)
    ensures
        r@ == lowercase(s@),
        all_ascii(s@) ==> r@ == s@.map_values(|c: char| ascii_lower(c)),
{
    s.to_lowercase()
}

/// `str::to_uppercase`: the result is `uppercase` of the text; an ASCII
/// text is raised letter by letter.
#[verifier::external_body]
pub(crate) fn to_uppercase(s: &str) -> (r: String)
    ensures
        r@ == uppercase(s@),
        all_ascii(s@) ==> r@ == s@.map_values(|c: char| ascii_upper(c)),
{
    s.to_uppercase()
}

/// The position of the first `c` in `s`.
pub open spec fn index_of_char(s: Seq<char>, c: char) -> Option<int> {
    find(s, seq![c])
}

pub proof fn lemma_index_of_char(s: Seq<char>, c: char)
    ensures
        index_of_char(s, c) matches Some(i) ==> 0 <= i < s.len() && s[i] == c && forall|k: int|
            0 <= k < i ==> s[k] != c,
        index_of_char(s, c) is None ==> forall|k: int| 0 <= k < s.len() ==> s[k] != c,
{
    lemma_find_from(s, seq![c], 0);
    if index_of_char(s, c) is Some {
        let i = index_of_char(s, c)->0;
        assert(s.subrange(i, i + 1)[0] == s[i]);
        assert forall|k: int| 0 <= k < i implies s[k] != c by {
            if s[k] == c {
                assert(s.subrange(k, k + 1) =~= seq![c]);
                assert(occurs_at(s, seq![c], k));
            }
        }
    } else {
        assert forall|k: int| 0 <= k < s.len() implies s[k] != c by {
            if s[k] == c {
                assert(s.subrange(k, k + 1) =~= seq![c]);
                assert(occurs_at(s, seq![c], k));
            }
        }
    }
}

pub fn index_of_char_exec(s: &[char], c: char) -> (r: Option<usize>)
    ensures
        r matches Some(i) ==> index_of_char(s@, c) == Some(i as int),
        r is None ==> index_of_char(s@, c) is None,
{
    let needle = vec![c];
    assert(needle@ =~= seq![c]);
    find_chars(s, needle.as_slice())
}

/// `str::split_once` on a single character.
pub open spec fn split_once(s: Seq<char>, c: char) -> Option<(Seq<char>, Seq<char>)> {
    match index_of_char(s, c) {
        Some(i) => Some((s.subrange(0, i), s.subrange(i + 1, s.len() as int))),
        None => None,
    }
}

pub fn split_once_chars(s: &[char], c: char) -> (r: Option<(Vec<char>, Vec<char>)>)
    ensures
        r matches Some(p) ==> split_once(s@, c) == Some((p.0@, p.1@)),
        r is None ==> split_once(s@, c) is None,
{
    proof {
        lemma_index_of_char(s@, c);
    }
    match index_of_char_exec(s, c) {
        Some(i) => {
            assert(i < s@.len());
            assert(i < s.len());
            Some((slice_chars(s, 0, i), slice_chars(s, i + 1, s.len())))
        },
        None => None,
    }
}

/// The pieces of `s` between the occurrences of `c`, as `str::split` gives
/// them.
pub open spec fn split_on(s: Seq<char>, c: char) -> Seq<Seq<char>>
    decreases s.len(),
{
    match index_of_char(s, c) {
        Some(i) => if 0 <= i < s.len() {
            seq![s.subrange(0, i)] + split_on(s.subrange(i + 1, s.len() as int), c)
        } else {
            seq![s]
        },
        None => seq![s],
    }
}

pub fn split_on_exec(s: &[char], c: char) -> (r: Vec<Vec<char>>)
    ensures
        r@.map_values(|v: Vec<char>| v@) == split_on(s@, c),
{
    let mut out: Vec<Vec<char>> = Vec::new();
    let mut rest = slice_chars(s, 0, s.len());
    assert(rest@ =~= s@);
    loop
        invariant
            out@.map_values(|v: Vec<char>| v@) + split_on(rest@, c) == split_on(s@, c),
        decreases rest@.len(),
    {
        proof {
            lemma_index_of_char(rest@, c);
        }
        match index_of_char_exec(rest.as_slice(), c) {
            Some(i) => {
                assert(i < rest.len());
                let piece = slice_chars(rest.as_slice(), 0, i);
                let next = slice_chars(rest.as_slice(), i + 1, rest.len());
                let ghost before = out@.map_values(|v: Vec<char>| v@);
                out.push(piece);
                assert(out@.map_values(|v: Vec<char>| v@) =~= before.push(piece@));
                assert(split_on(rest@, c) == seq![piece@] + split_on(next@, c));
                assert(before.push(piece@) + split_on(next@, c) =~= before + (seq![piece@]
                    + split_on(next@, c)));
                rest = next;
            },
            None => {
                let ghost before = out@.map_values(|v: Vec<char>| v@);
                out.push(rest);
                assert(out@.map_values(|v: Vec<char>| v@) =~= before + seq![rest@]);
                return out;
            },
        }
    }
}

/// A line without the one `\r` that may end it.
pub open spec fn strip_cr(p: Seq<char>) -> Seq<char> {
    if p.len() > 0 && p.last() == '\r' {
        p.drop_last()
    } else {
        p
    }
}

/// `str::lines`: the text split at `\n`, each line that a `\n` ends without
/// a `\r` before it, and no empty line after a final `\n`.
pub open spec fn lines(s: Seq<char>) -> Seq<Seq<char>> {
    let pieces = split_on(s, '\n');
    if s.len() == 0 {
        seq![]
    } else if s.last() == '\n' {
        pieces.drop_last().map_values(|p: Seq<char>| strip_cr(p))
    } else {
        pieces.drop_last().map_values(|p: Seq<char>| strip_cr(p)).push(pieces.last())
    }
}

pub proof fn lemma_split_on_nonempty(s: Seq<char>, c: char)
    ensures
        split_on(s, c).len() >= 1,
    decreases s.len(),
{
    match index_of_char(s, c) {
        Some(i) => if 0 <= i < s.len() {
            lemma_split_on_nonempty(s.subrange(i + 1, s.len() as int), c);
        },
        None => {},
    }
}

fn strip_cr_exec(p: &[char]) -> (r: Vec<char>)
    ensures
        r@ == strip_cr(p@),
{
    if p.len() > 0 && p[p.len() - 1] == '\r' {
        slice_chars(p, 0, p.len() - 1)
    } else {
        slice_chars(p, 0, p.len())
    }
}

pub fn lines_exec(s: &[char]) -> (r: Vec<Vec<char>>)
    ensures
        r@.map_values(|v: Vec<char>| v@) == lines(s@),
{
    let mut out: Vec<Vec<char>> = Vec::new();
    if s.len() == 0 {
        assert(out@.map_values(|v: Vec<char>| v@) =~= lines(s@));
        return out;
    }
    let pieces = split_on_exec(s, '\n');
    let ghost pv = pieces@.map_values(|v: Vec<char>| v@);
    proof {
        lemma_split_on_nonempty(s@, '\n');
    }
    let n = pieces.len();
    let mut i: usize = 0;
    while i + 1 < n
        invariant
            n == pieces@.len(),
            n >= 1,
            i + 1 <= n,
            pv == pieces@.map_values(|v: Vec<char>| v@),
            out@.map_values(|v: Vec<char>| v@) =~= pv.take(i as int).map_values(
                |p: Seq<char>| strip_cr(p),
            ),
        decreases n - i,
    {
        assert(pv[i as int] == pieces@[i as int]@);
        let line = strip_cr_exec(pieces[i].as_slice());
        let ghost before = out@.map_values(|v: Vec<char>| v@);
        out.push(line);
        assert(out@.map_values(|v: Vec<char>| v@) =~= before.push(strip_cr(pv[i as int])));
        assert(pv.take(i + 1) =~= pv.take(i as int).push(pv[i as int]));
        assert(pv.take(i + 1).map_values(|p: Seq<char>| strip_cr(p)) =~= pv.take(i as int).map_values(
            |p: Seq<char>| strip_cr(p),
        ).push(strip_cr(pv[i as int])));
        i = i + 1;
    }
    assert(pv.take(i as int) =~= pv.drop_last());
    if s[s.len() - 1] != '\n' {
        assert(pv[n - 1] == pieces@[n - 1]@);
        let last = slice_chars(pieces[n - 1].as_slice(), 0, pieces[n - 1].len());
        let ghost before = out@.map_values(|v: Vec<char>| v@);
        out.push(last);
        assert(pieces@[n - 1]@.subrange(0, pieces@[n - 1]@.len() as int) =~= pieces@[n - 1]@);
        assert(out@.map_values(|v: Vec<char>| v@) =~= before.push(pv.last()));
    }
    assert(out@.map_values(|v: Vec<char>| v@) =~= lines(s@));
    out
}

pub proof fn lemma_index_of_char_at(s: Seq<char>, c: char, i: int)
    requires
        0 <= i < s.len(),
        s[i] == c,
        forall|k: int| 0 <= k < i ==> s[k] != c,
    ensures
        index_of_char(s, c) == Some(i),
{
    lemma_index_of_char(s, c);
}

pub proof fn lemma_index_of_char_none(s: Seq<char>, c: char)
    requires
        forall|k: int| 0 <= k < s.len() ==> s[k] != c,
    ensures
        index_of_char(s, c) is None,
{
    lemma_index_of_char(s, c);
}

/// A text that neither starts nor ends with a character of the set is its
/// own trim.
pub proof fn lemma_trim_noop(s: Seq<char>, set: TrimSet)
    requires
        s.len() == 0 || (!in_set(set, s[0]) && !in_set(set, s.last())),
    ensures
        trim(s, set) == s,
{
}

/// Lines joined with `\r\n`, each non-empty and without `\n`, read back as
/// the same lines.
pub proof fn lemma_lines_of_crlf_join(ls: Seq<Seq<char>>)
    requires
        forall|i: int| 0 <= i < ls.len() ==> #[trigger] ls[i].len() > 0,
        forall|i: int, k: int| 0 <= i < ls.len() && 0 <= k < ls[i].len() ==> #[trigger] ls[i][k] != '\n',
    ensures
        lines(join_lines_crlf(ls)) == ls,
        ls.len() > 0 ==> join_lines_crlf(ls).len() > 0 && join_lines_crlf(ls).last() == ls.last().last(),
    decreases ls.len(),
{
    let s = join_lines_crlf(ls);
    if ls.len() == 0 {
        assert(lines(s) =~= ls);
    } else if ls.len() == 1 {
        let l = ls[0];
        assert(s == l);
        assert forall|k: int| 0 <= k < l.len() implies l[k] != '\n' by {
            assert(ls[0][k] != '\n');
        }
        lemma_index_of_char_none(l, '\n');
        assert(split_on(l, '\n') == seq![l]);
        assert(l.last() != '\n') by {
            assert(ls[0][l.len() - 1] != '\n');
        }
        assert(lines(s) =~= ls);
    } else {
        let l0 = ls[0];
        let rest = ls.drop_first();
        let j = join_lines_crlf(rest);
        assert forall|i: int| 0 <= i < rest.len() implies #[trigger] rest[i].len() > 0 by {
            assert(rest[i] == ls[i + 1]);
        }
        assert forall|i: int, k: int| 0 <= i < rest.len() && 0 <= k < rest[i].len() implies #[trigger] rest[i][k] != '\n' by {
            assert(rest[i] == ls[i + 1]);
            assert(ls[i + 1][k] != '\n');
        }
        lemma_lines_of_crlf_join(rest);
        assert(s == l0 + seq!['\r', '\n'] + j);
        let n = l0.len() as int;
        assert(s[n] == '\r');
        assert(s[n + 1] == '\n');
        assert forall|k: int| 0 <= k < n + 1 implies s[k] != '\n' by {
            if k < n {
                assert(s[k] == l0[k]);
                assert(ls[0][k] != '\n');
            }
        }
        lemma_index_of_char_at(s, '\n', n + 1);
        assert(s.subrange(0, n + 1) =~= l0.push('\r'));
        assert(s.subrange(n + 2, s.len() as int) =~= j);
        let q = split_on(j, '\n');
        assert(split_on(s, '\n') == seq![l0.push('\r')] + q);
        lemma_split_on_nonempty(j, '\n');
        assert(s.last() == j.last());
        assert(ls.last() == rest.last());
        assert(strip_cr(l0.push('\r')) =~= l0);
        let p = seq![l0.push('\r')] + q;
        assert(p.drop_last() =~= seq![l0.push('\r')] + q.drop_last());
        assert(p.last() == q.last());
        assert(lines(j) == q.drop_last().map_values(|x: Seq<char>| strip_cr(x)).push(q.last()));
        assert(lines(s) =~= seq![l0] + rest);
        assert(seq![l0] + rest =~= ls);
    }
}

/// Lines each followed by the terminator `e`.
pub open spec fn join_terminated(cs: Seq<Seq<char>>, e: Seq<char>) -> Seq<char>
    decreases cs.len(),
{
    if cs.len() == 0 {
        seq![]
    } else {
        cs[0] + e + join_terminated(cs.drop_first(), e)
    }
}

/// A text without `\n`.
pub open spec fn no_newline(c: Seq<char>) -> bool {
    forall|k: int| 0 <= k < c.len() ==> c[k] != '\n'
}

proof fn lemma_split_terminated(cs: Seq<Seq<char>>, e: Seq<char>)
    requires
        e == seq!['\n'] || e == seq!['\r', '\n'],
        forall|i: int| 0 <= i < cs.len() ==> no_newline(#[trigger] cs[i]),
    ensures
        split_on(join_terminated(cs, e), '\n') == cs.map_values(|c: Seq<char>| c + e.drop_last()).push(
            Seq::<char>::empty(),
        ),
    decreases cs.len(),
{
    let s = join_terminated(cs, e);
    if cs.len() == 0 {
        lemma_index_of_char_none(s, '\n');
        assert(split_on(s, '\n') =~= seq![Seq::<char>::empty()]);
    } else {
        let c = cs[0];
        let rest = cs.drop_first();
        assert forall|i: int| 0 <= i < rest.len() implies no_newline(#[trigger] rest[i]) by {
            assert(rest[i] == cs[i + 1]);
        }
        lemma_split_terminated(rest, e);
        let j = join_terminated(rest, e);
        let n = c.len() + e.len() - 1;
        assert(no_newline(cs[0]));
        assert forall|k: int| 0 <= k < n implies s[k] != '\n' by {
            if k < c.len() {
                assert(s[k] == c[k]);
            } else {
                assert(s[k] == e[k - c.len()]);
            }
        }
        assert(s[n] == '\n');
        lemma_index_of_char_at(s, '\n', n);
        assert(s.subrange(0, n) =~= c + e.drop_last());
        assert(s.subrange(n + 1, s.len() as int) =~= j);
        assert(cs.map_values(|x: Seq<char>| x + e.drop_last()) =~= seq![c + e.drop_last()] + rest.map_values(
            |x: Seq<char>| x + e.drop_last(),
        ));
        assert(split_on(s, '\n') =~= cs.map_values(|x: Seq<char>| x + e.drop_last()).push(Seq::<char>::empty()));
    }
}

/// Lines each followed by `\n` or `\r\n` read back as those lines, but for a
/// `\r` that ends one followed by `\n` alone.
pub proof fn lemma_lines_of_terminated(cs: Seq<Seq<char>>, e: Seq<char>)
    requires
        e == seq!['\n'] || e == seq!['\r', '\n'],
        forall|i: int| 0 <= i < cs.len() ==> no_newline(#[trigger] cs[i]),
    ensures
        lines(join_terminated(cs, e)).len() == cs.len(),
        forall|i: int|
            0 <= i < cs.len() ==> #[trigger] lines(join_terminated(cs, e))[i] == (if e.len() == 2 {
                cs[i]
            } else {
                strip_cr(cs[i])
            }),
{
    let s = join_terminated(cs, e);
    lemma_split_terminated(cs, e);
    if cs.len() > 0 {
        assert(s == cs[0] + e + join_terminated(cs.drop_first(), e));
        assert(s.len() > 0);
        lemma_terminated_last(cs, e);
        let pieces = split_on(s, '\n');
        assert(pieces.drop_last() =~= cs.map_values(|c: Seq<char>| c + e.drop_last()));
        assert forall|i: int| 0 <= i < cs.len() implies #[trigger] lines(s)[i] == (if e.len() == 2 {
            cs[i]
        } else {
            strip_cr(cs[i])
        }) by {
            assert(lines(s)[i] == strip_cr(cs[i] + e.drop_last()));
            if e.len() == 2 {
                assert(strip_cr(cs[i] + e.drop_last()) =~= cs[i]);
            } else {
                assert(cs[i] + e.drop_last() =~= cs[i]);
            }
        }
    } else {
        assert(s.len() == 0);
    }
}

proof fn lemma_terminated_last(cs: Seq<Seq<char>>, e: Seq<char>)
    requires
        e.len() > 0,
        cs.len() > 0,
    ensures
        join_terminated(cs, e).len() > 0,
        join_terminated(cs, e).last() == e.last(),
    decreases cs.len(),
{
    let j = join_terminated(cs.drop_first(), e);
    if cs.len() > 1 {
        lemma_terminated_last(cs.drop_first(), e);
    } else {
        assert(j.len() == 0);
    }
    assert(join_terminated(cs, e) == cs[0] + e + j);
}

/// The pieces of a split hold no separator.
pub proof fn lemma_split_on_free(s: Seq<char>, c: char)
    ensures
        forall|i: int, k: int|
            0 <= i < split_on(s, c).len() && 0 <= k < split_on(s, c)[i].len() ==> #[trigger] split_on(s, c)[i][k]
                != c,
    decreases s.len(),
{
    lemma_index_of_char(s, c);
    match index_of_char(s, c) {
        Some(i) => if 0 <= i < s.len() {
            let rest = s.subrange(i + 1, s.len() as int);
            lemma_split_on_free(rest, c);
            let p = split_on(s, c);
            assert forall|a: int, k: int| 0 <= a < p.len() && 0 <= k < p[a].len() implies #[trigger] p[a][k] != c by {
                if a > 0 {
                    assert(p[a] == split_on(rest, c)[a - 1]);
                } else {
                    assert(p[a][k] == s[k]);
                }
            }
        },
        None => {},
    }
}

/// No line of a text holds `\n`.
pub proof fn lemma_lines_free(s: Seq<char>)
    ensures
        forall|i: int| 0 <= i < lines(s).len() ==> no_newline(#[trigger] lines(s)[i]),
{
    lemma_split_on_free(s, '\n');
    let p = split_on(s, '\n');
    lemma_split_on_nonempty(s, '\n');
    assert forall|i: int| 0 <= i < lines(s).len() implies no_newline(#[trigger] lines(s)[i]) by {
        assert forall|k: int| 0 <= k < lines(s)[i].len() implies lines(s)[i][k] != '\n' by {
            if i < p.len() - 1 {
                assert(lines(s)[i] == strip_cr(p[i]));
                assert(lines(s)[i][k] == p[i][k]);
            } else {
                assert(lines(s)[i] == p[p.len() - 1]);
                assert(p[p.len() - 1][k] != '\n');
            }
        }
    }
}

/// The characters of a trimmed text are the text's own.
pub proof fn lemma_trim_keeps_absent(s: Seq<char>, set: TrimSet, c: char)
    requires
        forall|k: int| 0 <= k < s.len() ==> s[k] != c,
    ensures
        forall|k: int| 0 <= k < trim(s, set).len() ==> #[trigger] trim(s, set)[k] != c,
{
    lemma_trim_start_suffix(s, set);
    let t = trim_start(s, set);
    lemma_trim_end_prefix(t, set);
    assert forall|k: int| 0 <= k < trim(s, set).len() implies #[trigger] trim(s, set)[k] != c by {
        assert(trim(s, set)[k] == t[k]);
        assert(t[k] == s[s.len() - t.len() + k]);
    }
}

/// `trim_start` keeps a suffix whose first character is outside the set.
pub proof fn lemma_trim_start_suffix(s: Seq<char>, set: TrimSet)
    ensures
        trim_start(s, set).len() <= s.len(),
        trim_start(s, set) == s.subrange(s.len() - trim_start(s, set).len(), s.len() as int),
        trim_start(s, set).len() > 0 ==> !in_set(set, trim_start(s, set)[0]),
    decreases s.len(),
{
    if s.len() > 0 && in_set(set, s[0]) {
        lemma_trim_start_suffix(s.drop_first(), set);
        let t = trim_start(s, set);
        assert(t == s.drop_first().subrange(s.len() - 1 - t.len(), s.len() - 1));
        assert(t =~= s.subrange(s.len() - t.len(), s.len() as int));
    } else {
        assert(s.subrange(0, s.len() as int) =~= s);
    }
}

/// `trim_end` keeps a prefix whose last character is outside the set.
pub proof fn lemma_trim_end_prefix(s: Seq<char>, set: TrimSet)
    ensures
        trim_end(s, set).len() <= s.len(),
        trim_end(s, set) == s.subrange(0, trim_end(s, set).len() as int),
        trim_end(s, set).len() > 0 ==> !in_set(set, trim_end(s, set).last()),
    decreases s.len(),
{
    if s.len() > 0 && in_set(set, s.last()) {
        lemma_trim_end_prefix(s.drop_last(), set);
        let t = trim_end(s, set);
        assert(t =~= s.subrange(0, t.len() as int));
    } else {
        assert(s.subrange(0, s.len() as int) =~= s);
    }
}

/// A trimmed text is a run of the text's own characters.
pub proof fn lemma_trim_run(s: Seq<char>, set: TrimSet)
    ensures
        trim_start(s, set).len() <= s.len(),
        s.len() - trim_start(s, set).len() + trim(s, set).len() <= s.len(),
        trim(s, set) == s.subrange(
            s.len() - trim_start(s, set).len(),
            s.len() - trim_start(s, set).len() + trim(s, set).len(),
        ),
{
    lemma_trim_start_suffix(s, set);
    let t = trim_start(s, set);
    lemma_trim_end_prefix(t, set);
    let off = s.len() - t.len();
    assert(trim(s, set) =~= s.subrange(off, off + trim(s, set).len()));
}

/// A non-empty trimmed text starts and ends outside the set.
pub proof fn lemma_trim_ends(s: Seq<char>, set: TrimSet)
    ensures
        trim(s, set).len() > 0 ==> !in_set(set, trim(s, set)[0]) && !in_set(set, trim(s, set).last()),
{
    lemma_trim_start_suffix(s, set);
    let t = trim_start(s, set);
    lemma_trim_end_prefix(t, set);
    if trim(s, set).len() > 0 {
        assert(trim(s, set)[0] == t[0]);
    }
}

proof fn lemma_trim_start_push(x: Seq<char>, w: char, set: TrimSet)
    requires
        in_set(set, w),
    ensures
        trim_start(x.push(w), set) == (if trim_start(x, set).len() == 0 {
            Seq::<char>::empty()
        } else {
            trim_start(x, set).push(w)
        }),
    decreases x.len(),
{
    if x.len() == 0 {
        assert(x.push(w).drop_first() =~= x);
    } else if in_set(set, x[0]) {
        assert(x.push(w).drop_first() =~= x.drop_first().push(w));
        lemma_trim_start_push(x.drop_first(), w, set);
    } else {
        lemma_trim_start_suffix(x, set);
    }
}

/// A trailing `\r` does not change a trimmed line.
pub proof fn lemma_trim_strip_cr(c: Seq<char>)
    ensures
        trim(strip_cr(c), TrimSet::Whitespace) == trim(c, TrimSet::Whitespace),
{
    if c.len() > 0 && c.last() == '\r' {
        let x = c.drop_last();
        assert(c =~= x.push('\r'));
        lemma_trim_start_push(x, '\r', TrimSet::Whitespace);
        let t = trim_start(x, TrimSet::Whitespace);
        if t.len() > 0 {
            assert(t.push('\r').drop_last() =~= t);
        }
    }
}

/// Lines joined with `\r\n` between them.
pub open spec fn join_lines_crlf(ls: Seq<Seq<char>>) -> Seq<char>
    decreases ls.len(),
{
    if ls.len() == 0 {
        seq![]
    } else if ls.len() == 1 {
        ls[0]
    } else {
        ls[0] + seq!['\r', '\n'] + join_lines_crlf(ls.drop_first())
    }
}


/// `str::replace` for a non-empty pattern: every occurrence of `pat`, taken
/// left to right without overlap, becomes `with`.
pub open spec fn replace_all(s: Seq<char>, pat: Seq<char>, with: Seq<char>) -> Seq<char>
    decreases s.len(),
{
    if pat.len() == 0 || s.len() < pat.len() {
        s
    } else if s.subrange(0, pat.len() as int) == pat {
        with + replace_all(s.subrange(pat.len() as int, s.len() as int), pat, with)
    } else {
        seq![s[0]] + replace_all(s.drop_first(), pat, with)
    }
}

/// Replaces every occurrence of a non-empty `pat` in `s` by `with`.
pub fn replace_all_chars(s: &[char], pat: &[char], with: &[char]) -> (r: Vec<char>)
    requires
        pat@.len() > 0,
    ensures
        r@ == replace_all(s@, pat@, with@),
{
    let n = s.len();
    let mut out: Vec<char> = Vec::new();
    let mut i: usize = 0;
    assert(s@.subrange(0, n as int) =~= s@);
    while i < n
        invariant
            n == s@.len(),
            pat@.len() > 0,
            i <= n,
            out@ + replace_all(s@.subrange(i as int, n as int), pat@, with@) == replace_all(s@, pat@, with@),
        decreases n - i,
    {
        let ghost rest = s@.subrange(i as int, n as int);
        if pat.len() <= n - i && matches_at(s, pat, i) {
            assert(rest.subrange(0, pat@.len() as int) =~= s@.subrange(i as int, i + pat@.len()));
            assert(rest.subrange(pat@.len() as int, rest.len() as int) =~= s@.subrange(
                i + pat@.len(),
                n as int,
            ));
            let mut k: usize = 0;
            let ghost before = out@;
            while k < with.len()
                invariant
                    k <= with@.len(),
                    out@ == before + with@.subrange(0, k as int),
                decreases with.len() - k,
            {
                out.push(with[k]);
                k = k + 1;
                assert(out@ =~= before + with@.subrange(0, k as int));
            }
            assert(with@.subrange(0, with@.len() as int) =~= with@);
            assert(out@ + replace_all(s@.subrange(i + pat@.len(), n as int), pat@, with@) =~= before
                + replace_all(rest, pat@, with@));
            i = i + pat.len();
        } else {
            assert(pat@.len() <= rest.len() ==> rest.subrange(0, pat@.len() as int) =~= s@.subrange(
                i as int,
                i + pat@.len(),
            ));
            assert(rest.drop_first() =~= s@.subrange(i + 1, n as int));
            assert(rest[0] == s@[i as int]);
            let ghost before = out@;
            out.push(s[i]);
            assert(out@ =~= before + seq![s@[i as int]]);
            assert(out@ + replace_all(s@.subrange(i + 1, n as int), pat@, with@) =~= before
                + replace_all(rest, pat@, with@)) by {
                if rest.len() < pat@.len() {
                    assert(replace_all(rest, pat@, with@) == rest);
                    assert(replace_all(rest.drop_first(), pat@, with@) == rest.drop_first());
                    assert(rest =~= seq![rest[0]] + rest.drop_first());
                }
            }
            i = i + 1;
        }
    }
    assert(s@.subrange(n as int, n as int) =~= Seq::<char>::empty());
    assert(out@ + Seq::<char>::empty() =~= out@);
    out
}

/// The decimal digits of `n`.
pub open spec fn decimal(n: nat) -> Seq<char>
    decreases n,
{
    if n < 10 {
        seq![digit_char(n)]
    } else {
        decimal(n / 10).push(digit_char(n % 10))
    }
}

pub open spec fn digit_char(d: nat) -> char {
    if d == 0 { '0' } else if d == 1 { '1' } else if d == 2 { '2' } else if d == 3 { '3' }
    else if d == 4 { '4' } else if d == 5 { '5' } else if d == 6 { '6' } else if d == 7 { '7' }
    else if d == 8 { '8' } else { '9' }
}

fn digit_char_exec(d: usize) -> (r: char)
    requires
        d < 10,
    ensures
        r == digit_char(d as nat),
{
    if d == 0 { '0' } else if d == 1 { '1' } else if d == 2 { '2' } else if d == 3 { '3' }
    else if d == 4 { '4' } else if d == 5 { '5' } else if d == 6 { '6' } else if d == 7 { '7' }
    else if d == 8 { '8' } else { '9' }
}

/// `n` written in decimal, as `format!("{n}")` writes it.
pub fn decimal_chars(n: usize) -> (r: Vec<char>)
    ensures
        r@ == decimal(n as nat),
    decreases n,
{
    if n < 10 {
        let mut v: Vec<char> = Vec::new();
        v.push(digit_char_exec(n));
        v
    } else {
        let mut v = decimal_chars(n / 10);
        v.push(digit_char_exec(n % 10));
        v
    }
}


/// The parts with `sep` between each two of them.
pub open spec fn join(parts: Seq<Seq<char>>, sep: Seq<char>) -> Seq<char>
    decreases parts.len(),
{
    if parts.len() == 0 {
        seq![]
    } else if parts.len() == 1 {
        parts[0]
    } else {
        join(parts.drop_last(), sep) + sep + parts.last()
    }
}

pub open spec fn strings_view(v: Seq<String>) -> Seq<Seq<char>> {
    v.map_values(|x: String| x@)
}

/// `[String]::join`: the parts with `sep` between each two of them.
pub fn join_strings(parts: &Vec<String>, sep: &str) -> (r: Vec<char>)
    ensures
        r@ == join(strings_view(parts@), sep@),
{
    let ghost ps = strings_view(parts@);
    let sepv = to_chars(sep);
    let mut out: Vec<char> = Vec::new();
    let mut i: usize = 0;
    while i < parts.len()
        invariant
            i <= parts@.len(),
            ps == strings_view(parts@),
            sepv@ == sep@,
            out@ == join(ps.subrange(0, i as int), sep@),
        decreases parts.len() - i,
    {
        let part = to_chars(parts[i].as_str());
        assert(ps.subrange(0, i + 1).drop_last() =~= ps.subrange(0, i as int));
        assert(ps.subrange(0, i + 1).last() == parts@[i as int]@);
        if i == 0 {
            out = part;
            assert(ps.subrange(0, 1) =~= seq![parts@[0]@]);
        } else {
            let with_sep = concat_chars(out.as_slice(), sepv.as_slice());
            out = concat_chars(with_sep.as_slice(), part.as_slice());
        }
        i = i + 1;
    }
    assert(ps.subrange(0, parts@.len() as int) =~= ps);
    out
}

} // verus!
