//! Turning a file name that came from the network into one that is safe to
//! create in a download folder on any of the supported systems.
use vstd::prelude::*;
use crate::text::{
    eq_ignore_ascii_case, eq_ignore_ascii_case_chars, from_chars, index_of_char,
    index_of_char_exec, lemma_index_of_char, slice_chars, to_chars, trim, trim_chars, trim_end,
    TrimSet, lemma_trim_ends, lemma_trim_noop, lemma_trim_run,
};

verus! {

/// The longest name, in bytes, that a download keeps.
pub const MAX_FILENAME_LEN: usize = 128;

/// The number of bytes that UTF-8 takes for `c`.
pub open spec fn utf8_len(c: char) -> int {
    if (c as u32) < 0x80 {
        1
    } else if (c as u32) < 0x800 {
        2
    } else if (c as u32) < 0x10000 {
        3
    } else {
        4
    }
}

/// The number of bytes that UTF-8 takes for `s`.
pub open spec fn byte_len(s: Seq<char>) -> int
    decreases s.len(),
{
    if s.len() == 0 {
        0
    } else {
        byte_len(s.drop_last()) + utf8_len(s.last())
    }
}

pub fn utf8_len_exec(c: char) -> (r: usize)
    ensures
        r == utf8_len(c),
{
    let code = c as u32;
    if code < 0x80 {
        1
    } else if code < 0x800 {
        2
    } else if code < 0x10000 {
        3
    } else {
        4
    }
}

pub proof fn lemma_byte_len_nonneg(s: Seq<char>)
    ensures
        byte_len(s) >= s.len(),
    decreases s.len(),
{
    if s.len() > 0 {
        lemma_byte_len_nonneg(s.drop_last());
    }
}

/// `byte_len` of `v`, or `None` when it passes `limit`.
pub fn byte_len_within(v: &[char], limit: usize) -> (r: Option<usize>)
    ensures
        r matches Some(n) ==> n == byte_len(v@) && n <= limit,
        r is None ==> byte_len(v@) > limit,
{
    let mut total: usize = 0;
    let mut i: usize = 0;
    while i < v.len()
        invariant
            i <= v@.len(),
            total == byte_len(v@.subrange(0, i as int)),
            total <= limit,
        decreases v.len() - i,
    {
        let w = utf8_len_exec(v[i]);
        assert(v@.subrange(0, i + 1).drop_last() =~= v@.subrange(0, i as int));
        if w > limit - total {
            proof {
                lemma_prefix_byte_len_grows(v@, i as int + 1, v@.len() as int);
            }
            assert(v@.subrange(0, v@.len() as int) =~= v@);
            return None;
        }
        total = total + w;
        i = i + 1;
    }
    assert(v@.subrange(0, v@.len() as int) =~= v@);
    Some(total)
}

/// A longer prefix never takes fewer bytes.
pub proof fn lemma_prefix_byte_len_grows(s: Seq<char>, i: int, j: int)
    requires
        0 <= i <= j <= s.len(),
    ensures
        byte_len(s.subrange(0, i)) <= byte_len(s.subrange(0, j)),
    decreases j - i,
{
    if i < j {
        lemma_prefix_byte_len_grows(s, i, j - 1);
        assert(s.subrange(0, j).drop_last() =~= s.subrange(0, j - 1));
    }
}

/// Unicode general category `Cc`, the set that `char::is_control` tests.
pub open spec fn is_control(c: char) -> bool {
    (c as u32) <= 0x1f || (0x7f <= (c as u32) && (c as u32) <= 0x9f)
}

pub fn is_control_exec(c: char) -> (r: bool)
    ensures
        r == is_control(c),
{
    let code = c as u32;
    code <= 0x1f || (0x7f <= code && code <= 0x9f)
}

/// The characters that no supported file system takes in a name.
pub open spec fn is_invalid_filename_char(c: char) -> bool {
    c == '/' || c == '\\' || c == '\0' || c == ':' || c == '*' || c == '?' || c == '"' || c == '<'
        || c == '>' || c == '|'
}

pub fn is_invalid_filename_char_exec(c: char) -> (r: bool)
    ensures
        r == is_invalid_filename_char(c),
{
    c == '/' || c == '\\' || c == '\0' || c == ':' || c == '*' || c == '?' || c == '"' || c == '<'
        || c == '>' || c == '|'
}

/// The DOS device names that Windows reserves, whatever the extension.
pub open spec fn reserved_names() -> Seq<Seq<char>> {
    seq![
        "CON"@, "PRN"@, "AUX"@, "NUL"@, "COM1"@, "COM2"@, "COM3"@, "COM4"@, "COM5"@, "COM6"@,
        "COM7"@, "COM8"@, "COM9"@, "LPT1"@, "LPT2"@, "LPT3"@, "LPT4"@, "LPT5"@, "LPT6"@, "LPT7"@,
        "LPT8"@, "LPT9"@,
    ]
}

fn reserved_list() -> (v: Vec<&'static str>)
    ensures
        v@.map_values(|s: &'static str| s@) == reserved_names(),
{
    let v = vec![
        "CON", "PRN", "AUX", "NUL", "COM1", "COM2", "COM3", "COM4", "COM5", "COM6", "COM7", "COM8",
        "COM9", "LPT1", "LPT2", "LPT3", "LPT4", "LPT5", "LPT6", "LPT7", "LPT8", "LPT9",
    ];
    assert(v@.map_values(|s: &'static str| s@) =~= reserved_names());
    v
}

/// The part of a name before its first `.`, without trailing whitespace.
pub open spec fn device_stem(name: Seq<char>) -> Seq<char> {
    let head = match index_of_char(name, '.') {
        Some(i) => name.subrange(0, i),
        None => name,
    };
    trim_end(head, TrimSet::Whitespace)
}

pub open spec fn spec_is_reserved_device_name(name: Seq<char>) -> bool {
    exists|k: int|
        0 <= k < reserved_names().len() && eq_ignore_ascii_case(
            device_stem(name),
            #[trigger] reserved_names()[k],
        )
}

/// Whether Windows would take `name` for a device rather than a file.
pub fn is_reserved_device_name(name: &str) -> (r: bool)
    ensures
        r == spec_is_reserved_device_name(name@),
{
    let chars = to_chars(name);
    let stem = is_reserved_stem(chars.as_slice());
    stem
}

fn is_reserved_stem(chars: &[char]) -> (r: bool)
    ensures
        r == spec_is_reserved_device_name(chars@),
{
    let head = match index_of_char_exec(chars, '.') {
        Some(i) => {
            proof {
                lemma_index_of_char(chars@, '.');
            }
            slice_chars(chars, 0, i)
        },
        None => slice_chars(chars, 0, chars.len()),
    };
    assert(chars@.subrange(0, chars@.len() as int) =~= chars@);
    let stem = trim_end_chars(head.as_slice());
    let table = reserved_list();
    let mut k: usize = 0;
    while k < table.len()
        invariant
            k <= table@.len(),
            stem@ == device_stem(chars@),
            table@.map_values(|s: &'static str| s@) == reserved_names(),
            forall|j: int|
                0 <= j < k ==> !eq_ignore_ascii_case(device_stem(chars@), #[trigger] reserved_names()[j]),
        decreases table.len() - k,
    {
        let reserved = to_chars(table[k]);
        assert(table@.map_values(|s: &'static str| s@)[k as int] == table@[k as int]@);
        if eq_ignore_ascii_case_chars(stem.as_slice(), reserved.as_slice()) {
            return true;
        }
        k = k + 1;
    }
    false
}

/// `v` without its trailing whitespace.
pub fn trim_end_chars(v: &[char]) -> (r: Vec<char>)
    ensures
        r@ == trim_end(v@, TrimSet::Whitespace),
{
    let mut j = v.len();
    assert(v@.subrange(0, j as int) =~= v@);
    while j > 0 && crate::text::is_whitespace(v[j - 1])
        invariant
            j <= v@.len(),
            trim_end(v@, TrimSet::Whitespace) == trim_end(v@.subrange(0, j as int), TrimSet::Whitespace),
        decreases j,
    {
        assert(v@.subrange(0, j as int).drop_last() =~= v@.subrange(0, j - 1));
        j = j - 1;
    }
    slice_chars(v, 0, j)
}

/// A name without surrounding whitespace and dots.
pub open spec fn spec_trim_filename(name: Seq<char>) -> Seq<char> {
    trim(name, TrimSet::WhitespaceOrDot)
}

pub fn trim_filename(name: &str) -> (r: String)
    ensures
        r@ == spec_trim_filename(name@),
{
    let chars = to_chars(name);
    let trimmed = trim_chars(chars.as_slice(), TrimSet::WhitespaceOrDot);
    from_chars(trimmed.as_slice())
}

/// The position of the last `c` in `s`.
pub open spec fn last_index_of(s: Seq<char>, c: char) -> Option<int>
    decreases s.len(),
{
    if s.len() == 0 {
        None
    } else if s.last() == c {
        Some(s.len() - 1)
    } else {
        last_index_of(s.drop_last(), c)
    }
}

pub proof fn lemma_last_index_of(s: Seq<char>, c: char)
    ensures
        last_index_of(s, c) matches Some(i) ==> 0 <= i < s.len() && s[i] == c && forall|k: int|
            i < k < s.len() ==> s[k] != c,
    decreases s.len(),
{
    if s.len() > 0 && s.last() != c {
        lemma_last_index_of(s.drop_last(), c);
        assert forall|k: int| 0 <= k < s.len() - 1 implies s.drop_last()[k] == s[k] by {}
    }
}

pub fn last_index_of_exec(s: &[char], c: char) -> (r: Option<usize>)
    ensures
        r matches Some(i) ==> last_index_of(s@, c) == Some(i as int),
        r is None ==> last_index_of(s@, c) is None,
{
    let mut j = s.len();
    assert(s@.subrange(0, j as int) =~= s@);
    while j > 0
        invariant
            j <= s@.len(),
            last_index_of(s@, c) == last_index_of(s@.subrange(0, j as int), c),
        decreases j,
    {
        assert(s@.subrange(0, j as int).drop_last() =~= s@.subrange(0, j - 1));
        if s[j - 1] == c {
            return Some(j - 1);
        }
        j = j - 1;
    }
    None
}

/// `Path::extension` of a bare file name: what follows the last `.`, unless
/// that dot is the name's first character or there is none.
pub open spec fn extension(name: Seq<char>) -> Option<Seq<char>> {
    match last_index_of(name, '.') {
        Some(i) => if i > 0 {
            Some(name.subrange(i + 1, name.len() as int))
        } else {
            None
        },
        None => None,
    }
}

pub fn extension_exec(name: &[char]) -> (r: Option<Vec<char>>)
    ensures
        r matches Some(e) ==> extension(name@) == Some(e@),
        r is None ==> extension(name@) is None,
{
    proof {
        lemma_last_index_of(name@, '.');
    }
    match last_index_of_exec(name, '.') {
        Some(i) => if i > 0 {
            assert(i < name.len());
            Some(slice_chars(name, i + 1, name.len()))
        } else {
            None
        },
        None => None,
    }
}

/// The number of leading characters of `s` whose bytes fit in `cut`.
pub open spec fn fit_prefix(s: Seq<char>, cut: int) -> int
    decreases s.len(),
{
    if s.len() == 0 {
        0
    } else if byte_len(s) <= cut {
        s.len() as int
    } else {
        fit_prefix(s.drop_last(), cut)
    }
}

pub proof fn lemma_fit_prefix(s: Seq<char>, cut: int)
    ensures
        0 <= fit_prefix(s, cut) <= s.len(),
    decreases s.len(),
{
    if s.len() > 0 && byte_len(s) > cut {
        lemma_fit_prefix(s.drop_last(), cut);
    }
}

/// The longest prefix of `v` that takes at most `cut` bytes, as
/// `String::truncate` at the last char boundary at or below `cut` keeps.
pub fn truncate_bytes(v: &[char], cut: usize) -> (r: Vec<char>)
    ensures
        r@ == v@.subrange(0, fit_prefix(v@, cut as int)),
{
    let mut j = v.len();
    assert(v@.subrange(0, j as int) =~= v@);
    loop
        invariant
            j <= v@.len(),
            fit_prefix(v@, cut as int) == fit_prefix(v@.subrange(0, j as int), cut as int),
        decreases j,
    {
        let prefix = slice_chars(v, 0, j);
        if j == 0 {
            return prefix;
        }
        match byte_len_within(prefix.as_slice(), cut) {
            Some(_) => {
                return prefix;
            },
            None => {
                assert(v@.subrange(0, j as int).drop_last() =~= v@.subrange(0, j - 1));
                j = j - 1;
            },
        }
    }
}

/// The extension kept when a long name is shortened: `.` and the
/// extension, when there is one of at most 16 bytes.
pub open spec fn kept_extension(name: Seq<char>) -> Seq<char> {
    match extension(name) {
        Some(e) => if byte_len(e) <= 16 {
            seq!['.'] + e
        } else {
            seq![]
        },
        None => seq![],
    }
}

/// A long name cut to fit `MAX_FILENAME_LEN` bytes, its extension kept.
pub open spec fn shorten(name: Seq<char>) -> Seq<char> {
    let ext = kept_extension(name);
    let cut = MAX_FILENAME_LEN - byte_len(ext);
    spec_trim_filename(name.subrange(0, fit_prefix(name, cut))) + ext
}

/// What `sanitize_download_filename` returns.
pub open spec fn spec_sanitize(name: Seq<char>) -> Option<Seq<char>> {
    let trimmed = spec_trim_filename(name);
    if byte_len(name) > 1024 {
        None
    } else if trimmed.len() == 0 {
        None
    } else if exists|i: int| 0 <= i < trimmed.len() && is_invalid_filename_char(trimmed[i]) {
        None
    } else if exists|i: int| 0 <= i < trimmed.len() && is_control(trimmed[i]) {
        None
    } else {
        let long = if byte_len(trimmed) > MAX_FILENAME_LEN {
            shorten(trimmed)
        } else {
            trimmed
        };
        let safe = spec_trim_filename(long);
        if safe.len() == 0 || spec_is_reserved_device_name(safe) {
            None
        } else {
            Some(safe)
        }
    }
}

fn has_bad_char(v: &[char]) -> (r: (bool, bool))
    ensures
        r.0 == exists|i: int| 0 <= i < v@.len() && is_invalid_filename_char(v@[i]),
        r.1 == exists|i: int| 0 <= i < v@.len() && is_control(v@[i]),
{
    let mut invalid = false;
    let mut control = false;
    let mut i: usize = 0;
    while i < v.len()
        invariant
            i <= v@.len(),
            invalid == exists|k: int| 0 <= k < i && is_invalid_filename_char(v@[k]),
            control == exists|k: int| 0 <= k < i && is_control(v@[k]),
        decreases v.len() - i,
    {
        if is_invalid_filename_char_exec(v[i]) {
            invalid = true;
        }
        if is_control_exec(v[i]) {
            control = true;
        }
        i = i + 1;
    }
    (invalid, control)
}

/// A name from the network made safe to save: at most 1024 bytes in,
/// trimmed of whitespace and dots, without path separators, reserved or
/// control characters, cut to 128 bytes keeping a short extension, and not a
/// DOS device name. `None` when no such name is left.
///
/// After the character checks the name holds no separator and does not
/// start or end with a dot, so it is always one plain path component.
pub fn sanitize_download_filename(name: &str) -> (r: Option<String>)
    ensures
        r matches Some(s) ==> spec_sanitize(name@) == Some(s@),
        r is None ==> spec_sanitize(name@) is None,
{
    let chars = to_chars(name);
    if byte_len_within(chars.as_slice(), 1024).is_none() {
        return None;
    }
    let trimmed = trim_chars(chars.as_slice(), TrimSet::WhitespaceOrDot);
    if trimmed.len() == 0 {
        return None;
    }
    let (invalid, control) = has_bad_char(trimmed.as_slice());
    if invalid || control {
        return None;
    }
    let long = match byte_len_within(trimmed.as_slice(), MAX_FILENAME_LEN) {
        Some(_) => trimmed,
        None => {
            let dot: Vec<char> = vec!['.'];
            assert(dot@ =~= seq!['.']);
            let ext: Vec<char> = match extension_exec(trimmed.as_slice()) {
                Some(e) => match byte_len_within(e.as_slice(), 16) {
                    Some(_) => crate::text::concat_chars(dot.as_slice(), e.as_slice()),
                    None => Vec::new(),
                },
                None => Vec::new(),
            };
            assert(ext@ == kept_extension(trimmed@));
            proof {
                if ext@.len() > 0 {
                    let e = extension(trimmed@)->0;
                    assert(ext@ == seq!['.'] + e);
                    lemma_concat_byte_len(seq!['.'], e);
                    assert(seq!['.'].drop_last() =~= Seq::<char>::empty());
                    assert(byte_len(Seq::<char>::empty()) == 0);
                    assert(seq!['.'].last() == '.');
                    assert(utf8_len('.') == 1);
                    assert(byte_len(seq!['.']) == 1);
                    assert(byte_len(ext@) <= 17);
                } else {
                    assert(byte_len(ext@) == 0);
                }
            }
            let ext_bytes = match byte_len_within(ext.as_slice(), MAX_FILENAME_LEN) {
                Some(n) => n,
                None => MAX_FILENAME_LEN,
            };
            assert(ext_bytes == byte_len(ext@));
            let cut = MAX_FILENAME_LEN - ext_bytes;
            let kept = truncate_bytes(trimmed.as_slice(), cut);
            let kept_trimmed = trim_chars(kept.as_slice(), TrimSet::WhitespaceOrDot);
            let joined = crate::text::concat_chars(kept_trimmed.as_slice(), ext.as_slice());
            assert(joined@ == shorten(trimmed@));
            joined
        },
    };
    assert(long@ == (if byte_len(trimmed@) > MAX_FILENAME_LEN {
        shorten(trimmed@)
    } else {
        trimmed@
    }));
    let safe = trim_chars(long.as_slice(), TrimSet::WhitespaceOrDot);
    if safe.len() == 0 || is_reserved_stem(safe.as_slice()) {
        return None;
    }
    Some(from_chars(safe.as_slice()))
}

pub proof fn lemma_concat_byte_len(a: Seq<char>, b: Seq<char>)
    ensures
        byte_len(a + b) == byte_len(a) + byte_len(b),
    decreases b.len(),
{
    if b.len() == 0 {
        assert(a + b =~= a);
    } else {
        lemma_concat_byte_len(a, b.drop_last());
        assert((a + b).drop_last() =~= a + b.drop_last());
    }
}

/// A run of a text takes no more bytes than the text.
pub proof fn lemma_run_byte_len(s: Seq<char>, a: int, b: int)
    requires
        0 <= a <= b <= s.len(),
    ensures
        byte_len(s.subrange(a, b)) <= byte_len(s),
{
    let x = s.subrange(0, a);
    let y = s.subrange(a, b);
    let z = s.subrange(b, s.len() as int);
    assert(s =~= x + y + z);
    lemma_concat_byte_len(x, y);
    lemma_concat_byte_len(x + y, z);
    lemma_byte_len_nonneg(x);
    lemma_byte_len_nonneg(z);
}

/// The prefix that `fit_prefix` keeps fits in `cut` bytes.
pub proof fn lemma_fit_prefix_fits(s: Seq<char>, cut: int)
    requires
        cut >= 0,
    ensures
        byte_len(s.subrange(0, fit_prefix(s, cut))) <= cut,
    decreases s.len(),
{
    if s.len() == 0 {
        assert(s.subrange(0, 0).len() == 0);
    } else if byte_len(s) <= cut {
        assert(s.subrange(0, s.len() as int) =~= s);
    } else {
        lemma_fit_prefix_fits(s.drop_last(), cut);
        lemma_fit_prefix(s.drop_last(), cut);
        assert(s.drop_last().subrange(0, fit_prefix(s.drop_last(), cut)) =~= s.subrange(0, fit_prefix(s, cut)));
    }
}

/// Whether no character of a name is refused.
pub open spec fn clean_chars(s: Seq<char>) -> bool {
    forall|i: int| 0 <= i < s.len() ==> !is_invalid_filename_char(#[trigger] s[i]) && !is_control(s[i])
}

proof fn lemma_trim_clean(s: Seq<char>)
    requires
        clean_chars(s),
    ensures
        clean_chars(spec_trim_filename(s)),
        byte_len(spec_trim_filename(s)) <= byte_len(s),
{
    lemma_trim_run(s, TrimSet::WhitespaceOrDot);
    let t = spec_trim_filename(s);
    let off = s.len() - crate::text::trim_start(s, TrimSet::WhitespaceOrDot).len();
    assert forall|i: int| 0 <= i < t.len() implies !is_invalid_filename_char(#[trigger] t[i]) && !is_control(t[i]) by {
        assert(t[i] == s[off + i]);
    }
    lemma_run_byte_len(s, off, off + t.len());
}

/// A name that `sanitize_download_filename` lets through is safe to create:
/// not empty, at most `MAX_FILENAME_LEN` bytes, without a character that a
/// file system refuses or a control character, not a device name, and
/// without whitespace or dots at either end.
pub proof fn law_sanitized_name_is_safe(name: Seq<char>)
    ensures
        spec_sanitize(name) matches Some(s) ==> {
            &&& s.len() > 0
            &&& byte_len(s) <= MAX_FILENAME_LEN
            &&& clean_chars(s)
            &&& !spec_is_reserved_device_name(s)
            &&& spec_trim_filename(s) == s
        },
{
    let trimmed = spec_trim_filename(name);
    if spec_sanitize(name) is Some {
        assert(clean_chars(trimmed));
        let long = if byte_len(trimmed) > MAX_FILENAME_LEN {
            shorten(trimmed)
        } else {
            trimmed
        };
        if byte_len(trimmed) > MAX_FILENAME_LEN {
            let ext = kept_extension(trimmed);
            lemma_last_index_of(trimmed, '.');
            if extension(trimmed) is Some {
                let i = last_index_of(trimmed, '.')->0;
                let e = trimmed.subrange(i + 1, trimmed.len() as int);
                assert forall|k: int| 0 <= k < e.len() implies !is_invalid_filename_char(#[trigger] e[k]) && !is_control(e[k]) by {
                    assert(e[k] == trimmed[i + 1 + k]);
                }
                if byte_len(e) <= 16 {
                    assert(ext == seq!['.'] + e);
                    lemma_concat_byte_len(seq!['.'], e);
                    assert(seq!['.'].drop_last() =~= Seq::<char>::empty());
                    assert(seq!['.'].last() == '.');
                    assert(('.' as u32) < 0x80);
                    assert(byte_len(seq!['.'].drop_last()) == 0);
                    assert(byte_len(seq!['.']) == 1);
                    assert forall|k: int| 0 <= k < ext.len() implies !is_invalid_filename_char(#[trigger] ext[k]) && !is_control(ext[k]) by {
                        if k > 0 {
                            assert(ext[k] == e[k - 1]);
                        }
                    }
                }
            }
            assert(byte_len(Seq::<char>::empty()) == 0);
            assert(clean_chars(ext));
            assert(byte_len(ext) <= 17);
            let cut = MAX_FILENAME_LEN - byte_len(ext);
            lemma_fit_prefix(trimmed, cut);
            let prefix = trimmed.subrange(0, fit_prefix(trimmed, cut));
            assert forall|k: int| 0 <= k < prefix.len() implies !is_invalid_filename_char(#[trigger] prefix[k]) && !is_control(prefix[k]) by {
                assert(prefix[k] == trimmed[k]);
            }
            lemma_fit_prefix_fits(trimmed, cut);
            lemma_trim_clean(prefix);
            let head = spec_trim_filename(prefix);
            lemma_concat_byte_len(head, ext);
            assert(long == head + ext);
            assert forall|k: int| 0 <= k < long.len() implies !is_invalid_filename_char(#[trigger] long[k]) && !is_control(long[k]) by {
                if k < head.len() {
                    assert(long[k] == head[k]);
                } else {
                    assert(long[k] == ext[k - head.len()]);
                }
            }
        }
        assert(clean_chars(long));
        assert(byte_len(long) <= MAX_FILENAME_LEN);
        lemma_trim_clean(long);
        let s = spec_trim_filename(long);
        lemma_trim_ends(long, TrimSet::WhitespaceOrDot);
        lemma_trim_noop(s, TrimSet::WhitespaceOrDot);
    }
}

} // verus!
