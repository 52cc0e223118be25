//! Themes: hex colours, the `.autheme` theme files, where a theme's
//! wallpaper comes from, and which theme a saved choice selects.
use vstd::prelude::*;
use crate::idset::{owned, same_text};
use crate::text::{
    concat_chars, eq_ignore_ascii_case, eq_ignore_ascii_case_chars, from_chars, lines, lines_exec,
    slice_chars, split_on, split_on_exec, split_once, split_once_chars, starts_with,
    starts_with_chars, to_chars, trim, trim_chars, trim_start, trim_start_chars, TrimSet,
    lowercase, to_lowercase, strings_view, ascii_lower, is_ws, trim_end,
};
use crate::ordering::{arrange, is_stable_order, keys_view, lemma_sorted_distinct, stable_order, KeyView, SortKey};

verus! {

/// The extension of theme files.
pub open spec fn theme_extension() -> Seq<char> {
    "autheme"@
}

/// The theme used when none is chosen.
pub open spec fn default_theme_id() -> Seq<char> {
    "aurora"@
}

/// Where a theme's wallpaper comes from.
pub enum ImageRef {
    Builtin(String),
    Remote(String),
    Local(String),
}

/// A colour, as alpha, red, green and blue.
#[derive(Clone, Copy, Debug, PartialEq, Eq, Structural)]
pub struct Argb {
    pub a: u8,
    pub r: u8,
    pub g: u8,
    pub b: u8,
}

/// A colour from its `0xAARRGGBB` encoding.
pub open spec fn spec_argb(v: u32) -> Argb {
    Argb {
        a: ((v / 0x100_0000) % 0x100) as u8,
        r: ((v / 0x1_0000) % 0x100) as u8,
        g: ((v / 0x100) % 0x100) as u8,
        b: (v % 0x100) as u8,
    }
}

pub fn argb(v: u32) -> (r: Argb)
    ensures
        r == spec_argb(v),
{
    Argb {
        a: ((v / 0x100_0000) % 0x100) as u8,
        r: ((v / 0x1_0000) % 0x100) as u8,
        g: ((v / 0x100) % 0x100) as u8,
        b: (v % 0x100) as u8,
    }
}

// ---------------------------------------------------------------------
// Hex colours

pub open spec fn is_hex(c: char) -> bool {
    ('0' <= c && c <= '9') || ('a' <= c && c <= 'f') || ('A' <= c && c <= 'F')
}

pub open spec fn hex_value(c: char) -> u8 {
    if '0' <= c && c <= '9' {
        ((c as u32) - ('0' as u32)) as u8
    } else if 'a' <= c && c <= 'f' {
        ((c as u32) - ('a' as u32) + 10) as u8
    } else {
        ((c as u32) - ('A' as u32) + 10) as u8
    }
}

fn hex_value_exec(c: char) -> (r: u8)
    requires
        is_hex(c),
    ensures
        r == hex_value(c),
        r < 16,
{
    if '0' <= c && c <= '9' {
        (c as u32 - '0' as u32) as u8
    } else if 'a' <= c && c <= 'f' {
        (c as u32 - 'a' as u32 + 10) as u8
    } else {
        (c as u32 - 'A' as u32 + 10) as u8
    }
}

/// One digit written twice: `a` is `0xaa`.
pub open spec fn widen(c: char) -> u8 {
    (hex_value(c) * 17) as u8
}

/// Two digits as a byte.
pub open spec fn byte_of(hi: char, lo: char) -> u8 {
    (hex_value(hi) * 16 + hex_value(lo)) as u8
}

/// The hex digits in order: the digit at position `k` has value `k`.
pub open spec fn hex_digits() -> Seq<char> {
    seq!['0', '1', '2', '3', '4', '5', '6', '7', '8', '9', 'a', 'b', 'c', 'd', 'e', 'f']
}

/// A digit's value is its place among `0123456789abcdef`, written in
/// either case, and no other character is a hex digit.
pub proof fn law_hex_digit_values(c: char)
    ensures
        forall|k: int| 0 <= k < 16 ==> #[trigger] hex_value(hex_digits()[k]) == k && is_hex(hex_digits()[k]),
        forall|k: int| 0 <= k < 16 ==> #[trigger] hex_value(ascii_upper(hex_digits()[k])) == k && is_hex(
            ascii_upper(hex_digits()[k]),
        ),
        is_hex(c) ==> exists|k: int| 0 <= k < 16 && (c == hex_digits()[k] || c == ascii_upper(#[trigger] hex_digits()[k])),
{
    let d = hex_digits();
    assert forall|k: int| 0 <= k < 16 implies #[trigger] hex_value(d[k]) == k && is_hex(d[k]) && hex_value(ascii_upper(d[k])) == k && is_hex(ascii_upper(d[k])) by {
        if k < 10 {
            assert(d[k] as u32 == '0' as u32 + k);
            assert(ascii_upper(d[k]) == d[k]);
        } else {
            assert(d[k] as u32 == 'a' as u32 + k - 10);
            assert(ascii_upper(d[k]) as u32 == 'A' as u32 + k - 10);
        }
    }
    if is_hex(c) {
        if '0' <= c && c <= '9' {
            let k = c as u32 - '0' as u32;
            assert(d[k as int] as u32 == c as u32);
        } else if 'a' <= c && c <= 'f' {
            let k = c as u32 - 'a' as u32 + 10;
            assert(d[k as int] as u32 == c as u32);
        } else {
            let k = c as u32 - 'A' as u32 + 10;
            assert(ascii_upper(d[k as int]) as u32 == c as u32);
        }
    }
}

proof fn lemma_lower_char(c: char)
    ensures
        is_ws(ascii_lower(c)) == is_ws(c),
        (ascii_lower(c) == '#') == (c == '#'),
        is_hex(ascii_lower(c)) == is_hex(c),
        is_hex(c) ==> hex_value(ascii_lower(c)) == hex_value(c),
{
    if 'A' <= c && c <= 'Z' {
        assert(ascii_lower(c) as u32 == c as u32 + 32);
    }
}

proof fn lemma_trim_start_lower(s: Seq<char>, set: TrimSet)
    requires
        set == TrimSet::Whitespace || set == TrimSet::Hash,
    ensures
        trim_start(s.map_values(|c: char| ascii_lower(c)), set) == trim_start(s, set).map_values(|c: char| ascii_lower(c)),
    decreases s.len(),
{
    let m = s.map_values(|c: char| ascii_lower(c));
    if s.len() > 0 {
        lemma_lower_char(s[0]);
        assert(m[0] == ascii_lower(s[0]));
        assert(m.drop_first() =~= s.drop_first().map_values(|c: char| ascii_lower(c)));
        lemma_trim_start_lower(s.drop_first(), set);
    } else {
        assert(m =~= s);
    }
}

proof fn lemma_trim_end_lower(s: Seq<char>, set: TrimSet)
    requires
        set == TrimSet::Whitespace || set == TrimSet::Hash,
    ensures
        trim_end(s.map_values(|c: char| ascii_lower(c)), set) == trim_end(s, set).map_values(|c: char| ascii_lower(c)),
    decreases s.len(),
{
    let m = s.map_values(|c: char| ascii_lower(c));
    if s.len() > 0 {
        lemma_lower_char(s.last());
        assert(m.last() == ascii_lower(s.last()));
        assert(m.drop_last() =~= s.drop_last().map_values(|c: char| ascii_lower(c)));
        lemma_trim_end_lower(s.drop_last(), set);
    } else {
        assert(m =~= s);
    }
}

/// Hex colours are read without regard to case: a colour reads the same
/// with its ASCII letters lowered, so `#FF0000` and `#ff0000` are one red.
pub proof fn law_colour_case_insensitive(raw: Seq<char>)
    ensures
        spec_parse_color(raw.map_values(|c: char| ascii_lower(c))) == spec_parse_color(raw),
{
    let low = raw.map_values(|c: char| ascii_lower(c));
    lemma_trim_start_lower(raw, TrimSet::Whitespace);
    let ts = trim_start(raw, TrimSet::Whitespace);
    lemma_trim_end_lower(ts, TrimSet::Whitespace);
    let t = trim(raw, TrimSet::Whitespace);
    assert(trim(low, TrimSet::Whitespace) == t.map_values(|c: char| ascii_lower(c)));
    lemma_trim_start_lower(t, TrimSet::Hash);
    let h = trim_start(t, TrimSet::Hash);
    let hl = trim_start(trim(low, TrimSet::Whitespace), TrimSet::Hash);
    assert(hl == h.map_values(|c: char| ascii_lower(c)));
    assert forall|i: int| 0 <= i < h.len() implies is_hex(#[trigger] hl[i]) == is_hex(h[i]) && (is_hex(h[i])
        ==> hex_value(hl[i]) == hex_value(h[i])) by {
        lemma_lower_char(h[i]);
    }
    if exists|i: int| 0 <= i < h.len() && !is_hex(#[trigger] h[i]) {
        let i = choose|i: int| 0 <= i < h.len() && !is_hex(#[trigger] h[i]);
        assert(!is_hex(hl[i]));
    } else {
        assert(forall|i: int| 0 <= i < hl.len() ==> is_hex(#[trigger] hl[i]));
        if h.len() == 3 || h.len() == 4 || h.len() == 6 || h.len() == 8 {
            assert(hex_value(hl[0]) == hex_value(h[0]));
            assert(hex_value(hl[1]) == hex_value(h[1]));
            assert(hex_value(hl[2]) == hex_value(h[2]));
            if h.len() >= 4 {
                assert(hex_value(hl[3]) == hex_value(h[3]));
            }
            if h.len() >= 6 {
                assert(hex_value(hl[4]) == hex_value(h[4]));
                assert(hex_value(hl[5]) == hex_value(h[5]));
            }
            if h.len() == 8 {
                assert(hex_value(hl[6]) == hex_value(h[6]));
                assert(hex_value(hl[7]) == hex_value(h[7]));
            }
        }
    }
}

/// Why a colour is refused.
#[derive(Clone, Copy, Debug, PartialEq, Eq, Structural)]
pub enum ColorError {
    NotHex,
    BadLength,
}

/// A colour written `#rgb`, `#rgba`, `#rrggbb` or `#rrggbbaa` (the `#`s
/// optional, surrounding space ignored).
pub open spec fn spec_parse_color(raw: Seq<char>) -> Result<Argb, ColorError> {
    let h = trim_start(trim(raw, TrimSet::Whitespace), TrimSet::Hash);
    if exists|i: int| 0 <= i < h.len() && !is_hex(#[trigger] h[i]) {
        Err(ColorError::NotHex)
    } else if h.len() == 3 {
        Ok(Argb { a: 0xff, r: widen(h[0]), g: widen(h[1]), b: widen(h[2]) })
    } else if h.len() == 4 {
        Ok(Argb { a: widen(h[3]), r: widen(h[0]), g: widen(h[1]), b: widen(h[2]) })
    } else if h.len() == 6 {
        Ok(Argb { a: 0xff, r: byte_of(h[0], h[1]), g: byte_of(h[2], h[3]), b: byte_of(h[4], h[5]) })
    } else if h.len() == 8 {
        Ok(Argb { a: byte_of(h[6], h[7]), r: byte_of(h[0], h[1]), g: byte_of(h[2], h[3]), b: byte_of(h[4], h[5]) })
    } else {
        Err(ColorError::BadLength)
    }
}

pub fn parse_color(raw: &str) -> (r: Result<Argb, ColorError>)
    ensures
        r == spec_parse_color(raw@),
{
    let t = trim_chars(to_chars(raw).as_slice(), TrimSet::Whitespace);
    let h = trim_start_chars(t.as_slice(), TrimSet::Hash);
    let mut i: usize = 0;
    while i < h.len()
        invariant
            i <= h@.len(),
            h@ == trim_start(trim(raw@, TrimSet::Whitespace), TrimSet::Hash),
            forall|k: int| 0 <= k < i ==> is_hex(#[trigger] h@[k]),
        decreases h.len() - i,
    {
        let c = h[i];
        if !(('0' <= c && c <= '9') || ('a' <= c && c <= 'f') || ('A' <= c && c <= 'F')) {
            assert(!is_hex(h@[i as int]));
            return Err(ColorError::NotHex);
        }
        i = i + 1;
    }
    if h.len() == 3 {
        let (x, y, z) = (hex_value_exec(h[0]), hex_value_exec(h[1]), hex_value_exec(h[2]));
        Ok(Argb { a: 0xff, r: x * 17, g: y * 17, b: z * 17 })
    } else if h.len() == 4 {
        let (x, y, z, w) = (hex_value_exec(h[0]), hex_value_exec(h[1]), hex_value_exec(h[2]), hex_value_exec(h[3]));
        Ok(Argb { a: w * 17, r: x * 17, g: y * 17, b: z * 17 })
    } else if h.len() == 6 || h.len() == 8 {
        let r = hex_value_exec(h[0]) * 16 + hex_value_exec(h[1]);
        let g = hex_value_exec(h[2]) * 16 + hex_value_exec(h[3]);
        let b = hex_value_exec(h[4]) * 16 + hex_value_exec(h[5]);
        let a = if h.len() == 8 {
            hex_value_exec(h[6]) * 16 + hex_value_exec(h[7])
        } else {
            0xff
        };
        Ok(Argb { a, r, g, b })
    } else {
        Err(ColorError::BadLength)
    }
}

/// Two colours separated by a comma, or one colour used twice.
pub open spec fn spec_parse_pair(raw: Seq<char>) -> Result<(Argb, Argb), ColorError> {
    let parts = split_on(raw, ',');
    match spec_parse_color(parts[0]) {
        Err(e) => Err(e),
        Ok(first) => if parts.len() >= 2 {
            match spec_parse_color(parts[1]) {
                Ok(second) => Ok((first, second)),
                Err(e) => Err(e),
            }
        } else {
            Ok((first, first))
        },
    }
}

pub fn parse_pair(raw: &str) -> (r: Result<(Argb, Argb), ColorError>)
    ensures
        r == spec_parse_pair(raw@),
{
    let parts = split_on_exec(to_chars(raw).as_slice(), ',');
    let ghost pv = parts@.map_values(|v: Vec<char>| v@);
    proof {
        crate::text::lemma_split_on_nonempty(raw@, ',');
    }
    assert(pv[0] == parts@[0]@);
    let first = match parse_color(from_chars(parts[0].as_slice()).as_str()) {
        Err(e) => return Err(e),
        Ok(c) => c,
    };
    if parts.len() >= 2 {
        assert(pv[1] == parts@[1]@);
        match parse_color(from_chars(parts[1].as_slice()).as_str()) {
            Ok(second) => Ok((first, second)),
            Err(e) => Err(e),
        }
    } else {
        Ok((first, first))
    }
}

// ---------------------------------------------------------------------
// Theme files

/// What a theme file sets. Colours not set keep the stock theme's.
pub struct ThemeFile {
    pub name: Option<String>,
    pub author: String,
    /// The last `IMAGE` value, if any line sets one.
    pub image: Option<String>,
    pub background: (Argb, Argb),
    pub border: (Argb, Argb),
    pub shadow: Argb,
    pub text_primary: Argb,
    pub text_secondary: Argb,
    pub surface: Option<Argb>,
    pub backdrop: Option<Argb>,
    pub scrim: Option<(Argb, Argb)>,
    pub accent: Option<Argb>,
    pub accent_strong: Option<Argb>,
    pub danger: Option<Argb>,
    pub warning: Option<Argb>,
    pub success: Option<Argb>,
    pub favorite: Option<Argb>,
    /// Whether one of the required colours was set.
    pub required_seen: bool,
}

/// The stock theme's colours: background, border, shadow, primary and
/// secondary text.
pub open spec fn stock_background() -> (Argb, Argb) {
    (spec_argb(0xdd11_1115), spec_argb(0xdd16_161a))
}

pub open spec fn stock_border() -> (Argb, Argb) {
    (spec_argb(0x25ff_ffff), spec_argb(0x0cff_ffff))
}

/// A theme file seen as plain values.
pub struct ThemeView {
    pub name: Option<Seq<char>>,
    pub author: Seq<char>,
    pub image: Option<Seq<char>>,
    pub background: (Argb, Argb),
    pub border: (Argb, Argb),
    pub shadow: Argb,
    pub text_primary: Argb,
    pub text_secondary: Argb,
    pub surface: Option<Argb>,
    pub backdrop: Option<Argb>,
    pub scrim: Option<(Argb, Argb)>,
    pub accent: Option<Argb>,
    pub accent_strong: Option<Argb>,
    pub danger: Option<Argb>,
    pub warning: Option<Argb>,
    pub success: Option<Argb>,
    pub favorite: Option<Argb>,
    pub required_seen: bool,
}

pub open spec fn opt_text(o: Option<String>) -> Option<Seq<char>> {
    match o {
        Some(s) => Some(s@),
        None => None,
    }
}

pub open spec fn theme_view(t: ThemeFile) -> ThemeView {
    ThemeView {
        name: opt_text(t.name),
        author: t.author@,
        image: opt_text(t.image),
        background: t.background,
        border: t.border,
        shadow: t.shadow,
        text_primary: t.text_primary,
        text_secondary: t.text_secondary,
        surface: t.surface,
        backdrop: t.backdrop,
        scrim: t.scrim,
        accent: t.accent,
        accent_strong: t.accent_strong,
        danger: t.danger,
        warning: t.warning,
        success: t.success,
        favorite: t.favorite,
        required_seen: t.required_seen,
    }
}

pub open spec fn stock_view() -> ThemeView {
    ThemeView {
        name: None,
        author: seq![],
        image: None,
        background: stock_background(),
        border: stock_border(),
        shadow: spec_argb(0xaa00_0000),
        text_primary: spec_argb(0xffff_ffff),
        text_secondary: spec_argb(0xffaa_aaaa),
        surface: None,
        backdrop: None,
        scrim: None,
        accent: None,
        accent_strong: None,
        danger: None,
        warning: None,
        success: None,
        favorite: None,
        required_seen: false,
    }
}

pub open spec fn ascii_upper(c: char) -> char {
    if 'a' <= c && c <= 'z' {
        ((c as u32) - 32) as char
    } else {
        c
    }
}

pub open spec fn ok_color(r: Result<Argb, ColorError>) -> Option<Argb> {
    match r {
        Ok(c) => Some(c),
        Err(_) => None,
    }
}

/// What a line of a theme file changes. The line is cleaned of a leading
/// byte-order mark and of surrounding space; empty lines, comments (`#`,
/// `//`) and lines without `|` change nothing; keys are read in upper case.
/// A required colour that parses counts as seen.
pub open spec fn theme_line(t: ThemeView, raw: Seq<char>) -> ThemeView {
    let line = trim(trim_start(raw, TrimSet::Bom), TrimSet::Whitespace);
    if line.len() == 0 || line[0] == '#' || starts_with(line, "//"@) {
        t
    } else {
        match split_once(line, '|') {
            None => t,
            Some((k, v)) => {
                let key = trim(k, TrimSet::Whitespace).map_values(|c: char| ascii_upper(c));
                let value = trim(v, TrimSet::Whitespace);
                if key == "NAME"@ {
                    ThemeView { name: Some(value), ..t }
                } else if key == "AUTHOR"@ {
                    ThemeView { author: value, ..t }
                } else if key == "IMAGE"@ {
                    ThemeView { image: Some(value), ..t }
                } else if key == "BACKGROUND"@ {
                    match spec_parse_pair(value) {
                        Ok(p) => ThemeView { background: p, required_seen: true, ..t },
                        Err(_) => t,
                    }
                } else if key == "BORDER"@ {
                    match spec_parse_pair(value) {
                        Ok(p) => ThemeView { border: p, required_seen: true, ..t },
                        Err(_) => t,
                    }
                } else if key == "OVERLAY"@ {
                    match spec_parse_pair(value) {
                        Ok(p) => ThemeView { scrim: Some(p), ..t },
                        Err(_) => t,
                    }
                } else if key == "SHADOW"@ {
                    match spec_parse_color(value) {
                        Ok(c) => ThemeView { shadow: c, required_seen: true, ..t },
                        Err(_) => t,
                    }
                } else if key == "PRIMARY_TEXT"@ {
                    match spec_parse_color(value) {
                        Ok(c) => ThemeView { text_primary: c, required_seen: true, ..t },
                        Err(_) => t,
                    }
                } else if key == "SECONDARY_TEXT"@ {
                    match spec_parse_color(value) {
                        Ok(c) => ThemeView { text_secondary: c, required_seen: true, ..t },
                        Err(_) => t,
                    }
                } else if key == "SURFACE"@ {
                    ThemeView { surface: ok_color(spec_parse_color(value)), ..t }
                } else if key == "BACKDROP"@ {
                    ThemeView { backdrop: ok_color(spec_parse_color(value)), ..t }
                } else if key == "ACCENT"@ {
                    ThemeView { accent: ok_color(spec_parse_color(value)), ..t }
                } else if key == "ACCENT_STRONG"@ {
                    ThemeView { accent_strong: ok_color(spec_parse_color(value)), ..t }
                } else if key == "DANGER"@ {
                    ThemeView { danger: ok_color(spec_parse_color(value)), ..t }
                } else if key == "WARNING"@ {
                    ThemeView { warning: ok_color(spec_parse_color(value)), ..t }
                } else if key == "SUCCESS"@ {
                    ThemeView { success: ok_color(spec_parse_color(value)), ..t }
                } else if key == "FAVORITE"@ || key == "FAVOURITE"@ {
                    ThemeView { favorite: ok_color(spec_parse_color(value)), ..t }
                } else {
                    t
                }
            },
        }
    }
}

pub open spec fn theme_lines(ls: Seq<Seq<char>>) -> ThemeView
    decreases ls.len(),
{
    if ls.len() == 0 {
        stock_view()
    } else {
        theme_line(theme_lines(ls.drop_last()), ls.last())
    }
}

/// Why a theme file is refused.
#[derive(Clone, Copy, Debug, PartialEq, Eq, Structural)]
pub enum ThemeError {
    /// It sets none of the required colours.
    NotATheme,
}

/// A theme file read line by line; it is refused when no required colour
/// (background, border, shadow, primary or secondary text) parses.
pub open spec fn spec_parse(contents: Seq<char>) -> Result<ThemeView, ThemeError> {
    let t = theme_lines(lines(contents));
    if !t.required_seen {
        Err(ThemeError::NotATheme)
    } else {
        Ok(t)
    }
}

fn upper_key(k: &[char]) -> (r: Vec<char>)
    ensures
        r@ == k@.map_values(|c: char| ascii_upper(c)),
{
    let mut out: Vec<char> = Vec::new();
    let mut i: usize = 0;
    while i < k.len()
        invariant
            i <= k@.len(),
            out@ == k@.subrange(0, i as int).map_values(|c: char| ascii_upper(c)),
        decreases k.len() - i,
    {
        let c = k[i];
        let u = if 'a' <= c && c <= 'z' {
            ((c as u32) - 32) as u8 as char
        } else {
            c
        };
        assert(u == ascii_upper(c));
        out.push(u);
        i = i + 1;
        assert(out@ =~= k@.subrange(0, i as int).map_values(|c: char| ascii_upper(c)));
    }
    assert(k@.subrange(0, k@.len() as int) =~= k@);
    out
}

fn key_is(key: &[char], name: &str) -> (r: bool)
    ensures
        r == (key@ == name@),
{
    crate::text::eq_chars(key, to_chars(name).as_slice())
}

fn apply_theme_line(t: &mut ThemeFile, raw: &[char])
    ensures
        theme_view(*final(t)) == theme_line(theme_view(*old(t)), raw@),
{
    let no_bom = trim_start_chars(raw, TrimSet::Bom);
    let line = trim_chars(no_bom.as_slice(), TrimSet::Whitespace);
    let slashes = to_chars("//");
    if line.len() == 0 || line[0] == '#' || starts_with_chars(line.as_slice(), slashes.as_slice()) {
        return;
    }
    let (k, v) = match split_once_chars(line.as_slice(), '|') {
        None => return,
        Some(kv) => kv,
    };
    let key = upper_key(trim_chars(k.as_slice(), TrimSet::Whitespace).as_slice());
    let value = trim_chars(v.as_slice(), TrimSet::Whitespace);
    let text = from_chars(value.as_slice());
    let ghost before = theme_view(*t);
    if key_is(key.as_slice(), "NAME") {
        t.name = Some(text);
    } else if key_is(key.as_slice(), "AUTHOR") {
        t.author = text;
    } else if key_is(key.as_slice(), "IMAGE") {
        t.image = Some(text);
    } else if key_is(key.as_slice(), "BACKGROUND") {
        if let Ok(p) = parse_pair(text.as_str()) {
            t.background = p;
            t.required_seen = true;
        }
    } else if key_is(key.as_slice(), "BORDER") {
        if let Ok(p) = parse_pair(text.as_str()) {
            t.border = p;
            t.required_seen = true;
        }
    } else if key_is(key.as_slice(), "OVERLAY") {
        if let Ok(p) = parse_pair(text.as_str()) {
            t.scrim = Some(p);
        }
    } else if key_is(key.as_slice(), "SHADOW") {
        if let Ok(c) = parse_color(text.as_str()) {
            t.shadow = c;
            t.required_seen = true;
        }
    } else if key_is(key.as_slice(), "PRIMARY_TEXT") {
        if let Ok(c) = parse_color(text.as_str()) {
            t.text_primary = c;
            t.required_seen = true;
        }
    } else if key_is(key.as_slice(), "SECONDARY_TEXT") {
        if let Ok(c) = parse_color(text.as_str()) {
            t.text_secondary = c;
            t.required_seen = true;
        }
    } else if key_is(key.as_slice(), "SURFACE") {
        t.surface = parse_color(text.as_str()).ok();
    } else if key_is(key.as_slice(), "BACKDROP") {
        t.backdrop = parse_color(text.as_str()).ok();
    } else if key_is(key.as_slice(), "ACCENT") {
        t.accent = parse_color(text.as_str()).ok();
    } else if key_is(key.as_slice(), "ACCENT_STRONG") {
        t.accent_strong = parse_color(text.as_str()).ok();
    } else if key_is(key.as_slice(), "DANGER") {
        t.danger = parse_color(text.as_str()).ok();
    } else if key_is(key.as_slice(), "WARNING") {
        t.warning = parse_color(text.as_str()).ok();
    } else if key_is(key.as_slice(), "SUCCESS") {
        t.success = parse_color(text.as_str()).ok();
    } else if key_is(key.as_slice(), "FAVORITE") || key_is(key.as_slice(), "FAVOURITE") {
        t.favorite = parse_color(text.as_str()).ok();
    }
}

/// Reads a theme file.
pub fn parse(contents: &str) -> (r: Result<ThemeFile, ThemeError>)
    ensures
        match r {
            Ok(t) => spec_parse(contents@) == Ok::<ThemeView, ThemeError>(theme_view(t)),
            Err(e) => spec_parse(contents@) == Err::<ThemeView, ThemeError>(e),
        },
{
    let ls = lines_exec(to_chars(contents).as_slice());
    let ghost lv = ls@.map_values(|v: Vec<char>| v@);
    let mut t = ThemeFile {
        name: None,
        author: String::new(),
        image: None,
        background: (argb(0xdd11_1115), argb(0xdd16_161a)),
        border: (argb(0x25ff_ffff), argb(0x0cff_ffff)),
        shadow: argb(0xaa00_0000),
        text_primary: argb(0xffff_ffff),
        text_secondary: argb(0xffaa_aaaa),
        surface: None,
        backdrop: None,
        scrim: None,
        accent: None,
        accent_strong: None,
        danger: None,
        warning: None,
        success: None,
        favorite: None,
        required_seen: false,
    };
    assert(theme_view(t) == theme_lines(lv.subrange(0, 0)));
    let mut i: usize = 0;
    while i < ls.len()
        invariant
            i <= ls@.len(),
            lv == ls@.map_values(|v: Vec<char>| v@),
            lv == lines(contents@),
            theme_view(t) == theme_lines(lv.subrange(0, i as int)),
        decreases ls.len() - i,
    {
        assert(lv.subrange(0, i + 1).drop_last() =~= lv.subrange(0, i as int));
        assert(lv.subrange(0, i + 1).last() == ls@[i as int]@);
        apply_theme_line(&mut t, ls[i].as_slice());
        i = i + 1;
    }
    assert(lv.subrange(0, lv.len() as int) =~= lv);
    if !t.required_seen {
        return Err(ThemeError::NotATheme);
    }
    Ok(t)
}

// ---------------------------------------------------------------------
// Choices

/// The colours a theme falls back on where it sets none of its own:
/// accent, strong accent (else the accent), danger, warning and success.
pub fn resolved_accents(t: &ThemeFile) -> (r: (Argb, Argb, Argb, Argb, Argb))
    ensures
        r.0 == (match t.accent { Some(c) => c, None => spec_argb(0xff6d_b3f2) }),
        r.1 == (match t.accent_strong { Some(c) => c, None => match t.accent { Some(c) => c, None => spec_argb(0xff3b_82f6) } }),
        r.2 == (match t.danger { Some(c) => c, None => spec_argb(0xffee_4937) }),
        r.3 == (match t.warning { Some(c) => c, None => spec_argb(0xffe8_a020) }),
        r.4 == (match t.success { Some(c) => c, None => spec_argb(0xff22_c55e) }),
{
    let accent = match t.accent { Some(c) => c, None => argb(0xff6d_b3f2) };
    let strong = match t.accent_strong {
        Some(c) => c,
        None => match t.accent { Some(c) => c, None => argb(0xff3b_82f6) },
    };
    let danger = match t.danger { Some(c) => c, None => argb(0xffee_4937) };
    let warning = match t.warning { Some(c) => c, None => argb(0xffe8_a020) };
    let success = match t.success { Some(c) => c, None => argb(0xff22_c55e) };
    (accent, strong, danger, warning, success)
}

/// What an `IMAGE` value names before any file is looked at: no image
/// (empty or `none`), a link, or a path.
pub enum ImageChoice {
    NoImage,
    Remote(String),
    Path(String),
}

pub fn image_choice(raw: &str) -> (r: ImageChoice)
    ensures
        ({
            let t = trim(raw@, TrimSet::Whitespace);
            match r {
                ImageChoice::NoImage => t.len() == 0 || eq_ignore_ascii_case(t, "none"@),
                ImageChoice::Remote(u) => !(t.len() == 0 || eq_ignore_ascii_case(t, "none"@)) && (starts_with(
                    t,
                    "http://"@,
                ) || starts_with(t, "https://"@)) && u@ == t,
                ImageChoice::Path(p) => !(t.len() == 0 || eq_ignore_ascii_case(t, "none"@)) && !(starts_with(
                    t,
                    "http://"@,
                ) || starts_with(t, "https://"@)) && p@ == t,
            }
        }),
{
    let t = trim_chars(to_chars(raw).as_slice(), TrimSet::Whitespace);
    if t.len() == 0 || eq_ignore_ascii_case_chars(t.as_slice(), to_chars("none").as_slice()) {
        return ImageChoice::NoImage;
    }
    let http = to_chars("http://");
    let https = to_chars("https://");
    if starts_with_chars(t.as_slice(), http.as_slice()) || starts_with_chars(t.as_slice(), https.as_slice()) {
        return ImageChoice::Remote(from_chars(t.as_slice()));
    }
    ImageChoice::Path(from_chars(t.as_slice()))
}

/// The theme a saved choice selects: the first with that ID, else the
/// first theme, else none (the stock theme).
pub fn find(ids: &Vec<String>, id: &str) -> (r: Option<usize>)
    ensures
        match r {
            Some(i) => i < ids@.len() && ((ids@[i as int]@ == id@ && forall|j: int| 0 <= j < i ==> #[trigger] ids@[j]@ != id@)
                || (i == 0 && forall|j: int| 0 <= j < ids@.len() ==> #[trigger] ids@[j]@ != id@)),
            None => ids@.len() == 0,
        },
{
    let mut i: usize = 0;
    while i < ids.len()
        invariant
            i <= ids@.len(),
            forall|j: int| 0 <= j < i ==> #[trigger] ids@[j]@ != id@,
        decreases ids.len() - i,
    {
        if same_text(ids[i].as_str(), id) {
            return Some(i);
        }
        i = i + 1;
    }
    if ids.len() > 0 {
        Some(0)
    } else {
        None
    }
}

/// The imported themes that the list keeps: those whose ID no shipped
/// theme has.
pub open spec fn kept_imports<T>(builtin_ids: Seq<Seq<char>>, imported: Seq<(String, String, T)>) -> Seq<(String, String, T)> {
    imported.filter(|e: (String, String, T)| !builtin_ids.contains(e.0@))
}

/// Imported themes sort by name, ignoring case.
pub open spec fn import_keys<T>(imported: Seq<(String, String, T)>) -> Seq<KeyView> {
    imported.map_values(|e: (String, String, T)| (0u8, 0i128, lowercase(e.1@)))
}

/// The theme list: the shipped themes in their order, then the imported
/// ones (each given as ID, name and theme) whose ID no shipped theme has,
/// sorted by name ignoring case, ties keeping their order.
pub fn list<T>(builtins: Vec<T>, builtin_ids: &Vec<String>, imported: Vec<(String, String, T)>) -> (r: Vec<T>)
    ensures
        exists|order: Seq<usize>|
            is_stable_order(import_keys(kept_imports(strings_view(builtin_ids@), imported@)), order) && r@.len()
                == builtins@.len() + order.len() && r@.subrange(0, builtins@.len() as int) == builtins@
                && forall|k: int|
                0 <= k < order.len() ==> #[trigger] r@[builtins@.len() + k] == kept_imports(
                    strings_view(builtin_ids@),
                    imported@,
                )[order[k] as int].2,
{
    let ghost ids = strings_view(builtin_ids@);
    let ghost orig = imported@;
    let ghost keep = |e: (String, String, T)| !ids.contains(e.0@);
    let mut rest = imported;
    let mut kept: Vec<(String, String, T)> = Vec::new();
    let n = rest.len();
    let mut taken: usize = 0;
    while taken < n
        invariant
            n == orig.len(),
            taken <= n,
            ids == strings_view(builtin_ids@),
            keep == (|e: (String, String, T)| !ids.contains(e.0@)),
            rest@ == orig.subrange(taken as int, n as int),
            kept@ == orig.subrange(0, taken as int).filter(keep),
        decreases n - taken,
    {
        proof {
            reveal(Seq::filter);
            assert(orig.subrange(0, taken + 1).drop_last() =~= orig.subrange(0, taken as int));
        }
        let e = rest.remove(0);
        assert(e == orig[taken as int]);
        let mut shipped = false;
        let mut j: usize = 0;
        while j < builtin_ids.len()
            invariant
                j <= builtin_ids@.len(),
                ids == strings_view(builtin_ids@),
                shipped == exists|m: int| 0 <= m < j && ids[m] == e.0@,
            decreases builtin_ids.len() - j,
        {
            assert(ids[j as int] == builtin_ids@[j as int]@);
            if same_text(builtin_ids[j].as_str(), e.0.as_str()) {
                shipped = true;
            }
            j = j + 1;
        }
        assert(shipped == ids.contains(e.0@));
        if !shipped {
            kept.push(e);
        }
        taken = taken + 1;
        assert(rest@ =~= orig.subrange(taken as int, n as int));
    }
    assert(orig.subrange(0, n as int) =~= orig);
    let ghost shown = kept@;
    let mut keys: Vec<SortKey> = Vec::new();
    let mut i: usize = 0;
    while i < kept.len()
        invariant
            i <= kept@.len(),
            keys@.len() == i,
            forall|k: int| 0 <= k < i ==> #[trigger] keys_view(keys@)[k] == (0u8, 0i128, lowercase(kept@[k].1@)),
        decreases kept.len() - i,
    {
        let lower = to_lowercase(kept[i].1.as_str());
        let key = SortKey { rank: 0, number: 0, text: to_chars(lower.as_str()) };
        let ghost before = keys@;
        keys.push(key);
        assert(keys_view(keys@) =~= keys_view(before).push(crate::ordering::key_view(key)));
        i = i + 1;
    }
    assert(keys_view(keys@) =~= import_keys(shown));
    let order = stable_order(&keys);
    proof {
        assert forall|a: int, b: int| 0 <= a < b < order@.len() implies #[trigger] order@[a] != #[trigger] order@[b] by {
            lemma_sorted_distinct(keys_view(keys@), order@, a, b);
        }
    }
    let arranged = arrange(kept, &order);
    let mut out = builtins;
    let ghost front = out@;
    let mut rest2 = arranged;
    let ghost av = rest2@;
    let m = rest2.len();
    let mut moved: usize = 0;
    while moved < m
        invariant
            m == av.len(),
            moved <= m,
            rest2@ == av.subrange(moved as int, m as int),
            out@ == front + av.subrange(0, moved as int).map_values(|e: (String, String, T)| e.2),
        decreases m - moved,
    {
        let x = rest2.remove(0);
        let (_, _, t) = x;
        out.push(t);
        moved = moved + 1;
        assert(rest2@ =~= av.subrange(moved as int, m as int));
        assert(out@ =~= front + av.subrange(0, moved as int).map_values(|e: (String, String, T)| e.2));
    }
    assert(av.subrange(0, m as int) =~= av);
    assert(out@.subrange(0, front.len() as int) =~= front);
    assert(shown == kept_imports(ids, orig));
    out
}

} // verus!
