//! Version numbers and the decisions of the self-updater: which kind of
//! update a release is, and how the launch button is locked and restored
//! around an update.
use vstd::prelude::*;
use core::cmp::Ordering;
use crate::text::{concat_chars, from_chars, index_of_char, index_of_char_exec, lemma_index_of_char, slice_chars,
    split_on, split_on_exec, to_chars, trim, trim_chars, trim_start, trim_start_chars, TrimSet};

verus! {

/// The state of the launch button.
#[derive(Clone, Copy, PartialEq, Eq, Debug)]
pub enum LaunchState {
    Launch,
    Launching,
    Running,
    Updating,
}

pub open spec fn code_of(s: LaunchState) -> u8 {
    match s {
        LaunchState::Launch => 0,
        LaunchState::Launching => 1,
        LaunchState::Running => 2,
        LaunchState::Updating => 3,
    }
}

pub open spec fn state_of(code: u8) -> Option<LaunchState> {
    if code == 0 {
        Some(LaunchState::Launch)
    } else if code == 1 {
        Some(LaunchState::Launching)
    } else if code == 2 {
        Some(LaunchState::Running)
    } else if code == 3 {
        Some(LaunchState::Updating)
    } else {
        None
    }
}

impl LaunchState {
    /// The byte that stands for the state while it is saved aside.
    pub fn to_code(&self) -> (r: u8)
        ensures
            r == code_of(*self),
    {
        match self {
            LaunchState::Launch => 0,
            LaunchState::Launching => 1,
            LaunchState::Running => 2,
            LaunchState::Updating => 3,
        }
    }

    /// The state that a saved byte stands for; `None` for any other byte.
    pub fn from_code(code: u8) -> (r: Option<LaunchState>)
        ensures
            r == state_of(code),
    {
        match code {
            0 => Some(LaunchState::Launch),
            1 => Some(LaunchState::Launching),
            2 => Some(LaunchState::Running),
            3 => Some(LaunchState::Updating),
            _ => None,
        }
    }
}

/// A state read back from its code is the state that was saved.
pub proof fn law_code_round_trip(s: LaunchState)
    ensures
        state_of(code_of(s)) == Some(s),
{
}

/// A code that stands for a state is that state's code.
pub proof fn law_code_unique(code: u8)
    ensures
        state_of(code) matches Some(s) ==> code_of(s) == code,
{
}

/// What an update is to the installed version.
#[derive(Clone, Copy, PartialEq, Eq, Debug)]
pub enum UpdateKind {
    Minor,
    Major,
    Downgrade,
}

pub open spec fn is_digit(c: char) -> bool {
    '0' <= c && c <= '9'
}

pub open spec fn digit_value(c: char) -> nat {
    ((c as u32) - ('0' as u32)) as nat
}

/// The number that a string of decimal digits spells.
pub open spec fn digits_value(s: Seq<char>) -> nat
    decreases s.len(),
{
    if s.len() == 0 {
        0
    } else {
        digits_value(s.drop_last()) * 10 + digit_value(s.last())
    }
}

/// A text without the one `+` that may lead it.
pub open spec fn unsigned_part(s: Seq<char>) -> Seq<char> {
    if s.len() > 0 && s[0] == '+' {
        s.drop_first()
    } else {
        s
    }
}

/// One or more decimal digits whose value fits in 64 bits.
pub open spec fn parse_digits(d: Seq<char>) -> Option<u64> {
    if d.len() == 0 {
        None
    } else if exists|i: int| 0 <= i < d.len() && !is_digit(#[trigger] d[i]) {
        None
    } else if digits_value(d) > u64::MAX {
        None
    } else {
        Some(digits_value(d) as u64)
    }
}

/// `u64::from_str`: an optional `+`, then one or more decimal digits whose
/// value fits in 64 bits.
pub open spec fn parse_u64(s: Seq<char>) -> Option<u64> {
    parse_digits(unsigned_part(s))
}

pub proof fn lemma_digits_prefix_grows(s: Seq<char>, i: int, j: int)
    requires
        0 <= i <= j <= s.len(),
    ensures
        digits_value(s.subrange(0, i)) <= digits_value(s.subrange(0, j)),
    decreases j - i,
{
    if i < j {
        lemma_digits_prefix_grows(s, i, j - 1);
        assert(s.subrange(0, j).drop_last() =~= s.subrange(0, j - 1));
    }
}

pub fn parse_u64_exec(s: &[char]) -> (r: Option<u64>)
    ensures
        r == parse_u64(s@),
{
    let start: usize = if s.len() > 0 && s[0] == '+' {
        1
    } else {
        0
    };
    let d = slice_chars(s, start, s.len());
    assert(d@ =~= unsigned_part(s@));
    parse_digits_exec(d.as_slice())
}

fn parse_digits_exec(d: &[char]) -> (r: Option<u64>)
    ensures
        r == parse_digits(d@),
{
    if d.len() == 0 {
        return None;
    }
    let mut i: usize = 0;
    while i < d.len()
        invariant
            i <= d@.len(),
            forall|k: int| 0 <= k < i ==> is_digit(d@[k]),
        decreases d.len() - i,
    {
        if !('0' <= d[i] && d[i] <= '9') {
            assert(!is_digit(d@[i as int]));
            return None;
        }
        i = i + 1;
    }
    let mut value: u64 = 0;
    let mut k: usize = 0;
    assert(d@.subrange(0, 0) =~= Seq::<char>::empty());
    while k < d.len()
        invariant
            k <= d@.len(),
            forall|t: int| 0 <= t < d@.len() ==> is_digit(d@[t]),
            value == digits_value(d@.subrange(0, k as int)),
        decreases d.len() - k,
    {
        let digit: u64 = (d[k] as u32 - '0' as u32) as u64;
        assert(d@.subrange(0, k + 1).drop_last() =~= d@.subrange(0, k as int));
        assert(digits_value(d@.subrange(0, k + 1)) == value * 10 + digit);
        if value > (u64::MAX - digit) / 10 {
            proof {
                let m = (u64::MAX - digit) as int;
                assert(value * 10 + digit > u64::MAX) by (nonlinear_arith)
                    requires
                        value > m / 10,
                        m == u64::MAX - digit,
                        0 <= digit <= 9,
                ;
                lemma_digits_prefix_grows(d@, k + 1, d@.len() as int);
                assert(d@.subrange(0, d@.len() as int) =~= d@);
            }
            return None;
        }
        value = value * 10 + digit;
        k = k + 1;
    }
    assert(d@.subrange(0, d@.len() as int) =~= d@);
    Some(value)
}

/// The prefix of `s` before the first `-` or `+`.
pub open spec fn before_sign(s: Seq<char>) -> Seq<char> {
    let a = match index_of_char(s, '-') {
        Some(i) => s.subrange(0, i),
        None => s,
    };
    match index_of_char(a, '+') {
        Some(i) => a.subrange(0, i),
        None => a,
    }
}

/// `parse_u64` of every piece, when each piece parses.
pub open spec fn parse_all(parts: Seq<Seq<char>>) -> Option<Seq<u64>>
    decreases parts.len(),
{
    if parts.len() == 0 {
        Some(seq![])
    } else {
        match (parse_all(parts.drop_last()), parse_u64(parts.last())) {
            (Some(p), Some(v)) => Some(p.push(v)),
            _ => None,
        }
    }
}

/// A version string read as its numbers: surrounding whitespace and leading
/// `v`s dropped, anything from the first `-` or `+` on ignored, the rest
/// split at dots, and every piece a number.
pub open spec fn spec_parse_version(version: Seq<char>) -> Option<Seq<u64>> {
    let t = trim_start(trim(version, TrimSet::Whitespace), TrimSet::LetterV);
    let parts = split_on(before_sign(t), '.');
    match parse_all(parts) {
        Some(p) => if p.len() > 0 {
            Some(p)
        } else {
            None
        },
        None => None,
    }
}

fn prefix_before(s: &[char], c: char) -> (r: Vec<char>)
    ensures
        r@ == (match index_of_char(s@, c) {
            Some(i) => s@.subrange(0, i),
            None => s@,
        }),
{
    proof {
        lemma_index_of_char(s@, c);
    }
    match index_of_char_exec(s, c) {
        Some(i) => slice_chars(s, 0, i),
        None => {
            assert(s@.subrange(0, s@.len() as int) =~= s@);
            slice_chars(s, 0, s.len())
        },
    }
}

pub fn parse_version(version: &str) -> (r: Option<Vec<u64>>)
    ensures
        r matches Some(v) ==> spec_parse_version(version@) == Some(v@),
        r is None ==> spec_parse_version(version@) is None,
{
    let chars = to_chars(version);
    let trimmed = trim_chars(chars.as_slice(), TrimSet::Whitespace);
    let t = trim_start_chars(trimmed.as_slice(), TrimSet::LetterV);
    let a = prefix_before(t.as_slice(), '-');
    let core = prefix_before(a.as_slice(), '+');
    let parts = split_on_exec(core.as_slice(), '.');
    let ghost pv = parts@.map_values(|v: Vec<char>| v@);
    assert(core@ == before_sign(t@));
    assert(t@ == trim_start(trim(version@, TrimSet::Whitespace), TrimSet::LetterV));
    assert(pv == split_on(before_sign(t@), '.'));
    let mut values: Vec<u64> = Vec::new();
    let mut k: usize = 0;
    while k < parts.len()
        invariant
            k <= parts@.len(),
            pv == parts@.map_values(|v: Vec<char>| v@),
            pv == split_on(before_sign(t@), '.'),
            t@ == trim_start(trim(version@, TrimSet::Whitespace), TrimSet::LetterV),
            parse_all(pv.take(k as int)) == Some(values@),
        decreases parts.len() - k,
    {
        assert(pv.take(k + 1).drop_last() =~= pv.take(k as int));
        assert(pv[k as int] == parts@[k as int]@);
        match parse_u64_exec(parts[k].as_slice()) {
            Some(v) => {
                values.push(v);
            },
            None => {
                proof {
                    assert(pv.take(k + 1).last() == pv[k as int]);
                    lemma_parse_all_prefix_none(pv, k as int + 1);
                    assert(parse_all(pv) is None);
                    assert(parse_all(split_on(before_sign(t@), '.')) is None);
                }
                return None;
            },
        }
        k = k + 1;
    }
    assert(pv.take(pv.len() as int) =~= pv);
    if values.len() == 0 {
        return None;
    }
    Some(values)
}

/// Once a prefix of the pieces fails to parse, so do all of them.
pub proof fn lemma_parse_all_prefix_none(parts: Seq<Seq<char>>, i: int)
    requires
        0 <= i <= parts.len(),
        parse_all(parts.take(i)) is None,
    ensures
        parse_all(parts) is None,
    decreases parts.len() - i,
{
    if i < parts.len() {
        assert(parts.take(i + 1).drop_last() =~= parts.take(i));
        lemma_parse_all_prefix_none(parts, i + 1);
    } else {
        assert(parts.take(i) =~= parts);
    }
}

/// The `i`th number of a version, zero past its end.
pub open spec fn at(v: Seq<u64>, i: int) -> int {
    if 0 <= i < v.len() {
        v[i] as int
    } else {
        0
    }
}

/// Comparing numbers from position `i` on: -1, 0 or 1.
pub open spec fn order_from(a: Seq<u64>, b: Seq<u64>, i: int) -> int
    decreases (if a.len() > b.len() {
        a.len()
    } else {
        b.len()
    }) - i,
{
    if i < 0 || (i >= a.len() && i >= b.len()) {
        0
    } else if at(a, i) < at(b, i) {
        -1
    } else if at(a, i) > at(b, i) {
        1
    } else {
        order_from(a, b, i + 1)
    }
}

/// Versions compared number by number, a missing number counting as zero.
pub open spec fn spec_compare(a: Seq<u64>, b: Seq<u64>) -> int {
    order_from(a, b, 0)
}

pub open spec fn ordering_value(o: Ordering) -> int {
    match o {
        Ordering::Less => -1,
        Ordering::Equal => 0,
        Ordering::Greater => 1,
    }
}

fn number_at(v: &[u64], i: usize) -> (r: u64)
    ensures
        r == at(v@, i as int),
{
    if i < v.len() {
        v[i]
    } else {
        0
    }
}

fn compare_code(local: &[u64], remote: &[u64]) -> (r: i8)
    ensures
        r == spec_compare(local@, remote@),
{
    let width = if local.len() > remote.len() {
        local.len()
    } else {
        remote.len()
    };
    let mut i: usize = 0;
    while i < width
        invariant
            i <= width,
            width == (if local@.len() > remote@.len() {
                local@.len()
            } else {
                remote@.len()
            }),
            spec_compare(local@, remote@) == order_from(local@, remote@, i as int),
        decreases width - i,
    {
        let a = number_at(local, i);
        let b = number_at(remote, i);
        if a < b {
            return -1;
        }
        if a > b {
            return 1;
        }
        i = i + 1;
    }
    0
}

pub fn compare_versions(local: &[u64], remote: &[u64]) -> (r: Ordering)
    ensures
        ordering_value(r) == spec_compare(local@, remote@),
{
    let code = compare_code(local, remote);
    proof {
        lemma_order_from_range(local@, remote@, 0);
    }
    if code < 0 {
        Ordering::Less
    } else if code > 0 {
        Ordering::Greater
    } else {
        Ordering::Equal
    }
}

/// The first two numbers of a version, each when present.
pub open spec fn staple(v: Seq<u64>) -> (Option<u64>, Option<u64>) {
    (
        if v.len() > 0 {
            Some(v[0])
        } else {
            None
        },
        if v.len() > 1 {
            Some(v[1])
        } else {
            None
        },
    )
}

/// A release that does not parse is a major update; one older than the
/// installed version a downgrade; one that keeps the first two numbers a
/// minor update; anything else a major update.
pub open spec fn spec_update_kind(local: Seq<char>, remote: Seq<char>) -> UpdateKind {
    match (spec_parse_version(local), spec_parse_version(remote)) {
        (Some(l), Some(r)) => if spec_compare(l, r) == 1 {
            UpdateKind::Downgrade
        } else if staple(l) == staple(r) {
            UpdateKind::Minor
        } else {
            UpdateKind::Major
        },
        _ => UpdateKind::Major,
    }
}

fn staple_exec(v: &[u64]) -> (r: (Option<u64>, Option<u64>))
    ensures
        r == staple(v@),
{
    (
        if v.len() > 0 {
            Some(v[0])
        } else {
            None
        },
        if v.len() > 1 {
            Some(v[1])
        } else {
            None
        },
    )
}

pub fn update_kind(local: &str, remote: &str) -> (r: UpdateKind)
    ensures
        r == spec_update_kind(local@, remote@),
{
    let l = match parse_version(local) {
        Some(l) => l,
        None => return UpdateKind::Major,
    };
    let r = match parse_version(remote) {
        Some(r) => r,
        None => return UpdateKind::Major,
    };
    match compare_versions(l.as_slice(), r.as_slice()) {
        Ordering::Greater => return UpdateKind::Downgrade,
        _ => {},
    }
    let (l0, l1) = staple_exec(l.as_slice());
    let (r0, r1) = staple_exec(r.as_slice());
    if l0 == r0 && l1 == r1 {
        UpdateKind::Minor
    } else {
        UpdateKind::Major
    }
}

/// Version `a` is newer than `b` from position `k` on: at the first
/// position from `k` where their numbers differ (a missing number counting
/// as 0), `a`'s is the greater.
pub open spec fn newer_from(a: Seq<u64>, b: Seq<u64>, k: int) -> bool {
    exists|i: int| k <= i && #[trigger] at(a, i) > at(b, i) && forall|j: int| k <= j < i ==> #[trigger] at(a, j) == at(b, j)
}

proof fn lemma_order_from_newer(a: Seq<u64>, b: Seq<u64>, k: int)
    requires
        0 <= k,
    ensures
        order_from(a, b, k) == 1 <==> newer_from(a, b, k),
    decreases (if a.len() > b.len() {
        a.len()
    } else {
        b.len()
    }) - k,
{
    if k >= a.len() && k >= b.len() {
        if newer_from(a, b, k) {
            let i = choose|i: int| k <= i && #[trigger] at(a, i) > at(b, i) && forall|j: int| k <= j < i ==> #[trigger] at(a, j) == at(b, j);
            assert(at(a, i) == 0 && at(b, i) == 0);
        }
    } else if at(a, k) < at(b, k) {
        if newer_from(a, b, k) {
            let i = choose|i: int| k <= i && #[trigger] at(a, i) > at(b, i) && forall|j: int| k <= j < i ==> #[trigger] at(a, j) == at(b, j);
            if i > k {
                assert(at(a, k) == at(b, k));
            }
        }
    } else if at(a, k) > at(b, k) {
        assert(newer_from(a, b, k));
    } else {
        lemma_order_from_newer(a, b, k + 1);
        if newer_from(a, b, k) {
            let i = choose|i: int| k <= i && #[trigger] at(a, i) > at(b, i) && forall|j: int| k <= j < i ==> #[trigger] at(a, j) == at(b, j);
            assert(i != k);
            assert(forall|j: int| k + 1 <= j < i ==> #[trigger] at(a, j) == at(b, j));
            assert(newer_from(a, b, k + 1));
        }
        if newer_from(a, b, k + 1) {
            let i = choose|i: int| k + 1 <= i && #[trigger] at(a, i) > at(b, i) && forall|j: int| k + 1 <= j < i ==> #[trigger] at(a, j) == at(b, j);
            assert(forall|j: int| k <= j < i ==> #[trigger] at(a, j) == at(b, j));
            assert(newer_from(a, b, k));
        }
    }
}

/// An offered release is a downgrade exactly when both versions read and
/// the installed one is newer: at the first position where their numbers
/// differ, a missing number counting as 0, the installed number is the
/// greater.
pub proof fn law_downgrade_iff_installed_newer(local: Seq<char>, remote: Seq<char>)
    ensures
        spec_update_kind(local, remote) == UpdateKind::Downgrade <==> (spec_parse_version(local) matches Some(l)
            && spec_parse_version(remote) matches Some(r) && newer_from(l, r, 0)),
{
    match (spec_parse_version(local), spec_parse_version(remote)) {
        (Some(l), Some(r)) => {
            lemma_order_from_newer(l, r, 0);
        },
        _ => {},
    }
}

/// The other kinds: a release that does not read, or an installed one that
/// does not, is a major update; otherwise one the installed version is not
/// newer than is a minor update exactly when it has the same first and
/// second numbers (each present in both or in neither).
pub proof fn law_minor_keeps_first_two_numbers(local: Seq<char>, remote: Seq<char>)
    ensures
        (spec_parse_version(local) is None || spec_parse_version(remote) is None) ==> spec_update_kind(local, remote)
            == UpdateKind::Major,
        spec_update_kind(local, remote) == UpdateKind::Minor <==> (spec_parse_version(local) matches Some(l)
            && spec_parse_version(remote) matches Some(r) && !newer_from(l, r, 0) && (l.len() > 0) == (r.len() > 0)
            && (l.len() > 0 ==> l[0] == r[0]) && (l.len() > 1) == (r.len() > 1) && (l.len() > 1 ==> l[1] == r[1])),
{
    match (spec_parse_version(local), spec_parse_version(remote)) {
        (Some(l), Some(r)) => {
            lemma_order_from_newer(l, r, 0);
            lemma_order_from_range(l, r, 0);
        },
        _ => {},
    }
}

pub proof fn lemma_order_from_range(a: Seq<u64>, b: Seq<u64>, i: int)
    ensures
        -1 <= order_from(a, b, i) <= 1,
    decreases (if a.len() > b.len() {
        a.len()
    } else {
        b.len()
    }) - i,
{
    if !(i < 0 || (i >= a.len() && i >= b.len())) && at(a, i) == at(b, i) {
        lemma_order_from_range(a, b, i + 1);
    }
}

pub proof fn lemma_order_from_refl(a: Seq<u64>, i: int)
    ensures
        order_from(a, a, i) == 0,
    decreases a.len() - i,
{
    if i >= 0 && i < a.len() {
        lemma_order_from_refl(a, i + 1);
    }
}

pub proof fn lemma_order_from_antisym(a: Seq<u64>, b: Seq<u64>, i: int)
    ensures
        order_from(a, b, i) == -order_from(b, a, i),
    decreases (if a.len() > b.len() {
        a.len()
    } else {
        b.len()
    }) - i,
{
    if !(i < 0 || (i >= a.len() && i >= b.len())) && at(a, i) == at(b, i) {
        lemma_order_from_antisym(a, b, i + 1);
    }
}

/// Every version is equal to itself.
pub proof fn law_compare_reflexive(a: Seq<u64>)
    ensures
        spec_compare(a, a) == 0,
{
    lemma_order_from_refl(a, 0);
}

/// Swapping two versions flips their order.
pub proof fn law_compare_antisymmetric(a: Seq<u64>, b: Seq<u64>)
    ensures
        spec_compare(a, b) == -spec_compare(b, a),
{
    lemma_order_from_antisym(a, b, 0);
}

/// Trailing zeros do not change a version: `1.2` and `1.2.0` are equal.
pub proof fn law_trailing_zero(a: Seq<u64>)
    ensures
        spec_compare(a, a.push(0)) == 0,
{
    lemma_trailing_zero_from(a, 0);
}

proof fn lemma_trailing_zero_from(a: Seq<u64>, i: int)
    requires
        0 <= i,
    ensures
        order_from(a, a.push(0), i) == 0,
    decreases a.len() + 1 - i,
{
    if i < a.len() + 1 {
        assert(at(a, i) == at(a.push(0), i));
        lemma_trailing_zero_from(a, i + 1);
    }
}

/// The installed version offered again is a minor update, never a downgrade.
pub proof fn law_same_version_is_minor(v: Seq<char>)
    requires
        spec_parse_version(v) is Some,
    ensures
        spec_update_kind(v, v) == UpdateKind::Minor,
{
    law_compare_reflexive(spec_parse_version(v)->0);
}

/// When one release is a downgrade from another, the other way round it is
/// not.
pub proof fn law_downgrade_one_way(a: Seq<char>, b: Seq<char>)
    requires
        spec_update_kind(a, b) == UpdateKind::Downgrade,
    ensures
        spec_update_kind(b, a) != UpdateKind::Downgrade,
{
    law_compare_antisymmetric(spec_parse_version(a)->0, spec_parse_version(b)->0);
}

/// Whether a beta build may run: the phase endpoint reports the phase
/// active and on the phase this build belongs to.
pub const CURRENT_BETA_PHASE: i32 = 5;

pub fn check_beta_phasing(active: bool, phase: i32) -> (r: bool)
    ensures
        r == (active && phase == CURRENT_BETA_PHASE),
{
    active && phase == CURRENT_BETA_PHASE
}

/// What the progress line says while an update downloads.
#[derive(Clone, Copy, PartialEq, Eq, Debug)]
pub enum ProgressText {
    /// Every file is in; the update is being applied.
    Finishing,
    /// File `number` of `count` is downloading.
    Downloading { number: u32, count: u32 },
}

pub fn progress_text(file_index: u32, file_count: u32) -> (r: ProgressText)
    ensures
        file_index >= file_count ==> r == ProgressText::Finishing,
        file_index < file_count ==> r == (ProgressText::Downloading {
            number: (file_index + 1) as u32,
            count: file_count,
        }),
{
    if file_index >= file_count {
        ProgressText::Finishing
    } else {
        ProgressText::Downloading { number: file_index + 1, count: file_count }
    }
}

/// What the updater process reports during an update session, and how
/// the connection to it ends.
pub enum UpdaterEvent {
    Hello,
    Lock,
    Heartbeat,
    InitConfirmed,
    Progress { file_index: u32, file_count: u32 },
    Unlock,
    NoUpdate,
    CloseNow,
    Error { message: String },
    OneClick,
    /// The updater did not connect in time.
    NeverConnected,
    /// Accepting the updater's connection failed.
    AcceptFailed { error: String },
    /// Reading from the connection failed.
    ConnectionFailed { error: String },
    /// No heartbeat came in time.
    TimedOut,
    /// The updater closed the connection.
    Disconnected,
}

/// What the launcher does on an updater event: whether the session is
/// over, how the UI lock and the progress overlay change, the progress
/// line, whether Aurora restarts or quits, whether the updater is killed,
/// why the session was aborted, and the toast shown (text, kind).
pub struct SessionStep {
    pub done: bool,
    pub lock_ui: Option<bool>,
    pub progress: Option<ProgressText>,
    pub restart: bool,
    pub quit: bool,
    pub kill_updater: bool,
    pub abort_reason: Option<String>,
    pub toast: Option<(String, String)>,
}

pub open spec fn toast_view(t: Option<(String, String)>) -> Option<(Seq<char>, Seq<char>)> {
    match t {
        Some(p) => Some((p.0@, p.1@)),
        None => None,
    }
}

pub open spec fn reason_view(r: Option<String>) -> Option<Seq<char>> {
    match r {
        Some(s) => Some(s@),
        None => None,
    }
}

/// The reason an update session is aborted on an event, if it is.
pub open spec fn abort_reason(event: UpdaterEvent) -> Option<Seq<char>> {
    match event {
        UpdaterEvent::OneClick => Some("the updater sent a 1-click message"@),
        UpdaterEvent::NeverConnected => Some("the updater never connected"@),
        UpdaterEvent::AcceptFailed { error } => Some("failed to accept the updater connection: "@ + error@),
        UpdaterEvent::ConnectionFailed { error } => Some("the updater connection failed: "@ + error@),
        UpdaterEvent::TimedOut => Some("the updater stopped sending heartbeats"@),
        UpdaterEvent::Disconnected => Some("the updater closed the connection"@),
        _ => None,
    }
}

/// The step the launcher takes on an updater event, as
/// (done, lock, restart, quit, kill, toast); the progress line and the
/// abort reason are stated beside it.
pub open spec fn spec_session_step(event: UpdaterEvent, silent: bool) -> (
    bool,
    Option<bool>,
    bool,
    bool,
    bool,
    Option<(Seq<char>, Seq<char>)>,
) {
    match event {
        UpdaterEvent::Hello | UpdaterEvent::Heartbeat | UpdaterEvent::InitConfirmed | UpdaterEvent::Progress {
            ..
        } => (false, None, false, false, false, None),
        UpdaterEvent::Lock => (false, Some(true), false, false, false, None),
        UpdaterEvent::Unlock => if silent {
            (true, None, true, false, false, None)
        } else {
            (true, Some(false), false, false, false, Some(("Aurora has been updated."@, "success"@)))
        },
        UpdaterEvent::NoUpdate => (
            true,
            Some(false),
            false,
            false,
            false,
            if silent {
                None
            } else {
                Some(("Aurora is already up to date."@, "info"@))
            },
        ),
        UpdaterEvent::CloseNow => (true, None, false, true, false, None),
        UpdaterEvent::Error { .. } => (
            true,
            Some(false),
            false,
            false,
            true,
            Some(("Update failed. Try again later."@, "error"@)),
        ),
        _ => (
            true,
            Some(false),
            false,
            false,
            true,
            Some(("Update interrupted. You can retry from the launch menu."@, "error"@)),
        ),
    }
}

fn text(s: &str) -> (r: String)
    ensures
        r@ == s@,
{
    from_chars(to_chars(s).as_slice())
}

fn joined(a: &str, b: &str) -> (r: String)
    ensures
        r@ == a@ + b@,
{
    from_chars(concat_chars(to_chars(a).as_slice(), to_chars(b).as_slice()).as_slice())
}

fn toast(message: &str, kind: &str) -> (r: Option<(String, String)>)
    ensures
        toast_view(r) == Some((message@, kind@)),
{
    Some((text(message), text(kind)))
}

fn aborted(reason: String) -> (r: SessionStep)
    ensures
        reason_view(r.abort_reason) == Some(reason@),
        (r.done, r.lock_ui, r.restart, r.quit, r.kill_updater, toast_view(r.toast)) == (
            true,
            Some(false),
            false,
            false,
            true,
            Some(("Update interrupted. You can retry from the launch menu."@, "error"@)),
        ),
        r.progress is None,
{
    SessionStep {
        done: true,
        lock_ui: Some(false),
        progress: None,
        restart: false,
        quit: false,
        kill_updater: true,
        abort_reason: Some(reason),
        toast: toast("Update interrupted. You can retry from the launch menu.", "error"),
    }
}

fn step(done: bool, lock_ui: Option<bool>, restart: bool, quit: bool, kill_updater: bool, toast: Option<
    (String, String),
>) -> (r: SessionStep)
    ensures
        (r.done, r.lock_ui, r.restart, r.quit, r.kill_updater, toast_view(r.toast)) == (
            done,
            lock_ui,
            restart,
            quit,
            kill_updater,
            toast_view(toast),
        ),
        r.progress is None,
        r.abort_reason is None,
{
    SessionStep { done, lock_ui, progress: None, restart, quit, kill_updater, abort_reason: None, toast }
}

impl UpdateHandler {
    /// The launcher's step on an event of an update session. A silent
    /// update restarts Aurora once applied and says nothing when there is
    /// none; a session that breaks off kills the updater, unlocks the UI and
    /// says that the update was interrupted.
    pub fn session_step(event: &UpdaterEvent, silent: bool) -> (r: SessionStep)
        ensures
            (r.done, r.lock_ui, r.restart, r.quit, r.kill_updater, toast_view(r.toast)) == spec_session_step(
                *event,
                silent,
            ),
            reason_view(r.abort_reason) == abort_reason(*event),
            r.progress == (match *event {
                UpdaterEvent::Progress { file_index, file_count } => Some(
                    if file_index >= file_count {
                        ProgressText::Finishing
                    } else {
                        ProgressText::Downloading { number: (file_index + 1) as u32, count: file_count }
                    },
                ),
                _ => None,
            }),
    {
        match event {
            UpdaterEvent::Hello | UpdaterEvent::Heartbeat | UpdaterEvent::InitConfirmed => step(
                false,
                None,
                false,
                false,
                false,
                None,
            ),
            UpdaterEvent::Progress { file_index, file_count } => {
                let mut s = step(false, None, false, false, false, None);
                s.progress = Some(progress_text(*file_index, *file_count));
                s
            },
            UpdaterEvent::Lock => step(false, Some(true), false, false, false, None),
            UpdaterEvent::Unlock => {
                if silent {
                    step(true, None, true, false, false, None)
                } else {
                    step(true, Some(false), false, false, false, toast("Aurora has been updated.", "success"))
                }
            },
            UpdaterEvent::NoUpdate => {
                let t = if silent {
                    None
                } else {
                    toast("Aurora is already up to date.", "info")
                };
                step(true, Some(false), false, false, false, t)
            },
            UpdaterEvent::CloseNow => step(true, None, false, true, false, None),
            UpdaterEvent::Error { .. } => step(
                true,
                Some(false),
                false,
                false,
                true,
                toast("Update failed. Try again later.", "error"),
            ),
            UpdaterEvent::OneClick => aborted(text("the updater sent a 1-click message")),
            UpdaterEvent::NeverConnected => aborted(text("the updater never connected")),
            UpdaterEvent::AcceptFailed { error } => aborted(
                joined("failed to accept the updater connection: ", error.as_str()),
            ),
            UpdaterEvent::ConnectionFailed { error } => aborted(
                joined("the updater connection failed: ", error.as_str()),
            ),
            UpdaterEvent::TimedOut => aborted(text("the updater stopped sending heartbeats")),
            UpdaterEvent::Disconnected => aborted(text("the updater closed the connection")),
        }
    }
}

/// The updater's locks: whether an update runs, whether the UI is locked
/// for it, whether this start follows an update, and the launch button as
/// it was before the lock.
pub struct UpdateHandler {
    update_running: bool,
    ui_locked: bool,
    post_update_pending: bool,
    saved_state: u8,
    saved_disabled: bool,
}

/// The code that marks that no launch state is saved.
pub const NO_SAVED_STATE: u8 = 255;

impl UpdateHandler {
    pub closed spec fn running(&self) -> bool {
        self.update_running
    }

    pub closed spec fn locked(&self) -> bool {
        self.ui_locked
    }

    pub closed spec fn pending(&self) -> bool {
        self.post_update_pending
    }

    pub closed spec fn saved(&self) -> (u8, bool) {
        (self.saved_state, self.saved_disabled)
    }

    pub fn new() -> (r: Self)
        ensures
            !r.running(),
            !r.locked(),
            !r.pending(),
            r.saved().0 == NO_SAVED_STATE,
    {
        UpdateHandler {
            update_running: false,
            ui_locked: false,
            post_update_pending: false,
            saved_state: NO_SAVED_STATE,
            saved_disabled: false,
        }
    }

    /// Whether the UI is locked for an update.
    pub fn ui_locked(&self) -> (r: bool)
        ensures
            r == self.locked(),
    {
        self.ui_locked
    }

    /// Claims the update slot; `false` when an update already holds it.
    pub fn try_start(&mut self) -> (r: bool)
        ensures
            r == !old(self).running(),
            final(self).running(),
            final(self).locked() == old(self).locked(),
            final(self).pending() == old(self).pending(),
            final(self).saved() == old(self).saved(),
    {
        let was = self.update_running;
        self.update_running = true;
        !was
    }

    /// Starts an update check: it runs unless one already holds the slot;
    /// a check the user asked for says so, or says that one is running,
    /// as an `info` toast.
    pub fn begin_check(&mut self, show_toast: bool) -> (r: (bool, Option<(&'static str, &'static str)>))
        ensures
            r.0 == !old(self).running(),
            final(self).running(),
            !show_toast ==> r.1 is None,
            show_toast && old(self).running() ==> (r.1 matches Some(t) && t.0@ == "An update check is already running."@
                && t.1@ == "info"@),
            show_toast && !old(self).running() ==> (r.1 matches Some(t) && t.0@ == "Checking for updates..."@
                && t.1@ == "info"@),
            final(self).locked() == old(self).locked(),
            final(self).pending() == old(self).pending(),
            final(self).saved() == old(self).saved(),
    {
        let started = self.try_start();
        let toast = if !show_toast {
            None
        } else if started {
            Some(("Checking for updates...", "info"))
        } else {
            Some(("An update check is already running.", "info"))
        };
        (started, toast)
    }

    /// Whether the update check runs after the beta-phase check: it does
    /// unless the phase is over (`Some(false)`) and no update is known to be
    /// available; then the launcher says that the beta phase ended. An
    /// answer that could not be had is `None`.
    pub fn beta_gate(phasing: Option<bool>, update_available: Option<bool>) -> (r: bool)
        ensures
            r == (match phasing {
                Some(false) => update_available == Some(true),
                _ => true,
            }),
    {
        match phasing {
            Some(false) => match update_available {
                Some(true) => true,
                _ => false,
            },
            _ => true,
        }
    }

    /// Releases the update slot.
    pub fn finish(&mut self)
        ensures
            !final(self).running(),
            final(self).locked() == old(self).locked(),
            final(self).pending() == old(self).pending(),
            final(self).saved() == old(self).saved(),
    {
        self.update_running = false;
    }

    /// Notes that this start follows an update.
    pub fn mark_post_update(&mut self)
        ensures
            final(self).pending(),
            final(self).running() == old(self).running(),
            final(self).locked() == old(self).locked(),
            final(self).saved() == old(self).saved(),
    {
        self.post_update_pending = true;
    }

    /// Whether the window being shown should confirm the update; clears the
    /// note, so this answers `true` once.
    pub fn on_window_shown(&mut self) -> (r: bool)
        ensures
            r == old(self).pending(),
            !final(self).pending(),
            final(self).running() == old(self).running(),
            final(self).locked() == old(self).locked(),
            final(self).saved() == old(self).saved(),
    {
        let was = self.post_update_pending;
        self.post_update_pending = false;
        was
    }

    /// Locks the UI, saving the launch button as it was; the button shows
    /// `Updating` and is disabled.
    pub fn lock(&mut self, current: LaunchState, disabled: bool) -> (r: (LaunchState, bool))
        ensures
            final(self).locked(),
            final(self).saved() == (code_of(current), disabled),
            r == (LaunchState::Updating, true),
            final(self).running() == old(self).running(),
            final(self).pending() == old(self).pending(),
    {
        self.ui_locked = true;
        self.saved_state = current.to_code();
        self.saved_disabled = disabled;
        (LaunchState::Updating, true)
    }

    /// Unlocks the UI and gives the launch button back as it was saved; a
    /// button saved while updating, or none saved, comes back as an enabled
    /// `Launch`.
    pub fn unlock(&mut self) -> (r: (LaunchState, bool))
        ensures
            !final(self).locked(),
            final(self).saved().0 == NO_SAVED_STATE,
            final(self).saved().1 == old(self).saved().1,
            r == restored(old(self).saved()),
            final(self).running() == old(self).running(),
            final(self).pending() == old(self).pending(),
    {
        self.ui_locked = false;
        let saved = self.saved_state;
        self.saved_state = NO_SAVED_STATE;
        match LaunchState::from_code(saved) {
            Some(LaunchState::Updating) | None => (LaunchState::Launch, false),
            Some(state) => (state, self.saved_disabled),
        }
    }
}

/// The launch button that a saved state and flag give back.
pub open spec fn restored(saved: (u8, bool)) -> (LaunchState, bool) {
    match state_of(saved.0) {
        Some(LaunchState::Updating) | None => (LaunchState::Launch, false),
        Some(s) => (s, saved.1),
    }
}

/// Locking and then unlocking gives the launch button back as it was,
/// unless it was showing an update.
pub proof fn law_lock_unlock_restores(current: LaunchState, disabled: bool)
    requires
        current != LaunchState::Updating,
    ensures
        restored((code_of(current), disabled)) == (current, disabled),
{
}

} // verus!
