//! The log window's view rules: which entries a level filter lets through,
//! and how a message is flattened onto one row.
use vstd::prelude::*;
use crate::text::{concat_chars, from_chars, to_chars};

verus! {

/// The severity of a log entry.
#[derive(Clone, Copy, Debug, PartialEq, Eq, Structural)]
pub enum Level {
    Error,
    Warn,
    Info,
    Debug,
    Trace,
}

/// The position of a level in the window's filter list (0 is "All").
pub open spec fn spec_level_index(level: Level) -> i32 {
    match level {
        Level::Error => 1,
        Level::Warn => 2,
        Level::Info => 3,
        Level::Debug => 4,
        Level::Trace => 5,
    }
}

pub fn level_index(level: Level) -> (r: i32)
    ensures
        r == spec_level_index(level),
{
    match level {
        Level::Error => 1,
        Level::Warn => 2,
        Level::Info => 3,
        Level::Debug => 4,
        Level::Trace => 5,
    }
}

/// The filter shows every entry (0) or only the entries of one level.
pub fn passes(filter: i32, level: Level) -> (r: bool)
    ensures
        r == (filter == 0 || filter == spec_level_index(level)),
{
    filter == 0 || filter == level_index(level)
}

/// Each filter other than "All" shows exactly one level.
pub proof fn law_filter_selects_one_level(filter: i32, a: Level, b: Level)
    requires
        filter != 0,
        filter == spec_level_index(a),
        filter == spec_level_index(b),
    ensures
        a == b,
{
}

pub open spec fn flat_char(c: char) -> char {
    if c == '\n' || c == '\r' || c == '\t' {
        ' '
    } else {
        c
    }
}

/// A message with its line breaks and tabs turned into spaces, so that it
/// fits one row.
pub fn single_line(message: &str) -> (r: String)
    ensures
        r@ == message@.map_values(|c: char| flat_char(c)),
{
    let chars = to_chars(message);
    let mut out: Vec<char> = Vec::new();
    let mut i: usize = 0;
    while i < chars.len()
        invariant
            i <= chars@.len(),
            out@ == chars@.subrange(0, i as int).map_values(|c: char| flat_char(c)),
        decreases chars.len() - i,
    {
        let c = chars[i];
        if c == '\n' || c == '\r' || c == '\t' {
            out.push(' ');
        } else {
            out.push(c);
        }
        i = i + 1;
        assert(out@ =~= chars@.subrange(0, i as int).map_values(|c: char| flat_char(c)));
    }
    assert(chars@.subrange(0, chars@.len() as int) =~= chars@);
    from_chars(out.as_slice())
}

/// The name a level is written with.
pub open spec fn spec_level_name(level: Level) -> Seq<char> {
    match level {
        Level::Error => "ERROR"@,
        Level::Warn => "WARN"@,
        Level::Info => "INFO"@,
        Level::Debug => "DEBUG"@,
        Level::Trace => "TRACE"@,
    }
}

pub fn level_name(level: Level) -> (r: &'static str)
    ensures
        r@ == spec_level_name(level),
{
    match level {
        Level::Error => "ERROR",
        Level::Warn => "WARN",
        Level::Info => "INFO",
        Level::Debug => "DEBUG",
        Level::Trace => "TRACE",
    }
}

/// A log entry as the logger keeps it.
pub struct LogEntry {
    pub timestamp: String,
    pub level: Level,
    pub module: String,
    pub message: String,
}

/// A row of the log window.
pub struct LogLine {
    pub timestamp: String,
    pub level: Level,
    pub module: String,
    pub message: String,
}

pub type LineView = (Seq<char>, Level, Seq<char>, Seq<char>);

pub open spec fn line_view(l: LogLine) -> LineView {
    (l.timestamp@, l.level, l.module@, l.message@)
}

pub open spec fn lines_view(v: Seq<LogLine>) -> Seq<LineView> {
    v.map_values(|l: LogLine| line_view(l))
}

/// The row an entry shows as: its message on one line.
pub open spec fn entry_row(e: LogEntry) -> LineView {
    (e.timestamp@, e.level, e.module@, e.message@.map_values(|c: char| flat_char(c)))
}

pub open spec fn entry_passes(filter: i32, e: LogEntry) -> bool {
    filter == 0 || filter == spec_level_index(e.level)
}

/// The rows the entries show under a filter, in order.
pub open spec fn rows_of(entries: Seq<LogEntry>, filter: i32) -> Seq<LineView>
    decreases entries.len(),
{
    if entries.len() == 0 {
        seq![]
    } else if entry_passes(filter, entries.last()) {
        rows_of(entries.drop_last(), filter).push(entry_row(entries.last()))
    } else {
        rows_of(entries.drop_last(), filter)
    }
}

/// The column widths after rows are added: the widest module name and
/// message, in characters, of the rows and of what was shown before.
pub open spec fn widen(w: (nat, nat), rows: Seq<LineView>) -> (nat, nat)
    decreases rows.len(),
{
    if rows.len() == 0 {
        w
    } else {
        let p = widen(w, rows.drop_last());
        let m = rows.last().2.len();
        let t = rows.last().3.len();
        (if m > p.0 { m } else { p.0 }, if t > p.1 { t } else { p.1 })
    }
}

/// The newest `capacity` rows.
pub open spec fn keep_newest(rows: Seq<LineView>, capacity: nat) -> Seq<LineView> {
    if rows.len() > capacity {
        rows.subrange(rows.len() - capacity, rows.len() as int)
    } else {
        rows
    }
}

fn to_line(e: &LogEntry) -> (r: LogLine)
    ensures
        line_view(r) == entry_row(*e),
{
    LogLine {
        timestamp: crate::idset::owned(e.timestamp.as_str()),
        level: e.level,
        module: crate::idset::owned(e.module.as_str()),
        message: single_line(e.message.as_str()),
    }
}

/// The log window's view: the level filter, the rows shown (at most
/// `capacity`), how far the log was read, and the widest module name and
/// message shown so far (which size the columns).
pub struct LogView {
    filter: i32,
    capacity: usize,
    cursor: u64,
    lines: Vec<LogLine>,
    module_chars: usize,
    message_chars: usize,
}

impl LogView {
    pub closed spec fn filter(&self) -> i32 {
        self.filter
    }

    pub closed spec fn capacity(&self) -> nat {
        self.capacity as nat
    }

    pub closed spec fn cursor(&self) -> u64 {
        self.cursor
    }

    pub closed spec fn rows(&self) -> Seq<LineView> {
        lines_view(self.lines@)
    }

    pub closed spec fn widths(&self) -> (nat, nat) {
        (self.module_chars as nat, self.message_chars as nat)
    }

    /// An empty view with a filter, keeping at most `capacity` rows.
    pub fn new(filter: i32, capacity: usize) -> (r: Self)
        ensures
            r.filter() == filter,
            r.capacity() == capacity,
            r.cursor() == 0,
            r.rows().len() == 0,
            r.widths() == (0nat, 0nat),
    {
        LogView { filter, capacity, cursor: 0, lines: Vec::new(), module_chars: 0, message_chars: 0 }
    }

    /// The level filter changed (the view is rebuilt next).
    pub fn set_filter(&mut self, filter: i32)
        ensures
            final(self).filter() == filter,
            final(self).rows() == old(self).rows(),
            final(self).capacity() == old(self).capacity(),
            final(self).cursor() == old(self).cursor(),
            final(self).widths() == old(self).widths(),
    {
        self.filter = filter;
    }

    /// The rows shown.
    pub fn lines(&self) -> (r: &Vec<LogLine>)
        ensures
            lines_view(r@) == self.rows(),
    {
        &self.lines
    }

    /// The widest module name and message shown, in characters.
    pub fn column_chars(&self) -> (r: (usize, usize))
        ensures
            (r.0 as nat, r.1 as nat) == self.widths(),
    {
        (self.module_chars, self.message_chars)
    }

    /// Appends the rows of the entries that pass the filter and widens the
    /// columns for them.
    fn add_rows(&mut self, entries: &Vec<LogEntry>)
        ensures
            final(self).rows() == old(self).rows() + rows_of(entries@, old(self).filter()),
            final(self).widths() == widen(old(self).widths(), rows_of(entries@, old(self).filter())),
            final(self).filter() == old(self).filter(),
            final(self).capacity() == old(self).capacity(),
            final(self).cursor() == old(self).cursor(),
    {
        let ghost start = self.rows();
        let ghost w0 = self.widths();
        let mut i: usize = 0;
        while i < entries.len()
            invariant
                i <= entries@.len(),
                self.filter == old(self).filter,
                self.capacity == old(self).capacity,
                self.cursor == old(self).cursor,
                self.rows() == start + rows_of(entries@.subrange(0, i as int), self.filter),
                self.widths() == widen(w0, rows_of(entries@.subrange(0, i as int), self.filter)),
            decreases entries.len() - i,
        {
            let ghost pre = entries@.subrange(0, i as int);
            assert(entries@.subrange(0, i + 1).drop_last() =~= pre);
            assert(entries@.subrange(0, i + 1).last() == entries@[i as int]);
            if passes(self.filter, entries[i].level) {
                let ghost prev_rows = rows_of(pre, self.filter);
                assert(rows_of(entries@.subrange(0, i + 1), self.filter) == prev_rows.push(entry_row(entries@[i as int])));
                assert(prev_rows.push(entry_row(entries@[i as int])).drop_last() =~= prev_rows);
                let line = to_line(&entries[i]);
                let m = to_chars(line.module.as_str()).len();
                let t = to_chars(line.message.as_str()).len();
                if m > self.module_chars {
                    self.module_chars = m;
                }
                if t > self.message_chars {
                    self.message_chars = t;
                }
                let ghost before = self.lines@;
                self.lines.push(line);
                assert(lines_view(self.lines@) =~= lines_view(before).push(line_view(line)));
            }
            i = i + 1;
        }
        assert(entries@.subrange(0, entries@.len() as int) =~= entries@);
    }

    /// Shows the entries read so far (up to `cursor`) anew, under the
    /// current filter.
    pub fn rebuild(&mut self, entries: &Vec<LogEntry>, cursor: u64)
        ensures
            final(self).rows() == rows_of(entries@, old(self).filter()),
            final(self).widths() == widen((0nat, 0nat), rows_of(entries@, old(self).filter())),
            final(self).cursor() == cursor,
            final(self).filter() == old(self).filter(),
            final(self).capacity() == old(self).capacity(),
    {
        self.lines = Vec::new();
        self.module_chars = 0;
        self.message_chars = 0;
        self.cursor = cursor;
        assert(self.rows() =~= Seq::<LineView>::empty());
        self.add_rows(entries);
        assert(Seq::<LineView>::empty() + rows_of(entries@, self.filter) =~= rows_of(entries@, self.filter));
    }

    /// Shows the entries logged since the last read (up to `cursor`): their
    /// rows that pass the filter go at the end, the oldest rows beyond the
    /// capacity go, and the columns widen. Returns whether any row came.
    pub fn append(&mut self, entries: &Vec<LogEntry>, cursor: u64) -> (r: bool)
        ensures
            final(self).cursor() == cursor,
            r == (rows_of(entries@, old(self).filter()).len() > 0),
            !r ==> final(self).rows() == old(self).rows() && final(self).widths() == old(self).widths(),
            r ==> final(self).rows() == keep_newest(
                old(self).rows() + rows_of(entries@, old(self).filter()),
                old(self).capacity(),
            ) && final(self).widths() == widen(old(self).widths(), rows_of(entries@, old(self).filter())),
            final(self).filter() == old(self).filter(),
            final(self).capacity() == old(self).capacity(),
    {
        self.cursor = cursor;
        let before = self.lines.len();
        let ghost w0 = self.widths();
        self.add_rows(entries);
        if self.lines.len() == before {
            assert(rows_of(entries@, self.filter).len() == 0);
            assert(rows_of(entries@, self.filter) =~= Seq::<LineView>::empty());
            return false;
        }
        let ghost all = self.rows();
        if self.lines.len() > self.capacity {
            let excess = self.lines.len() - self.capacity;
            let mut kept: Vec<LogLine> = Vec::new();
            let mut old_lines = Vec::new();
            std::mem::swap(&mut old_lines, &mut self.lines);
            let n = old_lines.len();
            let mut k: usize = 0;
            let ghost ov = lines_view(old_lines@);
            while k < n
                invariant
                    n == old_lines@.len() + k,
                    ov.len() == n,
                    excess <= n,
                    lines_view(old_lines@) == ov.subrange(k as int, n as int),
                    lines_view(kept@) == if k <= excess { Seq::<LineView>::empty() } else { ov.subrange(excess as int, k as int) },
                decreases n - k,
            {
                let ghost rest = old_lines@;
                let x = old_lines.remove(0);
                assert(line_view(x) == ov[k as int]) by {
                    assert(lines_view(rest)[0] == line_view(rest[0]));
                }
                assert(lines_view(old_lines@) =~= ov.subrange(k + 1, n as int)) by {
                    assert(old_lines@ =~= rest.drop_first());
                    assert(lines_view(rest.drop_first()) =~= lines_view(rest).drop_first());
                    assert(ov.subrange(k as int, n as int).drop_first() =~= ov.subrange(k + 1, n as int));
                }
                if k >= excess {
                    let ghost kb = kept@;
                    kept.push(x);
                    assert(lines_view(kept@) =~= lines_view(kb).push(line_view(x)));
                }
                k = k + 1;
                assert(lines_view(kept@) =~= if k <= excess { Seq::<LineView>::empty() } else { ov.subrange(excess as int, k as int) });
            }
            self.lines = kept;
        }
        true
    }
}

/// The text the log window copies: each entry that passes the filter as
/// `[timestamp LEVEL module] message` and a line break.
pub open spec fn copy_lines(entries: Seq<LogEntry>, filter: i32) -> Seq<char>
    decreases entries.len(),
{
    if entries.len() == 0 {
        seq![]
    } else {
        let e = entries.last();
        copy_lines(entries.drop_last(), filter) + if entry_passes(filter, e) {
            "["@ + e.timestamp@ + " "@ + spec_level_name(e.level) + " "@ + e.module@ + "] "@ + e.message@ + "\n"@
        } else {
            Seq::<char>::empty()
        }
    }
}

pub fn copy_text(entries: &Vec<LogEntry>, filter: i32) -> (r: String)
    ensures
        r@ == copy_lines(entries@, filter),
{
    let mut out: Vec<char> = Vec::new();
    let mut i: usize = 0;
    while i < entries.len()
        invariant
            i <= entries@.len(),
            out@ == copy_lines(entries@.subrange(0, i as int), filter),
        decreases entries.len() - i,
    {
        assert(entries@.subrange(0, i + 1).drop_last() =~= entries@.subrange(0, i as int));
        assert(entries@.subrange(0, i + 1).last() == entries@[i as int]);
        let e = &entries[i];
        if passes(filter, e.level) {
            let line = concat_chars(to_chars("[").as_slice(), to_chars(e.timestamp.as_str()).as_slice());
            let line = concat_chars(line.as_slice(), to_chars(" ").as_slice());
            let line = concat_chars(line.as_slice(), to_chars(level_name(e.level)).as_slice());
            let line = concat_chars(line.as_slice(), to_chars(" ").as_slice());
            let line = concat_chars(line.as_slice(), to_chars(e.module.as_str()).as_slice());
            let line = concat_chars(line.as_slice(), to_chars("] ").as_slice());
            let line = concat_chars(line.as_slice(), to_chars(e.message.as_str()).as_slice());
            let line = concat_chars(line.as_slice(), to_chars("\n").as_slice());
            out = concat_chars(out.as_slice(), line.as_slice());
        } else {
            assert(out@ =~= out@ + Seq::<char>::empty());
        }
        i = i + 1;
    }
    assert(entries@.subrange(0, entries@.len() as int) =~= entries@);
    from_chars(out.as_slice())
}

proof fn lemma_rows_of_concat(a: Seq<LogEntry>, b: Seq<LogEntry>, filter: i32)
    ensures
        rows_of(a + b, filter) == rows_of(a, filter) + rows_of(b, filter),
    decreases b.len(),
{
    if b.len() == 0 {
        assert(a + b =~= a);
        assert(rows_of(a, filter) + rows_of(b, filter) =~= rows_of(a, filter));
    } else {
        lemma_rows_of_concat(a, b.drop_last(), filter);
        assert((a + b).drop_last() =~= a + b.drop_last());
        assert((a + b).last() == b.last());
        if entry_passes(filter, b.last()) {
            assert(rows_of(a, filter) + rows_of(b, filter) =~= (rows_of(a, filter) + rows_of(b.drop_last(), filter)).push(
                entry_row(b.last()),
            ));
        }
    }
}

proof fn lemma_widen_concat(w: (nat, nat), x: Seq<LineView>, y: Seq<LineView>)
    ensures
        widen(w, x + y) == widen(widen(w, x), y),
    decreases y.len(),
{
    if y.len() == 0 {
        assert(x + y =~= x);
    } else {
        lemma_widen_concat(w, x, y.drop_last());
        assert((x + y).drop_last() =~= x + y.drop_last());
        assert((x + y).last() == y.last());
    }
}

proof fn lemma_keep_newest_twice(x: Seq<LineView>, y: Seq<LineView>, capacity: nat)
    ensures
        keep_newest(keep_newest(x, capacity) + y, capacity) == keep_newest(x + y, capacity),
{
    if x.len() > capacity {
        let k = keep_newest(x, capacity);
        let n = (x + y).len();
        let m = (k + y).len();
        assert((k + y).subrange(m - capacity, m as int) =~= (x + y).subrange(n - capacity, n as int));
        if y.len() == 0 {
            assert(k + y =~= k);
            assert(x + y =~= x);
        }
    }
}

/// Appending new entries shows what a rebuild over all the entries shows,
/// cut to the newest `capacity` rows, with the same column widths; and two
/// appends show what one append of both batches shows.
pub proof fn law_append_matches_rebuild(
    shown: Seq<LineView>,
    widths: (nat, nat),
    older: Seq<LogEntry>,
    newer: Seq<LogEntry>,
    filter: i32,
    capacity: nat,
)
    ensures
        keep_newest(rows_of(older, filter) + rows_of(newer, filter), capacity) == keep_newest(
            rows_of(older + newer, filter),
            capacity,
        ),
        widen(widen((0nat, 0nat), rows_of(older, filter)), rows_of(newer, filter)) == widen(
            (0nat, 0nat),
            rows_of(older + newer, filter),
        ),
        keep_newest(keep_newest(shown + rows_of(older, filter), capacity) + rows_of(newer, filter), capacity)
            == keep_newest(shown + rows_of(older + newer, filter), capacity),
        widen(widen(widths, rows_of(older, filter)), rows_of(newer, filter)) == widen(
            widths,
            rows_of(older + newer, filter),
        ),
{
    lemma_rows_of_concat(older, newer, filter);
    let ro = rows_of(older, filter);
    let rn = rows_of(newer, filter);
    lemma_widen_concat((0nat, 0nat), ro, rn);
    lemma_widen_concat(widths, ro, rn);
    lemma_keep_newest_twice(shown + ro, rn, capacity);
    assert(shown + ro + rn =~= shown + (ro + rn));
}

} // verus!
