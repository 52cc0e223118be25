//! The translation table: each key with its text per language, English as
//! the fallback, and `{0}`, `{1}`, ... placeholders filled in by number.
use vstd::prelude::*;
use crate::text::{
    concat_chars, decimal, decimal_chars, eq_chars, from_chars, replace_all, replace_all_chars,
    to_chars,
};

verus! {

/// One key of the table with its texts, each a language code and the text.
pub struct TrEntry {
    pub key: String,
    pub values: Vec<(String, String)>,
}

pub open spec fn values_view(v: Seq<(String, String)>) -> Seq<(Seq<char>, Seq<char>)> {
    v.map_values(|p: (String, String)| (p.0@, p.1@))
}

/// The text for a language code: the first one listed under that code.
pub open spec fn lookup(vals: Seq<(Seq<char>, Seq<char>)>, code: Seq<char>) -> Option<Seq<char>>
    decreases vals.len(),
{
    if vals.len() == 0 {
        None
    } else if vals[0].0 == code {
        Some(vals[0].1)
    } else {
        lookup(vals.drop_first(), code)
    }
}

/// Every key has an English text, which the table is built to hold.
pub open spec fn has_english(e: TrEntry) -> bool {
    lookup(values_view(e.values@), "en"@) is Some
}

pub open spec fn table_complete(entries: Seq<TrEntry>) -> bool {
    forall|i: int| 0 <= i < entries.len() ==> has_english(#[trigger] entries[i])
}

/// The text of an entry in a language: its own text where it has a
/// non-empty one, else the English text.
pub open spec fn spec_localized(e: TrEntry, lang: Seq<char>) -> Seq<char> {
    match lookup(values_view(e.values@), lang) {
        Some(t) => if t.len() > 0 {
            t
        } else {
            lookup(values_view(e.values@), "en"@)->0
        },
        None => lookup(values_view(e.values@), "en"@)->0,
    }
}

/// The first entry with the key.
pub open spec fn entry_for(entries: Seq<TrEntry>, key: Seq<char>) -> Option<int>
    decreases entries.len(),
{
    if entries.len() == 0 {
        None
    } else if entries[0].key@ == key {
        Some(0)
    } else {
        match entry_for(entries.drop_first(), key) {
            Some(i) => Some(i + 1),
            None => None,
        }
    }
}

pub proof fn lemma_entry_for(entries: Seq<TrEntry>, key: Seq<char>)
    ensures
        entry_for(entries, key) matches Some(i) ==> 0 <= i < entries.len() && entries[i].key@ == key
            && forall|j: int| 0 <= j < i ==> #[trigger] entries[j].key@ != key,
        entry_for(entries, key) is None ==> forall|j: int| 0 <= j < entries.len() ==> #[trigger] entries[j].key@ != key,
    decreases entries.len(),
{
    if entries.len() > 0 && entries[0].key@ != key {
        let rest = entries.drop_first();
        lemma_entry_for(rest, key);
        assert forall|j: int| 1 <= j < entries.len() implies entries[j] == #[trigger] rest[j - 1] by {}
        if let Some(i) = entry_for(rest, key) {
            assert(entry_for(entries, key) == Some(i + 1));
            assert forall|j: int| 0 <= j < i + 1 implies #[trigger] entries[j].key@ != key by {
                if j > 0 {
                    assert(entries[j] == rest[j - 1]);
                }
            }
        } else {
            assert forall|j: int| 0 <= j < entries.len() implies #[trigger] entries[j].key@ != key by {
                if j > 0 {
                    assert(entries[j] == rest[j - 1]);
                }
            }
        }
    }
}

/// What `tr` answers: the key's text in the language, or the key itself
/// where the table has no such key.
pub open spec fn spec_tr(entries: Seq<TrEntry>, lang: Seq<char>, key: Seq<char>) -> Seq<char> {
    match entry_for(entries, key) {
        Some(i) => spec_localized(entries[i], lang),
        None => key,
    }
}

fn same_text(a: &str, b: &str) -> (r: bool)
    ensures
        r == (a@ == b@),
{
    let x = to_chars(a);
    let y = to_chars(b);
    eq_chars(x.as_slice(), y.as_slice())
}

fn lookup_exec(vals: &Vec<(String, String)>, code: &str) -> (r: Option<String>)
    ensures
        match r {
            Some(t) => lookup(values_view(vals@), code@) == Some(t@),
            None => lookup(values_view(vals@), code@) is None,
        },
{
    let ghost all = values_view(vals@);
    assert(all.subrange(0, all.len() as int) =~= all);
    let mut i: usize = 0;
    while i < vals.len()
        invariant
            i <= vals@.len(),
            all == values_view(vals@),
            lookup(all, code@) == lookup(all.subrange(i as int, all.len() as int), code@),
        decreases vals.len() - i,
    {
        let ghost rest = all.subrange(i as int, all.len() as int);
        assert(rest[0] == (vals@[i as int].0@, vals@[i as int].1@));
        if same_text(vals[i].0.as_str(), code) {
            return Some(from_chars(to_chars(vals[i].1.as_str()).as_slice()));
        }
        assert(rest.drop_first() =~= all.subrange(i + 1, all.len() as int));
        i = i + 1;
    }
    None
}

/// The text of an entry in a language, falling back to English.
pub fn localized(e: &TrEntry, lang: &str) -> (r: String)
    requires
        has_english(*e),
    ensures
        r@ == spec_localized(*e, lang@),
{
    match lookup_exec(&e.values, lang) {
        Some(t) => {
            if to_chars(t.as_str()).len() > 0 {
                return t;
            }
        },
        None => {},
    }
    match lookup_exec(&e.values, "en") {
        Some(t) => t,
        None => String::new(),
    }
}

/// Every text of the table in a language, in the table's order: the values
/// that the UI's translation global is filled with.
pub fn build_values(entries: &Vec<TrEntry>, lang: &str) -> (r: Vec<String>)
    requires
        table_complete(entries@),
    ensures
        r@.len() == entries@.len(),
        forall|i: int| 0 <= i < r@.len() ==> #[trigger] r@[i]@ == spec_localized(entries@[i], lang@),
{
    let mut out: Vec<String> = Vec::new();
    let mut i: usize = 0;
    while i < entries.len()
        invariant
            i <= entries@.len(),
            table_complete(entries@),
            out@.len() == i,
            forall|k: int| 0 <= k < i ==> #[trigger] out@[k]@ == spec_localized(entries@[k], lang@),
        decreases entries.len() - i,
    {
        assert(has_english(entries@[i as int]));
        let t = localized(&entries[i], lang);
        out.push(t);
        i = i + 1;
    }
    out
}

/// Resolves a translation key in a language. A key that the table lacks is
/// answered with the key itself.
pub fn tr(entries: &Vec<TrEntry>, lang: &str, key: &str) -> (r: String)
    requires
        table_complete(entries@),
    ensures
        r@ == spec_tr(entries@, lang@, key@),
{
    proof {
        lemma_entry_for(entries@, key@);
    }
    let mut i: usize = 0;
    while i < entries.len()
        invariant
            i <= entries@.len(),
            table_complete(entries@),
            forall|j: int| 0 <= j < i ==> #[trigger] entries@[j].key@ != key@,
            entry_for(entries@, key@) matches Some(f) ==> 0 <= f < entries@.len() && entries@[f].key@
                == key@ && forall|j: int| 0 <= j < f ==> #[trigger] entries@[j].key@ != key@,
            entry_for(entries@, key@) is None ==> forall|j: int|
                0 <= j < entries@.len() ==> #[trigger] entries@[j].key@ != key@,
        decreases entries.len() - i,
    {
        if same_text(entries[i].key.as_str(), key) {
            assert(entry_for(entries@, key@) == Some(i as int)) by {
                match entry_for(entries@, key@) {
                    Some(f) => {
                        if f < i {
                            assert(entries@[f].key@ != key@);
                        } else if f > i {
                            assert(entries@[i as int].key@ != key@);
                        }
                    },
                    None => {
                        assert(entries@[i as int].key@ != key@);
                    },
                }
            }
            assert(has_english(entries@[i as int]));
            return localized(&entries[i], lang);
        }
        i = i + 1;
    }
    assert(entry_for(entries@, key@) is None) by {
        if let Some(f) = entry_for(entries@, key@) {
            assert(entries@[f].key@ != key@);
        }
    }
    from_chars(to_chars(key).as_slice())
}

/// `{n}` for a placeholder number.
pub open spec fn placeholder(n: nat) -> Seq<char> {
    seq!['{'] + decimal(n) + seq!['}']
}

/// The text with `{0}`, `{1}`, ... replaced by the arguments one after the
/// other, starting from argument `from`.
pub open spec fn fill(text: Seq<char>, args: Seq<Seq<char>>, from: nat) -> Seq<char>
    decreases args.len() - from,
{
    if from >= args.len() {
        text
    } else {
        fill(replace_all(text, placeholder(from), args[from as int]), args, from + 1)
    }
}

/// `tr`, with `{0}`, `{1}`, ... in the translated text replaced by the
/// arguments in turn.
pub fn tr_args(entries: &Vec<TrEntry>, lang: &str, key: &str, args: &[&str]) -> (r: String)
    requires
        table_complete(entries@),
    ensures
        r@ == fill(spec_tr(entries@, lang@, key@), args@.map_values(|a: &str| a@), 0),
{
    let ghost av = args@.map_values(|a: &str| a@);
    let t = tr(entries, lang, key);
    let mut text = to_chars(t.as_str());
    let mut index: usize = 0;
    while index < args.len()
        invariant
            index <= args@.len(),
            av == args@.map_values(|a: &str| a@),
            fill(spec_tr(entries@, lang@, key@), av, 0) == fill(text@, av, index as nat),
        decreases args.len() - index,
    {
        let mut open: Vec<char> = Vec::new();
        open.push('{');
        let digits = decimal_chars(index);
        let close: Vec<char> = vec!['}'];
        let with_digits = concat_chars(open.as_slice(), digits.as_slice());
        let pat = concat_chars(with_digits.as_slice(), close.as_slice());
        assert(pat@ =~= placeholder(index as nat));
        let arg = to_chars(args[index]);
        assert(arg@ == av[index as int]);
        text = replace_all_chars(text.as_slice(), pat.as_slice(), arg.as_slice());
        index = index + 1;
    }
    from_chars(text.as_slice())
}

} // verus!
