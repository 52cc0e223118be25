//! The Linux desktop entry: its `Exec=` quoting and its contents.
use vstd::prelude::*;
use crate::text::{concat_chars, from_chars, replace_all, replace_all_chars, to_chars};

verus! {

/// The name the entry and its icon are installed under.
pub open spec fn app_id() -> Seq<char> {
    "aurora"@
}

/// A path quoted for an `Exec=` line: backslashes doubled, quotes escaped,
/// the whole in double quotes.
pub open spec fn spec_quote_exec(path: Seq<char>) -> Seq<char> {
    seq!['"'] + replace_all(replace_all(path, seq!['\\'], seq!['\\', '\\']), seq!['"'], seq!['\\', '"'])
        + seq!['"']
}

pub fn quote_exec(path: &str) -> (r: String)
    ensures
        r@ == spec_quote_exec(path@),
{
    let p = to_chars(path);
    let backslash: Vec<char> = vec!['\\'];
    let two_backslashes: Vec<char> = vec!['\\', '\\'];
    let quote: Vec<char> = vec!['"'];
    let escaped_quote: Vec<char> = vec!['\\', '"'];
    let a = replace_all_chars(p.as_slice(), backslash.as_slice(), two_backslashes.as_slice());
    let b = replace_all_chars(a.as_slice(), quote.as_slice(), escaped_quote.as_slice());
    let with_open = concat_chars(quote.as_slice(), b.as_slice());
    let all = concat_chars(with_open.as_slice(), quote.as_slice());
    assert(backslash@ =~= seq!['\\']);
    assert(two_backslashes@ =~= seq!['\\', '\\']);
    assert(quote@ =~= seq!['"']);
    assert(escaped_quote@ =~= seq!['\\', '"']);
    from_chars(all.as_slice())
}

/// The desktop entry for the launcher at `exe`.
pub open spec fn spec_entry_contents(exe: Seq<char>) -> Seq<char> {
    "[Desktop Entry]\nType=Application\nName=Aurora\nComment=Mod manager and launcher for NTE\nExec="@
        + spec_quote_exec(exe) + "\nIcon=aurora\nTerminal=false\nCategories=Game;\nStartupNotify=true\nStartupWMClass=aurora\n"@
}

pub fn entry_contents(exe: &str) -> (r: String)
    ensures
        r@ == spec_entry_contents(exe@),
{
    let head = to_chars(
        "[Desktop Entry]\nType=Application\nName=Aurora\nComment=Mod manager and launcher for NTE\nExec=",
    );
    let q = quote_exec(exe);
    let qc = to_chars(q.as_str());
    let tail = to_chars(
        "\nIcon=aurora\nTerminal=false\nCategories=Game;\nStartupNotify=true\nStartupWMClass=aurora\n",
    );
    let a = concat_chars(head.as_slice(), qc.as_slice());
    let b = concat_chars(a.as_slice(), tail.as_slice());
    from_chars(b.as_slice())
}

/// Where the icon goes, below the user's data directory.
pub fn icon_relative_path() -> (r: String)
    ensures
        r@ == "icons/hicolor/64x64/apps/aurora.png"@,
{
    from_chars(to_chars("icons/hicolor/64x64/apps/aurora.png").as_slice())
}

/// Where the entry goes, below the user's data directory.
pub fn entry_relative_path() -> (r: String)
    ensures
        r@ == "applications/aurora.desktop"@,
{
    from_chars(to_chars("applications/aurora.desktop").as_slice())
}

/// Whether a file must be written: only when what it holds differs.
pub fn needs_write(existing: Option<&[u8]>, contents: &[u8]) -> (r: bool)
    ensures
        r == !(existing matches Some(e) && e@ == contents@),
{
    match existing {
        Some(e) => {
            if e.len() != contents.len() {
                return true;
            }
            let mut i: usize = 0;
            while i < e.len()
                invariant
                    existing == Some(e),
                    e@.len() == contents@.len(),
                    i <= e@.len(),
                    forall|k: int| 0 <= k < i ==> e@[k] == contents@[k],
                decreases e.len() - i,
            {
                if e[i] != contents[i] {
                    assert(e@[i as int] != contents@[i as int]);
                    assert(e@ != contents@);
                    return true;
                }
                i = i + 1;
            }
            assert(e@ =~= contents@);
            false
        },
        None => true,
    }
}

} // verus!
