//! Screenshots found more than once (the game's own folder and the
//! pictures folder): files of one size with one content hash are one
//! screenshot, shown once under the copy that sorts first.
use vstd::prelude::*;
use crate::idset::owned;
use crate::ordering::{
    arrange, is_stable_order, key_view, keys_view, lemma_sorted_distinct, precedes, sorted_by, stable_order,
    KeyView, SortKey,
};
use crate::text::to_chars;

verus! {

/// Where a screenshot was found; the game's own folder sorts first.
#[derive(Clone, Copy, Debug, PartialEq, Eq, Structural)]
pub enum Source {
    Selfie,
    Pictures,
}

pub open spec fn source_rank(s: Source) -> u8 {
    match s {
        Source::Selfie => 0,
        Source::Pictures => 1,
    }
}

/// A file found in one of the screenshot folders, with its size.
pub struct Candidate {
    pub path: String,
    pub source: Source,
    pub size: u64,
}

/// What XXH3 (64 bits, default seed and secret) gives for some bytes.
pub uninterp spec fn xxh3_64(data: Seq<u8>) -> u64;

/// `twox_hash::XxHash3_64::oneshot`: the XXH3 hash of the bytes, named by
/// `xxh3_64`.
#[verifier::external_body]
fn xxh3_oneshot(data: &[u8]) -> (r: u64)
    ensures
        r == xxh3_64(data@),
{
    twox_hash::XxHash3_64::oneshot(data)
}

/// The hash that tells apart files of one size: XXH3 of their contents.
pub fn content_hash(data: &[u8]) -> (r: u64)
    ensures
        r == xxh3_64(data@),
{
    xxh3_oneshot(data)
}

/// Another file has the same size.
pub open spec fn shares_size(cands: Seq<Candidate>, i: int) -> bool {
    exists|j: int| 0 <= j < cands.len() && j != i && #[trigger] cands[j].size == cands[i].size
}

/// What makes files one screenshot: a size that another file shares and
/// a content hash. A file without either is a screenshot of its own.
pub open spec fn dup_key(cands: Seq<Candidate>, hashes: Seq<Option<u64>>, i: int) -> Option<(u64, u64)> {
    if shares_size(cands, i) && hashes[i] is Some {
        Some((cands[i].size, hashes[i]->0))
    } else {
        None
    }
}

/// A path as text that compares as Rust compares Unix paths, component
/// by component: the separator sorts before every other character.
pub open spec fn path_key(p: Seq<char>) -> Seq<char> {
    p.map_values(|c: char| if c == '/' { '\0' } else { c })
}

/// Copies sort by where they were found, then by path.
pub open spec fn cand_key(c: Candidate) -> KeyView {
    (source_rank(c.source), 0i128, path_key(c.path@))
}

pub open spec fn cand_keys(cands: Seq<Candidate>) -> Seq<KeyView> {
    cands.map_values(|c: Candidate| cand_key(c))
}

pub open spec fn in_some_group(groups: Seq<Seq<usize>>, i: int) -> bool {
    exists|g: int, a: int| 0 <= g < groups.len() && 0 <= a < groups[g].len() && groups[g][a] == i
}

/// The files grouped into screenshots: every file in exactly one group;
/// the files of a group of more than one share a key; files of different
/// groups do not; each group ordered by where its files were found and
/// their paths.
pub open spec fn is_dup_grouping(cands: Seq<Candidate>, hashes: Seq<Option<u64>>, groups: Seq<Seq<usize>>) -> bool {
    &&& forall|g: int| 0 <= g < groups.len() ==> #[trigger] groups[g].len() > 0
    &&& forall|g: int, a: int| 0 <= g < groups.len() && 0 <= a < groups[g].len() ==> #[trigger] groups[g][a] < cands.len()
    &&& forall|i: int| 0 <= i < cands.len() ==> #[trigger] in_some_group(groups, i)
    &&& forall|g: int, h: int, a: int, b: int|
        0 <= g < groups.len() && 0 <= h < groups.len() && 0 <= a < groups[g].len() && 0 <= b < groups[h].len()
            && #[trigger] groups[g][a] == #[trigger] groups[h][b] ==> g == h && a == b
    &&& forall|g: int, a: int, b: int|
        0 <= g < groups.len() && 0 <= a < groups[g].len() && 0 <= b < groups[g].len() && a != b ==> dup_key(
            cands,
            hashes,
            #[trigger] groups[g][a] as int,
        ) is Some && dup_key(cands, hashes, groups[g][a] as int) == dup_key(cands, hashes, #[trigger] groups[g][b] as int)
    &&& forall|g: int, h: int|
        0 <= g < h < groups.len() ==> !(dup_key(cands, hashes, #[trigger] groups[g][0] as int) is Some && dup_key(
            cands,
            hashes,
            groups[g][0] as int,
        ) == dup_key(cands, hashes, #[trigger] groups[h][0] as int))
    &&& forall|g: int| 0 <= g < groups.len() ==> sorted_by(cand_keys(cands), #[trigger] groups[g])
}

pub open spec fn groups_view(v: Seq<Vec<usize>>) -> Seq<Seq<usize>> {
    v.map_values(|x: Vec<usize>| x@)
}

/// Which files share their size with another.
pub fn shared_sizes(cands: &Vec<Candidate>) -> (r: Vec<bool>)
    ensures
        r@.len() == cands@.len(),
        forall|i: int| 0 <= i < cands@.len() ==> #[trigger] r@[i] == shares_size(cands@, i),
{
    let mut out: Vec<bool> = Vec::new();
    let mut i: usize = 0;
    while i < cands.len()
        invariant
            i <= cands@.len(),
            out@.len() == i,
            forall|k: int| 0 <= k < i ==> #[trigger] out@[k] == shares_size(cands@, k),
        decreases cands.len() - i,
    {
        let mut found = false;
        let mut j: usize = 0;
        while j < cands.len()
            invariant
                i < cands@.len(),
                j <= cands@.len(),
                found == exists|k: int| 0 <= k < j && k != i && #[trigger] cands@[k].size == cands@[i as int].size,
            decreases cands.len() - j,
        {
            if j != i && cands[j].size == cands[i].size {
                found = true;
            }
            j = j + 1;
        }
        out.push(found);
        i = i + 1;
    }
    out
}

fn same_key(a: Option<(u64, u64)>, b: Option<(u64, u64)>) -> (r: bool)
    ensures
        r == (a is Some && a == b),
{
    match (a, b) {
        (Some(x), Some(y)) => x.0 == y.0 && x.1 == y.1,
        _ => false,
    }
}

/// The grouping as files come, before any group is sorted: every group
/// in the order of its files.
pub open spec fn is_raw_grouping(cands: Seq<Candidate>, hashes: Seq<Option<u64>>, gs: Seq<Seq<usize>>, upto: int) -> bool {
    &&& forall|g: int| 0 <= g < gs.len() ==> #[trigger] gs[g].len() > 0
    &&& forall|g: int, a: int| 0 <= g < gs.len() && 0 <= a < gs[g].len() ==> #[trigger] gs[g][a] < upto
    &&& forall|i: int| 0 <= i < upto ==> #[trigger] in_some_group(gs, i)
    &&& forall|g: int, h: int, a: int, b: int|
        0 <= g < gs.len() && 0 <= h < gs.len() && 0 <= a < gs[g].len() && 0 <= b < gs[h].len()
            && #[trigger] gs[g][a] == #[trigger] gs[h][b] ==> g == h && a == b
    &&& forall|g: int, a: int, b: int|
        0 <= g < gs.len() && 0 <= a < gs[g].len() && 0 <= b < gs[g].len() && a != b ==> dup_key(
            cands,
            hashes,
            #[trigger] gs[g][a] as int,
        ) is Some && dup_key(cands, hashes, gs[g][a] as int) == dup_key(cands, hashes, #[trigger] gs[g][b] as int)
    &&& forall|g: int, h: int|
        0 <= g < h < gs.len() ==> !(dup_key(cands, hashes, #[trigger] gs[g][0] as int) is Some && dup_key(
            cands,
            hashes,
            gs[g][0] as int,
        ) == dup_key(cands, hashes, #[trigger] gs[h][0] as int))
    &&& forall|g: int, a: int, b: int|
        0 <= g < gs.len() && 0 <= a < b < gs[g].len() ==> #[trigger] gs[g][a] < #[trigger] gs[g][b]
}

/// Groups the files as they come: a file with a key joins the group whose
/// first file has that key, else it starts a group.
fn raw_groups(cands: &Vec<Candidate>, hashes: &Vec<Option<u64>>) -> (r: Vec<Vec<usize>>)
    requires
        hashes@.len() == cands@.len(),
    ensures
        is_raw_grouping(cands@, hashes@, groups_view(r@), cands@.len() as int),
{
    let shared = shared_sizes(cands);
    let mut keys: Vec<Option<(u64, u64)>> = Vec::new();
    let mut k: usize = 0;
    while k < cands.len()
        invariant
            k <= cands@.len(),
            hashes@.len() == cands@.len(),
            shared@.len() == cands@.len(),
            forall|i: int| 0 <= i < cands@.len() ==> #[trigger] shared@[i] == shares_size(cands@, i),
            keys@.len() == k,
            forall|i: int| 0 <= i < k ==> #[trigger] keys@[i] == dup_key(cands@, hashes@, i),
        decreases cands.len() - k,
    {
        let key = if shared[k] {
            match hashes[k] {
                Some(h) => Some((cands[k].size, h)),
                None => None,
            }
        } else {
            None
        };
        keys.push(key);
        k = k + 1;
    }
    let ghost cv = cands@;
    let ghost hv = hashes@;
    let mut groups: Vec<Vec<usize>> = Vec::new();
    let mut i: usize = 0;
    while i < cands.len()
        invariant
            i <= cands@.len(),
            cv == cands@,
            hv == hashes@,
            keys@.len() == cands@.len(),
            forall|j: int| 0 <= j < cands@.len() ==> #[trigger] keys@[j] == dup_key(cv, hv, j),
            is_raw_grouping(cv, hv, groups_view(groups@), i as int),
        decreases cands.len() - i,
    {
        let ghost gv = groups_view(groups@);
        let key = keys[i];
        let mut found: Option<usize> = None;
        if key.is_some() {
            let mut g: usize = 0;
            while g < groups.len()
                invariant
                    g <= groups@.len(),
                    gv == groups_view(groups@),
                    forall|x: int| 0 <= x < gv.len() ==> #[trigger] gv[x].len() > 0,
                    forall|x: int, a: int| 0 <= x < gv.len() && 0 <= a < gv[x].len() ==> #[trigger] gv[x][a] < i,
                    i < keys@.len(),
                    keys@.len() == cv.len(),
                    forall|j: int| 0 <= j < cv.len() ==> #[trigger] keys@[j] == dup_key(cv, hv, j),
                    key == keys@[i as int],
                    forall|x: int| 0 <= x < g ==> !(key is Some && key == dup_key(cv, hv, #[trigger] gv[x][0] as int)),
                ensures
                    g <= groups@.len(),
                    forall|x: int| 0 <= x < g ==> !(key is Some && key == dup_key(cv, hv, #[trigger] gv[x][0] as int)),
                    g < groups@.len() ==> key is Some && key == dup_key(cv, hv, gv[g as int][0] as int),
                decreases groups.len() - g,
            {
                assert(gv[g as int] == groups@[g as int]@);
                let first = groups[g][0];
                if same_key(key, keys[first]) {
                    break;
                }
                g = g + 1;
            }
            if g < groups.len() {
                found = Some(g);
            }
        }
        proof {
            if found is None {
                assert forall|x: int| 0 <= x < gv.len() implies !(key is Some && key == dup_key(cv, hv, #[trigger] gv[x][0] as int)) by {
                    if key is Some {
                        assert(x < gv.len());
                    }
                }
            }
        }
        match found {
            Some(g) => {
                let mut members: Vec<usize> = Vec::new();
                groups.set_and_swap(g, &mut members);
                assert(members@ == gv[g as int]);
                members.push(i);
                groups.set(g, members);
                let ghost nv = groups_view(groups@);
                assert(nv =~= gv.update(g as int, gv[g as int].push(i)));
                proof {
                    lemma_join_group(cv, hv, gv, g as int, i as int);
                }
            },
            None => {
                let single: Vec<usize> = vec![i];
                assert(single@ =~= seq![i]);
                groups.push(single);
                let ghost nv = groups_view(groups@);
                assert(nv =~= gv.push(seq![i]));
                proof {
                    lemma_new_group(cv, hv, gv, i as int);
                }
            },
        }
        i = i + 1;
    }
    groups
}

proof fn lemma_join_group(cands: Seq<Candidate>, hashes: Seq<Option<u64>>, gv: Seq<Seq<usize>>, g: int, i: int)
    requires
        is_raw_grouping(cands, hashes, gv, i),
        0 <= g < gv.len(),
        0 <= i < cands.len(),
        i < usize::MAX,
        dup_key(cands, hashes, i) is Some,
        dup_key(cands, hashes, i) == dup_key(cands, hashes, gv[g][0] as int),
    ensures
        is_raw_grouping(cands, hashes, gv.update(g, gv[g].push(i as usize)), i + 1),
{
    let nv = gv.update(g, gv[g].push(i as usize));
    assert forall|x: int, a: int| 0 <= x < nv.len() && 0 <= a < nv[x].len() implies #[trigger] nv[x][a] < i + 1 by {
        if x != g || a < gv[g].len() {
            assert(nv[x][a] == gv[x][a]);
        }
    }
    assert forall|j: int| 0 <= j < i + 1 implies #[trigger] in_some_group(nv, j) by {
        if j == i {
            assert(nv[g][gv[g].len() as int] == i);
        } else {
            assert(in_some_group(gv, j));
            let (x, a) = choose|x: int, a: int| 0 <= x < gv.len() && 0 <= a < gv[x].len() && gv[x][a] == j;
            assert(nv[x][a] == gv[x][a]);
        }
    }
    assert forall|x: int, y: int, a: int, b: int|
        0 <= x < nv.len() && 0 <= y < nv.len() && 0 <= a < nv[x].len() && 0 <= b < nv[y].len()
            && #[trigger] nv[x][a] == #[trigger] nv[y][b] implies x == y && a == b by {
        let a_new = x == g && a == gv[g].len();
        let b_new = y == g && b == gv[g].len();
        if !a_new && !b_new {
            assert(nv[x][a] == gv[x][a] && nv[y][b] == gv[y][b]);
        } else if a_new && !b_new {
            assert(nv[y][b] == gv[y][b]);
            assert(gv[y][b] < i);
        } else if !a_new && b_new {
            assert(nv[x][a] == gv[x][a]);
            assert(gv[x][a] < i);
        }
    }
    assert forall|x: int, a: int, b: int|
        0 <= x < nv.len() && 0 <= a < nv[x].len() && 0 <= b < nv[x].len() && a != b implies dup_key(
            cands,
            hashes,
            #[trigger] nv[x][a] as int,
        ) is Some && dup_key(cands, hashes, nv[x][a] as int) == dup_key(cands, hashes, #[trigger] nv[x][b] as int) by {
        let n = gv[g].len() as int;
        if x != g {
            assert(nv[x] == gv[x]);
        } else {
            if a < n && b < n {
                assert(nv[x][a] == gv[g][a] && nv[x][b] == gv[g][b]);
            } else if a == n {
                assert(nv[x][b] == gv[g][b]);
                if b != 0 {
                    assert(dup_key(cands, hashes, gv[g][b] as int) == dup_key(cands, hashes, gv[g][0] as int));
                }
            } else {
                assert(nv[x][a] == gv[g][a]);
                if a != 0 {
                    assert(dup_key(cands, hashes, gv[g][a] as int) == dup_key(cands, hashes, gv[g][0] as int));
                }
            }
        }
    }
    assert forall|x: int, y: int|
        0 <= x < y < nv.len() implies !(dup_key(cands, hashes, #[trigger] nv[x][0] as int) is Some && dup_key(
            cands,
            hashes,
            nv[x][0] as int,
        ) == dup_key(cands, hashes, #[trigger] nv[y][0] as int)) by {
        assert(nv[x][0] == gv[x][0]);
        assert(nv[y][0] == gv[y][0]);
    }
    assert forall|x: int, a: int, b: int|
        0 <= x < nv.len() && 0 <= a < b < nv[x].len() implies #[trigger] nv[x][a] < #[trigger] nv[x][b] by {
        if x == g && b == gv[g].len() {
            assert(nv[x][a] == gv[g][a]);
        } else {
            assert(nv[x][a] == gv[x][a] && nv[x][b] == gv[x][b]);
        }
    }
}

proof fn lemma_new_group(cands: Seq<Candidate>, hashes: Seq<Option<u64>>, gv: Seq<Seq<usize>>, i: int)
    requires
        is_raw_grouping(cands, hashes, gv, i),
        0 <= i < cands.len(),
        i < usize::MAX,
        forall|x: int| 0 <= x < gv.len() ==> !(dup_key(cands, hashes, i) is Some && dup_key(cands, hashes, i)
            == dup_key(cands, hashes, #[trigger] gv[x][0] as int)),
    ensures
        is_raw_grouping(cands, hashes, gv.push(seq![i as usize]), i + 1),
{
    let nv = gv.push(seq![i as usize]);
    let last = gv.len() as int;
    assert forall|x: int, a: int| 0 <= x < nv.len() && 0 <= a < nv[x].len() implies #[trigger] nv[x][a] < i + 1 by {
        if x < last {
            assert(nv[x] == gv[x]);
        }
    }
    assert forall|j: int| 0 <= j < i + 1 implies #[trigger] in_some_group(nv, j) by {
        if j == i {
            assert(nv[last][0] == i);
        } else {
            assert(in_some_group(gv, j));
            let (x, a) = choose|x: int, a: int| 0 <= x < gv.len() && 0 <= a < gv[x].len() && gv[x][a] == j;
            assert(nv[x][a] == gv[x][a]);
        }
    }
    assert forall|x: int, y: int, a: int, b: int|
        0 <= x < nv.len() && 0 <= y < nv.len() && 0 <= a < nv[x].len() && 0 <= b < nv[y].len()
            && #[trigger] nv[x][a] == #[trigger] nv[y][b] implies x == y && a == b by {
        if x < last && y < last {
            assert(nv[x] == gv[x] && nv[y] == gv[y]);
        } else if x < last {
            assert(nv[x] == gv[x]);
            assert(gv[x][a] < i);
        } else if y < last {
            assert(nv[y] == gv[y]);
            assert(gv[y][b] < i);
        }
    }
    assert forall|x: int, a: int, b: int|
        0 <= x < nv.len() && 0 <= a < nv[x].len() && 0 <= b < nv[x].len() && a != b implies dup_key(
            cands,
            hashes,
            #[trigger] nv[x][a] as int,
        ) is Some && dup_key(cands, hashes, nv[x][a] as int) == dup_key(cands, hashes, #[trigger] nv[x][b] as int) by {
        if x < last {
            assert(nv[x] == gv[x]);
        }
    }
    assert forall|x: int, y: int|
        0 <= x < y < nv.len() implies !(dup_key(cands, hashes, #[trigger] nv[x][0] as int) is Some && dup_key(
            cands,
            hashes,
            nv[x][0] as int,
        ) == dup_key(cands, hashes, #[trigger] nv[y][0] as int)) by {
        assert(nv[x] == gv[x]);
        if y < last {
            assert(nv[y] == gv[y]);
        } else {
            assert(nv[y][0] == i);
        }
    }
    assert forall|x: int, a: int, b: int|
        0 <= x < nv.len() && 0 <= a < b < nv[x].len() implies #[trigger] nv[x][a] < #[trigger] nv[x][b] by {
        if x < last {
            assert(nv[x] == gv[x]);
        }
    }
}

/// Two lists hold the same positions, each once.
pub open spec fn same_members(s: Seq<usize>, t: Seq<usize>) -> bool {
    &&& s.len() == t.len()
    &&& forall|a: int| 0 <= a < s.len() ==> t.contains(#[trigger] s[a])
    &&& forall|p: int| 0 <= p < t.len() ==> s.contains(#[trigger] t[p])
    &&& forall|a: int, b: int| 0 <= a < b < s.len() ==> #[trigger] s[a] != #[trigger] s[b]
}

fn path_key_exec(p: &str) -> (r: Vec<char>)
    ensures
        r@ == path_key(p@),
{
    let chars = to_chars(p);
    let mut out: Vec<char> = Vec::new();
    let mut i: usize = 0;
    while i < chars.len()
        invariant
            i <= chars@.len(),
            chars@ == p@,
            out@ == chars@.subrange(0, i as int).map_values(|c: char| if c == '/' { '\0' } else { c }),
        decreases chars.len() - i,
    {
        let c = chars[i];
        out.push(if c == '/' { '\0' } else { c });
        i = i + 1;
        assert(out@ =~= chars@.subrange(0, i as int).map_values(|c: char| if c == '/' { '\0' } else { c }));
    }
    assert(chars@.subrange(0, chars@.len() as int) =~= chars@);
    out
}

/// The files of a group put in order: by where they were found, then by
/// path, ties keeping their order.
fn sort_group(cands: &Vec<Candidate>, members: Vec<usize>) -> (r: Vec<usize>)
    requires
        forall|a: int| 0 <= a < members@.len() ==> #[trigger] members@[a] < cands@.len(),
        forall|a: int, b: int| 0 <= a < b < members@.len() ==> #[trigger] members@[a] < #[trigger] members@[b],
    ensures
        same_members(r@, members@),
        sorted_by(cand_keys(cands@), r@),
{
    let ghost all = cand_keys(cands@);
    let mut lk: Vec<SortKey> = Vec::new();
    let mut i: usize = 0;
    while i < members.len()
        invariant
            i <= members@.len(),
            all == cand_keys(cands@),
            forall|a: int| 0 <= a < members@.len() ==> #[trigger] members@[a] < cands@.len(),
            lk@.len() == i,
            forall|p: int| 0 <= p < i ==> #[trigger] keys_view(lk@)[p] == all[members@[p] as int],
        decreases members.len() - i,
    {
        let c = &cands[members[i]];
        let rank: u8 = match c.source {
            Source::Selfie => 0,
            Source::Pictures => 1,
        };
        let key = SortKey { rank, number: 0, text: path_key_exec(c.path.as_str()) };
        let ghost before = lk@;
        lk.push(key);
        assert(keys_view(lk@) =~= keys_view(before).push(key_view(key)));
        i = i + 1;
    }
    let ghost lkv = keys_view(lk@);
    let order = stable_order(&lk);
    proof {
        assert forall|a: int, b: int| 0 <= a < b < order@.len() implies #[trigger] order@[a] != #[trigger] order@[b] by {
            lemma_sorted_distinct(lkv, order@, a, b);
        }
    }
    let ghost mv = members@;
    let r = arrange(members, &order);
    proof {
        assert(is_stable_order(lkv, order@));
        assert forall|a: int| 0 <= a < r@.len() implies mv.contains(#[trigger] r@[a]) by {
            assert(r@[a] == mv[order@[a] as int]);
        }
        assert forall|p: int| 0 <= p < mv.len() implies r@.contains(#[trigger] mv[p]) by {
            assert(order@.contains(p as usize));
            let k = choose|k: int| 0 <= k < order@.len() && order@[k] == p as usize;
            assert(r@[k] == mv[p]);
        }
        assert forall|a: int, b: int| 0 <= a < b < r@.len() implies #[trigger] r@[a] != #[trigger] r@[b] by {
            let oa = order@[a] as int;
            let ob = order@[b] as int;
            assert(order@[a] != order@[b]);
            if oa < ob {
                assert(mv[oa] < mv[ob]);
            } else {
                assert(mv[ob] < mv[oa]);
            }
        }
        assert forall|a: int, b: int| 0 <= a < b < r@.len() implies precedes(all, #[trigger] r@[a] as int, #[trigger] r@[b] as int) by {
            let oa = order@[a] as int;
            let ob = order@[b] as int;
            assert(precedes(lkv, order@[a] as int, order@[b] as int));
            assert(lkv[oa] == all[mv[oa] as int]);
            assert(lkv[ob] == all[mv[ob] as int]);
            if oa < ob {
                assert(mv[oa] < mv[ob]);
            }
        }
    }
    r
}

proof fn lemma_sorted_groups(
    cands: Seq<Candidate>,
    hashes: Seq<Option<u64>>,
    gs: Seq<Seq<usize>>,
    ss: Seq<Seq<usize>>,
)
    requires
        is_raw_grouping(cands, hashes, gs, cands.len() as int),
        ss.len() == gs.len(),
        forall|g: int| 0 <= g < ss.len() ==> same_members(#[trigger] ss[g], gs[g]),
        forall|g: int| 0 <= g < ss.len() ==> sorted_by(cand_keys(cands), #[trigger] ss[g]),
    ensures
        is_dup_grouping(cands, hashes, ss),
{
    assert forall|g: int| 0 <= g < ss.len() implies #[trigger] ss[g].len() > 0 by {
        assert(same_members(ss[g], gs[g]));
        assert(gs[g].len() > 0);
    }
    assert forall|g: int, a: int| 0 <= g < ss.len() && 0 <= a < ss[g].len() implies #[trigger] ss[g][a] < cands.len() by {
        assert(same_members(ss[g], gs[g]));
        assert(gs[g].contains(ss[g][a]));
        let p = choose|p: int| 0 <= p < gs[g].len() && gs[g][p] == ss[g][a];
        assert(gs[g][p] < cands.len());
    }
    assert forall|i: int| 0 <= i < cands.len() implies #[trigger] in_some_group(ss, i) by {
        assert(in_some_group(gs, i));
        let (g, p) = choose|g: int, p: int| 0 <= g < gs.len() && 0 <= p < gs[g].len() && gs[g][p] == i;
        assert(same_members(ss[g], gs[g]));
        assert(ss[g].contains(gs[g][p]));
        let a = choose|a: int| 0 <= a < ss[g].len() && ss[g][a] == gs[g][p];
        assert(ss[g][a] == i);
    }
    assert forall|g: int, h: int, a: int, b: int|
        0 <= g < ss.len() && 0 <= h < ss.len() && 0 <= a < ss[g].len() && 0 <= b < ss[h].len()
            && #[trigger] ss[g][a] == #[trigger] ss[h][b] implies g == h && a == b by {
        assert(same_members(ss[g], gs[g]));
        assert(same_members(ss[h], gs[h]));
        assert(gs[g].contains(ss[g][a]));
        assert(gs[h].contains(ss[h][b]));
        let p = choose|p: int| 0 <= p < gs[g].len() && gs[g][p] == ss[g][a];
        let q = choose|q: int| 0 <= q < gs[h].len() && gs[h][q] == ss[h][b];
        assert(gs[g][p] == gs[h][q]);
        if a != b && g == h {
            if a < b {
                assert(ss[g][a] != ss[g][b]);
            } else {
                assert(ss[g][b] != ss[g][a]);
            }
        }
    }
    assert forall|g: int, a: int, b: int|
        0 <= g < ss.len() && 0 <= a < ss[g].len() && 0 <= b < ss[g].len() && a != b implies dup_key(
            cands,
            hashes,
            #[trigger] ss[g][a] as int,
        ) is Some && dup_key(cands, hashes, ss[g][a] as int) == dup_key(cands, hashes, #[trigger] ss[g][b] as int) by {
        assert(same_members(ss[g], gs[g]));
        assert(gs[g].contains(ss[g][a]));
        assert(gs[g].contains(ss[g][b]));
        let p = choose|p: int| 0 <= p < gs[g].len() && gs[g][p] == ss[g][a];
        let q = choose|q: int| 0 <= q < gs[g].len() && gs[g][q] == ss[g][b];
        if a < b {
            assert(ss[g][a] != ss[g][b]);
        } else {
            assert(ss[g][b] != ss[g][a]);
        }
        assert(gs[g][p] != gs[g][q]);
    }
    assert forall|g: int, h: int|
        0 <= g < h < ss.len() implies !(dup_key(cands, hashes, #[trigger] ss[g][0] as int) is Some && dup_key(
            cands,
            hashes,
            ss[g][0] as int,
        ) == dup_key(cands, hashes, #[trigger] ss[h][0] as int)) by {
        assert(same_members(ss[g], gs[g]));
        assert(same_members(ss[h], gs[h]));
        assert(gs[g].len() > 0 && gs[h].len() > 0);
        assert(gs[g].contains(ss[g][0]));
        assert(gs[h].contains(ss[h][0]));
        let p = choose|p: int| 0 <= p < gs[g].len() && gs[g][p] == ss[g][0];
        let q = choose|q: int| 0 <= q < gs[h].len() && gs[h][q] == ss[h][0];
        if dup_key(cands, hashes, ss[g][0] as int) is Some && dup_key(cands, hashes, ss[g][0] as int) == dup_key(cands, hashes, ss[h][0] as int) {
            if p != 0 {
                assert(dup_key(cands, hashes, gs[g][p] as int) == dup_key(cands, hashes, gs[g][0] as int));
            }
            if q != 0 {
                assert(dup_key(cands, hashes, gs[h][q] as int) == dup_key(cands, hashes, gs[h][0] as int));
            }
            assert(!(dup_key(cands, hashes, gs[g][0] as int) is Some && dup_key(cands, hashes, gs[g][0] as int)
                == dup_key(cands, hashes, gs[h][0] as int)));
        }
    }
}

/// The files grouped into screenshots (see `is_dup_grouping`), as
/// positions in the list of files. `hashes` holds the content hash of each
/// file that shares its size, where it could be read.
pub fn duplicate_groups(cands: &Vec<Candidate>, hashes: &Vec<Option<u64>>) -> (r: Vec<Vec<usize>>)
    requires
        hashes@.len() == cands@.len(),
    ensures
        is_dup_grouping(cands@, hashes@, groups_view(r@)),
{
    let raw = raw_groups(cands, hashes);
    let ghost gs = groups_view(raw@);
    let mut out: Vec<Vec<usize>> = Vec::new();
    let mut g: usize = 0;
    while g < raw.len()
        invariant
            g <= raw@.len(),
            gs == groups_view(raw@),
            is_raw_grouping(cands@, hashes@, gs, cands@.len() as int),
            out@.len() == g,
            forall|x: int| 0 <= x < g ==> same_members(#[trigger] groups_view(out@)[x], gs[x]),
            forall|x: int| 0 <= x < g ==> sorted_by(cand_keys(cands@), #[trigger] groups_view(out@)[x]),
        decreases raw.len() - g,
    {
        let mut members: Vec<usize> = Vec::new();
        let mut k: usize = 0;
        assert(gs[g as int] == raw@[g as int]@);
        while k < raw[g].len()
            invariant
                k <= raw@[g as int]@.len(),
                g < raw@.len(),
                members@ == raw@[g as int]@.subrange(0, k as int),
            decreases raw@[g as int]@.len() - k,
        {
            members.push(raw[g][k]);
            k = k + 1;
            assert(members@ =~= raw@[g as int]@.subrange(0, k as int));
        }
        assert(members@ =~= gs[g as int]);
        let sorted = sort_group(cands, members);
        let ghost before = groups_view(out@);
        out.push(sorted);
        assert(groups_view(out@) =~= before.push(sorted@));
        g = g + 1;
    }
    proof {
        lemma_sorted_groups(cands@, hashes@, gs, groups_view(out@));
    }
    out
}

/// The screenshots among the files: for each, the copy shown (the one that
/// sorts first) and the other copies, in order.
pub fn unique(cands: &Vec<Candidate>, hashes: &Vec<Option<u64>>) -> (r: Vec<(String, Vec<String>)>)
    requires
        hashes@.len() == cands@.len(),
    ensures
        exists|groups: Seq<Seq<usize>>|
            is_dup_grouping(cands@, hashes@, groups) && r@.len() == groups.len() && forall|g: int|
                0 <= g < groups.len() ==> {
                    &&& (#[trigger] r@[g]).0@ == cands@[groups[g][0] as int].path@
                    &&& r@[g].1@.len() + 1 == groups[g].len()
                    &&& forall|k: int| 0 <= k < r@[g].1@.len() ==> #[trigger] r@[g].1@[k]@ == cands@[groups[g][k + 1] as int].path@
                },
{
    let groups = duplicate_groups(cands, hashes);
    let ghost gv = groups_view(groups@);
    let mut out: Vec<(String, Vec<String>)> = Vec::new();
    let mut g: usize = 0;
    while g < groups.len()
        invariant
            g <= groups@.len(),
            gv == groups_view(groups@),
            is_dup_grouping(cands@, hashes@, gv),
            out@.len() == g,
            forall|x: int|
                0 <= x < g ==> {
                    &&& (#[trigger] out@[x]).0@ == cands@[gv[x][0] as int].path@
                    &&& out@[x].1@.len() + 1 == gv[x].len()
                    &&& forall|k: int| 0 <= k < out@[x].1@.len() ==> #[trigger] out@[x].1@[k]@ == cands@[gv[x][k + 1] as int].path@
                },
        decreases groups.len() - g,
    {
        assert(gv[g as int] == groups@[g as int]@);
        assert(gv[g as int].len() > 0);
        let members = &groups[g];
        let primary = owned(cands[members[0]].path.as_str());
        let mut copies: Vec<String> = Vec::new();
        let mut k: usize = 1;
        while k < members.len()
            invariant
                1 <= k <= members@.len(),
                members@ == gv[g as int],
                forall|a: int| 0 <= a < members@.len() ==> #[trigger] members@[a] < cands@.len(),
                copies@.len() + 1 == k,
                forall|m: int| 0 <= m < copies@.len() ==> #[trigger] copies@[m]@ == cands@[members@[m + 1] as int].path@,
            decreases members.len() - k,
        {
            copies.push(owned(cands[members[k]].path.as_str()));
            k = k + 1;
        }
        out.push((primary, copies));
        g = g + 1;
    }
    out
}

} // verus!
