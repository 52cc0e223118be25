//! Stable ordering by keys: the order that `sort_by_key` gives, in which
//! items with equal keys keep the order they came in.
use vstd::prelude::*;

verus! {

/// Whether a text sorts before another, character by character by code
/// point, a proper prefix first (the order in which strings compare).
pub open spec fn text_lt(a: Seq<char>, b: Seq<char>) -> bool
    decreases a.len(),
{
    if a.len() == 0 {
        b.len() > 0
    } else if b.len() == 0 {
        false
    } else if a[0] != b[0] {
        a[0] < b[0]
    } else {
        text_lt(a.drop_first(), b.drop_first())
    }
}

pub proof fn lemma_text_lt_irreflexive(a: Seq<char>)
    ensures
        !text_lt(a, a),
    decreases a.len(),
{
    if a.len() > 0 {
        lemma_text_lt_irreflexive(a.drop_first());
    }
}

pub proof fn lemma_text_lt_transitive(a: Seq<char>, b: Seq<char>, c: Seq<char>)
    requires
        text_lt(a, b),
        text_lt(b, c),
    ensures
        text_lt(a, c),
    decreases a.len(),
{
    if a.len() > 0 && b.len() > 0 && c.len() > 0 && a[0] == b[0] && b[0] == c[0] {
        lemma_text_lt_transitive(a.drop_first(), b.drop_first(), c.drop_first());
    }
}

pub proof fn lemma_text_lt_total(a: Seq<char>, b: Seq<char>)
    ensures
        a == b || text_lt(a, b) || text_lt(b, a),
    decreases a.len(),
{
    if a.len() == 0 && b.len() == 0 {
        assert(a =~= b);
    } else if a.len() > 0 && b.len() > 0 && a[0] == b[0] {
        lemma_text_lt_total(a.drop_first(), b.drop_first());
        if a.drop_first() == b.drop_first() {
            assert(a =~= seq![a[0]] + a.drop_first());
            assert(b =~= seq![b[0]] + b.drop_first());
        }
    } else if a.len() > 0 && b.len() > 0 {
        assert(a[0] != b[0]);
    }
}

/// A sort key as a value: a rank, then a number, then a text, compared in
/// that order.
pub type KeyView = (u8, i128, Seq<char>);

/// A sort key.
pub struct SortKey {
    pub rank: u8,
    pub number: i128,
    pub text: Vec<char>,
}

pub open spec fn key_view(k: SortKey) -> KeyView {
    (k.rank, k.number, k.text@)
}

pub open spec fn keys_view(v: Seq<SortKey>) -> Seq<KeyView> {
    v.map_values(|k: SortKey| key_view(k))
}

/// Whether a key sorts before another.
pub open spec fn key_lt(a: KeyView, b: KeyView) -> bool {
    a.0 < b.0 || (a.0 == b.0 && (a.1 < b.1 || (a.1 == b.1 && text_lt(a.2, b.2))))
}

pub proof fn lemma_key_order(a: KeyView, b: KeyView, c: KeyView)
    ensures
        !key_lt(a, a),
        key_lt(a, b) && key_lt(b, c) ==> key_lt(a, c),
        a == b || key_lt(a, b) || key_lt(b, a),
{
    lemma_text_lt_irreflexive(a.2);
    if key_lt(a, b) && key_lt(b, c) && a.0 == b.0 && b.0 == c.0 && a.1 == b.1 && b.1 == c.1 {
        lemma_text_lt_transitive(a.2, b.2, c.2);
    }
    lemma_text_lt_total(a.2, b.2);
}

/// Position `i` comes before position `j`: its key is smaller, or the keys
/// are equal and it came first.
pub open spec fn precedes(keys: Seq<KeyView>, i: int, j: int) -> bool {
    key_lt(keys[i], keys[j]) || (keys[i] == keys[j] && i < j)
}

pub open spec fn sorted_by(keys: Seq<KeyView>, s: Seq<usize>) -> bool {
    forall|a: int, b: int| 0 <= a < b < s.len() ==> precedes(keys, #[trigger] s[a] as int, #[trigger] s[b] as int)
}

/// The order of positions in which a stable sort by the keys puts them:
/// every position once, each before the ones that follow it.
pub open spec fn is_stable_order(keys: Seq<KeyView>, order: Seq<usize>) -> bool {
    &&& order.len() == keys.len()
    &&& forall|k: int| 0 <= k < order.len() ==> #[trigger] order[k] < keys.len()
    &&& forall|x: usize| x < keys.len() ==> #[trigger] order.contains(x)
    &&& sorted_by(keys, order)
}

/// No position occurs twice in a sorted order.
pub proof fn lemma_sorted_distinct(keys: Seq<KeyView>, s: Seq<usize>, a: int, b: int)
    requires
        sorted_by(keys, s),
        forall|k: int| 0 <= k < s.len() ==> #[trigger] s[k] < keys.len(),
        0 <= a < b < s.len(),
    ensures
        s[a] != s[b],
{
    assert(precedes(keys, s[a] as int, s[b] as int));
    lemma_key_order(keys[s[a] as int], keys[s[a] as int], keys[s[a] as int]);
}

/// Two stable orders of the same keys are the same order.
pub proof fn law_stable_order_is_unique(keys: Seq<KeyView>, o1: Seq<usize>, o2: Seq<usize>)
    requires
        is_stable_order(keys, o1),
        is_stable_order(keys, o2),
    ensures
        o1 == o2,
    decreases o1.len(),
{
    lemma_orders_agree(keys, o1, o2, 0);
}

proof fn lemma_orders_agree(keys: Seq<KeyView>, o1: Seq<usize>, o2: Seq<usize>, k: int)
    requires
        is_stable_order(keys, o1),
        is_stable_order(keys, o2),
        0 <= k <= o1.len(),
        forall|j: int| 0 <= j < k ==> o1[j] == o2[j],
    ensures
        o1 == o2,
    decreases o1.len() - k,
{
    if k == o1.len() {
        assert(o1 =~= o2);
    } else {
        let x = o1[k];
        let y = o2[k];
        if x != y {
            // `y` occurs in `o1` at some place `p`, and `x` in `o2` at `q`.
            assert(o1.contains(y));
            let p = choose|p: int| 0 <= p < o1.len() && o1[p] == y;
            assert(o2.contains(x));
            let q = choose|q: int| 0 <= q < o2.len() && o2[q] == x;
            if p < k {
                assert(o2[p] == y);
                lemma_sorted_distinct(keys, o2, p, k);
            }
            if q < k {
                assert(o1[q] == x);
                lemma_sorted_distinct(keys, o1, q, k);
            }
            if p != k {
                assert(precedes(keys, x as int, y as int));
            }
            if q != k {
                assert(precedes(keys, y as int, x as int));
            }
            lemma_key_order(keys[x as int], keys[y as int], keys[x as int]);
            assert(false);
        }
        lemma_orders_agree(keys, o1, o2, k + 1);
    }
}

fn text_lt_exec(a: &[char], b: &[char]) -> (r: bool)
    ensures
        r == text_lt(a@, b@),
{
    let mut i: usize = 0;
    assert(a@.skip(0) =~= a@);
    assert(b@.skip(0) =~= b@);
    while i < a.len() && i < b.len()
        invariant
            i <= a@.len(),
            i <= b@.len(),
            text_lt(a@, b@) == text_lt(a@.skip(i as int), b@.skip(i as int)),
        decreases a.len() - i,
    {
        if a[i] != b[i] {
            assert(a@.skip(i as int)[0] == a@[i as int]);
            assert(b@.skip(i as int)[0] == b@[i as int]);
            return a[i] < b[i];
        }
        assert(a@.skip(i as int).drop_first() =~= a@.skip(i + 1));
        assert(b@.skip(i as int).drop_first() =~= b@.skip(i + 1));
        i = i + 1;
    }
    i == a.len() && i < b.len()
}

/// Whether one key sorts before another.
pub fn key_lt_exec(a: &SortKey, b: &SortKey) -> (r: bool)
    ensures
        r == key_lt(key_view(*a), key_view(*b)),
{
    if a.rank != b.rank {
        return a.rank < b.rank;
    }
    if a.number != b.number {
        return a.number < b.number;
    }
    text_lt_exec(a.text.as_slice(), b.text.as_slice())
}

proof fn lemma_insert_sorted(keys: Seq<KeyView>, s: Seq<usize>, pos: int, i: usize)
    requires
        sorted_by(keys, s),
        0 <= pos <= s.len(),
        i < keys.len(),
        forall|k: int| 0 <= k < s.len() ==> #[trigger] s[k] < i,
        forall|k: int| 0 <= k < pos ==> !key_lt(keys[i as int], keys[#[trigger] s[k] as int]),
        pos < s.len() ==> key_lt(keys[i as int], keys[s[pos] as int]),
    ensures
        sorted_by(keys, s.insert(pos, i)),
{
    let t = s.insert(pos, i);
    assert forall|a: int, b: int| 0 <= a < b < t.len() implies precedes(keys, #[trigger] t[a] as int, #[trigger] t[b] as int) by {
        if b == pos {
            let x = s[a];
            assert(t[a] == x);
            assert(!key_lt(keys[i as int], keys[x as int]));
            lemma_key_order(keys[x as int], keys[i as int], keys[x as int]);
        } else if a == pos {
            let y = s[b - 1];
            assert(t[b] == y);
            let first = s[pos];
            if b - 1 > pos {
                assert(precedes(keys, s[pos] as int, s[b - 1] as int));
            }
            lemma_key_order(keys[i as int], keys[first as int], keys[y as int]);
        } else if a < pos && b > pos {
            assert(t[a] == s[a]);
            assert(t[b] == s[b - 1]);
            assert(precedes(keys, s[a] as int, s[b - 1] as int));
        } else if b < pos {
            assert(t[a] == s[a] && t[b] == s[b]);
            assert(precedes(keys, s[a] as int, s[b] as int));
        } else {
            assert(t[a] == s[a - 1] && t[b] == s[b - 1]);
            assert(precedes(keys, s[a - 1] as int, s[b - 1] as int));
        }
    }
}

/// The positions of the keys in the order of a stable sort.
pub fn stable_order(keys: &Vec<SortKey>) -> (r: Vec<usize>)
    ensures
        is_stable_order(keys_view(keys@), r@),
{
    let ghost kv = keys_view(keys@);
    let mut out: Vec<usize> = Vec::new();
    let mut i: usize = 0;
    while i < keys.len()
        invariant
            i <= keys@.len(),
            kv == keys_view(keys@),
            kv.len() == keys@.len(),
            out@.len() == i,
            forall|k: int| 0 <= k < out@.len() ==> #[trigger] out@[k] < i,
            forall|x: usize| x < i ==> #[trigger] out@.contains(x),
            sorted_by(kv, out@),
        decreases keys.len() - i,
    {
        let mut pos: usize = 0;
        while pos < out.len()
            invariant
                pos <= out@.len(),
                i < keys@.len(),
                kv == keys_view(keys@),
                forall|k: int| 0 <= k < out@.len() ==> #[trigger] out@[k] < i,
                forall|k: int| 0 <= k < pos ==> !key_lt(kv[i as int], kv[#[trigger] out@[k] as int]),
            ensures
                pos <= out@.len(),
                forall|k: int| 0 <= k < pos ==> !key_lt(kv[i as int], kv[#[trigger] out@[k] as int]),
                pos < out@.len() ==> key_lt(kv[i as int], kv[out@[pos as int] as int]),
            decreases out.len() - pos,
        {
            let j = out[pos];
            assert(kv[i as int] == key_view(keys@[i as int]));
            assert(kv[j as int] == key_view(keys@[j as int]));
            if key_lt_exec(&keys[i], &keys[j]) {
                break;
            }
            pos = pos + 1;
        }
        let ghost before = out@;
        proof {
            lemma_insert_sorted(kv, before, pos as int, i);
        }
        out.insert(pos, i);
        assert(out@ == before.insert(pos as int, i));
        assert forall|x: usize| x < i + 1 implies #[trigger] out@.contains(x) by {
            if x == i {
                assert(out@[pos as int] == i);
            } else {
                assert(before.contains(x));
                let k = choose|k: int| 0 <= k < before.len() && before[k] == x;
                if k < pos {
                    assert(out@[k] == x);
                } else {
                    assert(out@[k + 1] == x);
                }
            }
        }
        assert forall|k: int| 0 <= k < out@.len() implies #[trigger] out@[k] < i + 1 by {
            if k < pos {
                assert(out@[k] == before[k]);
            } else if k > pos {
                assert(out@[k] == before[k - 1]);
            }
        }
        i = i + 1;
    }
    out
}

/// The items put in the given order of their positions, each position
/// taken once.
pub fn arrange<T>(items: Vec<T>, order: &Vec<usize>) -> (r: Vec<T>)
    requires
        forall|k: int| 0 <= k < order@.len() ==> #[trigger] order@[k] < items@.len(),
        forall|a: int, b: int| 0 <= a < b < order@.len() ==> #[trigger] order@[a] != #[trigger] order@[b],
    ensures
        r@.len() == order@.len(),
        forall|k: int| 0 <= k < order@.len() ==> #[trigger] r@[k] == items@[order@[k] as int],
{
    let ghost orig = items@;
    let mut slots: Vec<Option<T>> = Vec::new();
    let mut rest = items;
    let n = rest.len();
    let mut taken: usize = 0;
    while taken < n
        invariant
            n == orig.len(),
            taken <= n,
            rest@ == orig.subrange(taken as int, n as int),
            slots@.len() == taken,
            forall|j: int| 0 <= j < taken ==> #[trigger] slots@[j] == Some(orig[j]),
        decreases n - taken,
    {
        let x = rest.remove(0);
        slots.push(Some(x));
        taken = taken + 1;
        assert(rest@ =~= orig.subrange(taken as int, n as int));
    }
    let mut out: Vec<T> = Vec::new();
    let mut k: usize = 0;
    while k < order.len()
        invariant
            n == orig.len(),
            slots@.len() == n,
            k <= order@.len(),
            out@.len() == k,
            forall|m: int| 0 <= m < order@.len() ==> #[trigger] order@[m] < n,
            forall|a: int, b: int| 0 <= a < b < order@.len() ==> #[trigger] order@[a] != #[trigger] order@[b],
            forall|m: int| 0 <= m < k ==> #[trigger] out@[m] == orig[order@[m] as int],
            forall|j: int|
                0 <= j < n ==> #[trigger] slots@[j] == (if exists|m: int| 0 <= m < k && order@[m] == j {
                    None
                } else {
                    Some(orig[j])
                }),
        decreases order.len() - k,
    {
        let idx = order[k];
        assert(!exists|m: int| 0 <= m < k && order@[m] == idx) by {
            if exists|m: int| 0 <= m < k && order@[m] == idx {
                let m = choose|m: int| 0 <= m < k && order@[m] == idx;
                assert(order@[m] != order@[k as int]);
            }
        }
        assert(slots@[idx as int] == Some(orig[idx as int]));
        let mut tmp: Option<T> = None;
        slots.set_and_swap(idx, &mut tmp);
        let x = tmp.unwrap();
        out.push(x);
        assert forall|j: int| 0 <= j < n implies #[trigger] slots@[j] == (if exists|m: int| 0 <= m < k + 1 && order@[m] == j {
            None
        } else {
            Some(orig[j])
        }) by {
            if j == idx {
                assert(order@[k as int] == j);
            } else {
                if exists|m: int| 0 <= m < k + 1 && order@[m] == j {
                    let m = choose|m: int| 0 <= m < k + 1 && order@[m] == j;
                    assert(m < k);
                }
            }
        }
        k = k + 1;
    }
    out
}

/// How often a text occurs in a list.
pub open spec fn occurrences(s: Seq<Seq<char>>, x: Seq<char>) -> nat
    decreases s.len(),
{
    if s.len() == 0 {
        0
    } else {
        occurrences(s.drop_last(), x) + if s.last() == x { 1nat } else { 0nat }
    }
}

pub proof fn lemma_occurrences_bound(s: Seq<Seq<char>>, x: Seq<char>)
    ensures
        occurrences(s, x) <= s.len(),
        s.contains(x) <==> occurrences(s, x) > 0,
    decreases s.len(),
{
    if s.len() > 0 {
        lemma_occurrences_bound(s.drop_last(), x);
        if s.contains(x) && s.last() != x {
            let i = choose|i: int| 0 <= i < s.len() && s[i] == x;
            assert(s.drop_last()[i] == x);
        }
        if s.drop_last().contains(x) {
            let i = choose|i: int| 0 <= i < s.drop_last().len() && s.drop_last()[i] == x;
            assert(s[i] == x);
        }
        if s.last() == x {
            assert(s[s.len() - 1] == x);
        }
    }
}

/// The distinct texts of a list in text order, each with how often it
/// occurs (what counting into a `BTreeMap` gives).
pub open spec fn is_tally(items: Seq<Seq<char>>, r: Seq<(Seq<char>, nat)>) -> bool {
    &&& forall|a: int, b: int| 0 <= a < b < r.len() ==> text_lt(#[trigger] r[a].0, #[trigger] r[b].0)
    &&& forall|k: int| 0 <= k < r.len() ==> #[trigger] r[k].1 == occurrences(items, r[k].0) && r[k].1 > 0
    &&& forall|i: int| 0 <= i < items.len() ==> exists|k: int| 0 <= k < r.len() && #[trigger] r[k].0 == #[trigger] items[i]
}

pub open spec fn tally_view(v: Seq<(String, usize)>) -> Seq<(Seq<char>, nat)> {
    v.map_values(|p: (String, usize)| (p.0@, p.1 as nat))
}

fn text_eq_exec(a: &[char], b: &[char]) -> (r: bool)
    ensures
        r == (a@ == b@),
{
    if a.len() != b.len() {
        return false;
    }
    let mut i: usize = 0;
    while i < a.len()
        invariant
            a@.len() == b@.len(),
            i <= a@.len(),
            forall|k: int| 0 <= k < i ==> a@[k] == b@[k],
        decreases a.len() - i,
    {
        if a[i] != b[i] {
            return false;
        }
        i = i + 1;
    }
    assert(a@ =~= b@);
    true
}

/// Counts the texts of a list: each distinct text once, in text order,
/// with how often it occurs.
pub fn tally(items: &Vec<String>) -> (r: Vec<(String, usize)>)
    ensures
        is_tally(items@.map_values(|s: String| s@), tally_view(r@)),
{
    let ghost all = items@.map_values(|s: String| s@);
    let mut out: Vec<(String, usize)> = Vec::new();
    let mut i: usize = 0;
    while i < items.len()
        invariant
            i <= items@.len(),
            all == items@.map_values(|s: String| s@),
            is_tally(all.subrange(0, i as int), tally_view(out@)),
            forall|k: int| 0 <= k < out@.len() ==> #[trigger] out@[k].1 <= i,
        decreases items.len() - i,
    {
        let ghost pre = all.subrange(0, i as int);
        let ghost next = all.subrange(0, i + 1);
        let ghost tv = tally_view(out@);
        assert(next.drop_last() =~= pre);
        assert(next.last() == items@[i as int]@);
        let x = to_chars_of(&items[i]);
        let mut pos: usize = 0;
        while pos < out.len()
            invariant
                pos <= out@.len(),
                tv == tally_view(out@),
                x@ == items@[i as int]@,
                forall|k: int| 0 <= k < pos ==> text_lt(#[trigger] tv[k].0, x@),
            ensures
                pos <= out@.len(),
                forall|k: int| 0 <= k < pos ==> text_lt(#[trigger] tv[k].0, x@),
                pos < out@.len() ==> !text_lt(tv[pos as int].0, x@),
            decreases out.len() - pos,
        {
            let y = to_chars_of(&out[pos].0);
            if !text_lt_exec(y.as_slice(), x.as_slice()) {
                break;
            }
            pos = pos + 1;
        }
        proof {
            lemma_occurrences_bound(pre, x@);
        }
        let found = pos < out.len() && text_eq_exec(to_chars_of(&out[pos].0).as_slice(), x.as_slice());
        if found {
            let (name, count) = out.remove(pos);
            let c = count + 1;
            out.insert(pos, (name, c));
            proof {
                let nv = tally_view(out@);
                assert(nv =~= tv.update(pos as int, (tv[pos as int].0, tv[pos as int].1 + 1)));
                assert forall|k: int| 0 <= k < nv.len() implies #[trigger] nv[k].1 == occurrences(next, nv[k].0) && nv[k].1 > 0 by {
                    assert(nv[k].0 == tv[k].0);
                }
                assert forall|j: int| 0 <= j < next.len() implies exists|k: int| 0 <= k < nv.len() && #[trigger] nv[k].0 == #[trigger] next[j] by {
                    if j < i {
                        assert(pre[j] == next[j]);
                        let k = choose|k: int| 0 <= k < tv.len() && tv[k].0 == pre[j];
                        assert(nv[k].0 == tv[k].0);
                    } else {
                        assert(nv[pos as int].0 == next[j]);
                    }
                }
                assert forall|a: int, b: int| 0 <= a < b < nv.len() implies text_lt(#[trigger] nv[a].0, #[trigger] nv[b].0) by {
                    assert(nv[a].0 == tv[a].0 && nv[b].0 == tv[b].0);
                }
            }
        } else {
            let name = from_chars_of(x.as_slice());
            out.insert(pos, (name, 1));
            proof {
                let nv = tally_view(out@);
                assert(nv =~= tv.insert(pos as int, (x@, 1nat)));
                assert(!pre.contains(x@)) by {
                    if pre.contains(x@) {
                        let j = choose|j: int| 0 <= j < pre.len() && pre[j] == x@;
                        let k = choose|k: int| 0 <= k < tv.len() && tv[k].0 == pre[j];
                        if k < pos {
                            lemma_text_lt_irreflexive(x@);
                        } else if k == pos {
                        } else {
                            assert(text_lt(tv[pos as int].0, tv[k].0));
                            lemma_text_lt_total(tv[pos as int].0, x@);
                            lemma_text_lt_transitive(x@, tv[pos as int].0, tv[k].0);
                            lemma_text_lt_irreflexive(x@);
                        }
                    }
                }
                assert forall|k: int| 0 <= k < nv.len() implies #[trigger] nv[k].1 == occurrences(next, nv[k].0) && nv[k].1 > 0 by {
                    if k < pos {
                        assert(nv[k] == tv[k]);
                        assert(text_lt(tv[k].0, x@));
                        lemma_text_lt_irreflexive(x@);
                    } else if k > pos {
                        assert(nv[k] == tv[k - 1]);
                        if tv[k - 1].0 == x@ {
                            assert(occurrences(pre, x@) > 0);
                        }
                    }
                }
                assert forall|j: int| 0 <= j < next.len() implies exists|m: int| 0 <= m < nv.len() && #[trigger] nv[m].0 == #[trigger] next[j] by {
                    if j < i {
                        assert(pre[j] == next[j]);
                        let k = choose|k: int| 0 <= k < tv.len() && tv[k].0 == pre[j];
                        if k < pos {
                            assert(nv[k].0 == tv[k].0);
                        } else {
                            assert(nv[k + 1].0 == tv[k].0);
                        }
                    } else {
                        assert(nv[pos as int].0 == next[j]);
                    }
                }
                assert forall|a: int, b: int| 0 <= a < b < nv.len() implies text_lt(#[trigger] nv[a].0, #[trigger] nv[b].0) by {
                    if b == pos {
                        assert(nv[a] == tv[a]);
                    } else if a == pos {
                        assert(nv[b] == tv[b - 1]);
                        let first = tv[pos as int].0;
                        lemma_text_lt_total(first, x@);
                        if b - 1 > pos {
                            assert(text_lt(tv[pos as int].0, tv[b - 1].0));
                            lemma_text_lt_transitive(x@, first, tv[b - 1].0);
                        }
                    } else if a < pos && b > pos {
                        assert(nv[a] == tv[a] && nv[b] == tv[b - 1]);
                        if b - 1 > a {
                            assert(text_lt(tv[a].0, tv[b - 1].0));
                        }
                    } else if b < pos {
                        assert(nv[a] == tv[a] && nv[b] == tv[b]);
                    } else {
                        assert(nv[a] == tv[a - 1] && nv[b] == tv[b - 1]);
                    }
                }
            }
        }
        i = i + 1;
    }
    assert(all.subrange(0, all.len() as int) =~= all);
    out
}

fn to_chars_of(s: &String) -> (r: Vec<char>)
    ensures
        r@ == s@,
{
    crate::text::to_chars(s.as_str())
}

fn from_chars_of(v: &[char]) -> (r: String)
    ensures
        r@ == v@,
{
    crate::text::from_chars(v)
}

} // verus!
