//! A set of text IDs (paths of mods and groups), kept as a list in which
//! each ID occurs once.
use vstd::prelude::*;
use crate::text::{eq_chars, from_chars, to_chars};

verus! {

pub open spec fn ids_view(v: Seq<String>) -> Seq<Seq<char>> {
    v.map_values(|s: String| s@)
}

pub fn same_text(a: &str, b: &str) -> (r: bool)
    ensures
        r == (a@ == b@),
{
    let x = to_chars(a);
    let y = to_chars(b);
    eq_chars(x.as_slice(), y.as_slice())
}

pub fn owned(a: &str) -> (r: String)
    ensures
        r@ == a@,
{
    from_chars(to_chars(a).as_slice())
}

/// Distinct text IDs.
pub struct IdSet {
    items: Vec<String>,
}

impl IdSet {
    #[verifier::type_invariant]
    closed spec fn distinct(&self) -> bool {
        ids_view(self.items@).no_duplicates()
    }

    /// The IDs held.
    pub closed spec fn view(&self) -> Set<Seq<char>> {
        ids_view(self.items@).to_set()
    }

    pub fn new() -> (r: Self)
        ensures
            r.view() == Set::<Seq<char>>::empty(),
    {
        let r = IdSet { items: Vec::new() };
        assert(ids_view(r.items@).to_set() =~= Set::<Seq<char>>::empty());
        r
    }

    fn position(&self, id: &str) -> (r: Option<usize>)
        ensures
            match r {
                Some(i) => i < self.items@.len() && self.items@[i as int]@ == id@,
                None => !self.view().contains(id@),
            },
    {
        let ghost v = ids_view(self.items@);
        let mut i: usize = 0;
        while i < self.items.len()
            invariant
                i <= self.items@.len(),
                v == ids_view(self.items@),
                forall|j: int| 0 <= j < i ==> v[j] != id@,
            decreases self.items.len() - i,
        {
            assert(v[i as int] == self.items@[i as int]@);
            if same_text(self.items[i].as_str(), id) {
                return Some(i);
            }
            i = i + 1;
        }
        assert(!v.to_set().contains(id@)) by {
            if v.to_set().contains(id@) {
                assert(v.contains(id@));
                let j = choose|j: int| 0 <= j < v.len() && v[j] == id@;
                assert(v[j] != id@);
            }
        }
        None
    }

    /// Whether the ID is held.
    pub fn contains(&self, id: &str) -> (r: bool)
        ensures
            r == self.view().contains(id@),
    {
        match self.position(id) {
            Some(i) => {
                assert(ids_view(self.items@)[i as int] == id@);
                true
            },
            None => false,
        }
    }

    /// How many IDs are held.
    pub fn len(&self) -> (r: usize)
        ensures
            r == self.view().len(),
    {
        proof {
            use_type_invariant(self);
            ids_view(self.items@).unique_seq_to_set();
        }
        self.items.len()
    }

    /// Adds the ID; true where it was not held before.
    pub fn insert(&mut self, id: &str) -> (r: bool)
        ensures
            final(self).view() == old(self).view().insert(id@),
            r == !old(self).view().contains(id@),
    {
        proof {
            use_type_invariant(&*self);
        }
        if self.contains(id) {
            assert(self.view().insert(id@) =~= self.view());
            return false;
        }
        let ghost before = ids_view(self.items@);
        let mut items = Vec::new();
        std::mem::swap(&mut items, &mut self.items);
        items.push(owned(id));
        assert(ids_view(items@) =~= before.push(id@));
        assert(ids_view(items@).no_duplicates()) by {
            assert forall|a: int, b: int| 0 <= a < b < ids_view(items@).len() implies ids_view(
                items@,
            )[a] != ids_view(items@)[b] by {
                if b == before.len() {
                    assert(before.contains(before[a]));
                }
            }
        }
        self.items = items;
        assert(ids_view(self.items@).to_set() =~= before.to_set().insert(id@)) by {
            assert forall|x: Seq<char>| #[trigger] ids_view(self.items@).to_set().contains(x) <==> before.to_set().insert(
                id@,
            ).contains(x) by {
                if ids_view(self.items@).contains(x) {
                    let j = choose|j: int| 0 <= j < ids_view(self.items@).len() && ids_view(self.items@)[j] == x;
                    if j < before.len() {
                        assert(before[j] == x);
                    }
                }
                if before.contains(x) {
                    let j = choose|j: int| 0 <= j < before.len() && before[j] == x;
                    assert(ids_view(self.items@)[j] == x);
                }
                if x == id@ {
                    assert(ids_view(self.items@)[before.len() as int] == x);
                }
            }
        }
        true
    }

    /// Takes the ID out; true where it was held.
    pub fn remove(&mut self, id: &str) -> (r: bool)
        ensures
            final(self).view() == old(self).view().remove(id@),
            r == old(self).view().contains(id@),
    {
        proof {
            use_type_invariant(&*self);
        }
        match self.position(id) {
            None => {
                assert(self.view().remove(id@) =~= self.view());
                false
            },
            Some(i) => {
                let ghost before = ids_view(self.items@);
                assert(before[i as int] == id@);
                assert(before.to_set().contains(id@)) by {
                    assert(before.contains(id@));
                }
                let mut items = Vec::new();
                std::mem::swap(&mut items, &mut self.items);
                items.remove(i);
                let ghost after = ids_view(items@);
                assert(after =~= before.subrange(0, i as int) + before.subrange(i + 1, before.len() as int));
                assert(after.no_duplicates()) by {
                    assert forall|a: int, b: int| 0 <= a < b < after.len() implies after[a] != after[b] by {
                        let a2 = if a < i { a } else { a + 1 };
                        let b2 = if b < i { b } else { b + 1 };
                        assert(after[a] == before[a2]);
                        assert(after[b] == before[b2]);
                    }
                }
                self.items = items;
                assert(after.to_set() =~= before.to_set().remove(id@)) by {
                    assert forall|x: Seq<char>| #[trigger] after.to_set().contains(x) <==> before.to_set().remove(
                        id@,
                    ).contains(x) by {
                        if after.contains(x) {
                            let j = choose|j: int| 0 <= j < after.len() && after[j] == x;
                            let j2 = if j < i { j } else { j + 1 };
                            assert(before[j2] == x);
                            assert(j2 != i);
                            assert(before.contains(x));
                        }
                        if before.contains(x) && x != id@ {
                            let j = choose|j: int| 0 <= j < before.len() && before[j] == x;
                            assert(j != i);
                            let j2 = if j < i { j } else { j - 1 };
                            assert(after[j2] == x);
                            assert(after.contains(x));
                        }
                    }
                }
                true
            },
        }
    }

    /// Takes the ID out where held, else adds it; true where it is held
    /// afterwards.
    pub fn toggle(&mut self, id: &str) -> (r: bool)
        ensures
            r == !old(self).view().contains(id@),
            r ==> final(self).view() == old(self).view().insert(id@),
            !r ==> final(self).view() == old(self).view().remove(id@),
    {
        if self.remove(id) {
            false
        } else {
            self.insert(id);
            true
        }
    }

    /// Holds nothing afterwards.
    pub fn clear(&mut self)
        ensures
            final(self).view() == Set::<Seq<char>>::empty(),
    {
        self.items = Vec::new();
        assert(ids_view(self.items@).to_set() =~= Set::<Seq<char>>::empty());
    }
}

impl IdSet {
    /// Keeps only the IDs that another set holds.
    pub fn retain_in(&mut self, allowed: &IdSet)
        ensures
            final(self).view() == old(self).view().intersect(allowed.view()),
    {
        let mut kept = IdSet::new();
        let ghost v = ids_view(self.items@);
        let mut i: usize = 0;
        while i < self.items.len()
            invariant
                i <= self.items@.len(),
                v == ids_view(self.items@),
                kept.view() == v.subrange(0, i as int).to_set().intersect(allowed.view()),
            decreases self.items.len() - i,
        {
            let ghost a = v.subrange(0, i as int);
            let ghost b = v.subrange(0, i + 1);
            let ghost x = v[i as int];
            assert(x == self.items@[i as int]@);
            assert(b =~= a.push(x));
            if allowed.contains(self.items[i].as_str()) {
                kept.insert(self.items[i].as_str());
            }
            assert(kept.view() =~= b.to_set().intersect(allowed.view())) by {
                assert forall|y: Seq<char>| #[trigger] b.to_set().contains(y) <==> a.to_set().insert(x).contains(y) by {
                    if b.contains(y) {
                        let k = choose|k: int| 0 <= k < b.len() && b[k] == y;
                        if k < a.len() {
                            assert(a[k] == y);
                        }
                    }
                    if a.contains(y) {
                        let k = choose|k: int| 0 <= k < a.len() && a[k] == y;
                        assert(b[k] == y);
                    }
                    if y == x {
                        assert(b[a.len() as int] == y);
                    }
                }
            }
            i = i + 1;
        }
        assert(v.subrange(0, v.len() as int) =~= v);
        *self = kept;
    }
}

impl IdSet {
    /// Empties the set and hands out its IDs, each once.
    pub fn take(&mut self) -> (r: Vec<String>)
        ensures
            ids_view(r@).to_set() == old(self).view(),
            ids_view(r@).no_duplicates(),
            final(self).view() == Set::<Seq<char>>::empty(),
    {
        proof {
            use_type_invariant(&*self);
        }
        let mut out: Vec<String> = Vec::new();
        std::mem::swap(&mut out, &mut self.items);
        assert(ids_view(self.items@).to_set() =~= Set::<Seq<char>>::empty());
        out
    }
}

impl IdSet {
    /// The distinct IDs of a list.
    pub fn from_ids(ids: &Vec<String>) -> (r: Self)
        ensures
            r.view() == ids_view(ids@).to_set(),
    {
        let mut r = IdSet::new();
        let mut i: usize = 0;
        while i < ids.len()
            invariant
                i <= ids@.len(),
                r.view() == ids_view(ids@.subrange(0, i as int)).to_set(),
            decreases ids.len() - i,
        {
            r.insert(ids[i].as_str());
            proof {
                let a = ids_view(ids@.subrange(0, i as int));
                let b = ids_view(ids@.subrange(0, i + 1));
                assert(b =~= a.push(ids@[i as int]@));
                assert(b.to_set() =~= a.to_set().insert(ids@[i as int]@)) by {
                    assert forall|x: Seq<char>| #[trigger] b.to_set().contains(x) <==> a.to_set().insert(ids@[i as int]@).contains(x) by {
                        if b.contains(x) {
                            let k = choose|k: int| 0 <= k < b.len() && b[k] == x;
                            if k < a.len() {
                                assert(a[k] == x);
                            }
                        }
                        if a.contains(x) {
                            let k = choose|k: int| 0 <= k < a.len() && a[k] == x;
                            assert(b[k] == x);
                        }
                        if x == ids@[i as int]@ {
                            assert(b[a.len() as int] == x);
                        }
                    }
                }
            }
            i = i + 1;
        }
        assert(ids@.subrange(0, ids@.len() as int) =~= ids@);
        r
    }
}

/// Toggling an ID twice leaves the set as it was.
pub proof fn law_toggle_twice(s: Set<Seq<char>>, id: Seq<char>)
    ensures
        (if s.contains(id) {
            let t = s.remove(id);
            t.insert(id)
        } else {
            let t = s.insert(id);
            t.remove(id)
        }) == s,
{
    if s.contains(id) {
        assert(s.remove(id).insert(id) =~= s);
    } else {
        assert(s.insert(id).remove(id) =~= s);
    }
}

} // verus!
