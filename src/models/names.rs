//! Language-keyed name maps: `"default"`, `"de"`, `"fr"`, ... to a name.
use vstd::prelude::*;

verus! {

/// Two strings hold the same characters.
pub fn str_eq(a: &str, b: &str) -> (r: bool)
    ensures
        r == (a@ == b@),
{
    let x = a.to_owned();
    let y = b.to_owned();
    x == y
}

/// The map that a list of pairs with distinct keys stands for.
pub open spec fn pairs_map(s: Seq<(String, String)>) -> Map<Seq<char>, Seq<char>> {
    Map::new(
        |k: Seq<char>| exists|i: int| 0 <= i < s.len() && s[i].0@ == k,
        |k: Seq<char>| s[choose|i: int| 0 <= i < s.len() && s[i].0@ == k].1@,
    )
}

pub open spec fn keys_distinct(s: Seq<(String, String)>) -> bool {
    forall|i: int, j: int|
        0 <= i < s.len() && 0 <= j < s.len() && i != j ==> #[trigger] s[i].0@ != #[trigger] s[j].0@
}

pub proof fn lemma_pairs_map_at(s: Seq<(String, String)>, i: int)
    requires
        keys_distinct(s),
        0 <= i < s.len(),
    ensures
        pairs_map(s).contains_key(s[i].0@),
        pairs_map(s)[s[i].0@] == s[i].1@,
{
    let k = s[i].0@;
    assert(exists|j: int| 0 <= j < s.len() && s[j].0@ == k);
    let j = choose|j: int| 0 <= j < s.len() && s[j].0@ == k;
    if j != i {
        assert(s[i].0@ != s[j].0@);
    }
}

/// Extending a list of pairs with distinct keys by one pair inserts it into the map.
pub proof fn lemma_pairs_map_take(s: Seq<(String, String)>, i: int)
    requires
        keys_distinct(s),
        0 <= i < s.len(),
    ensures
        keys_distinct(s.take(i)),
        keys_distinct(s.take(i + 1)),
        !pairs_map(s.take(i)).contains_key(s[i].0@),
        pairs_map(s.take(i + 1)) == pairs_map(s.take(i)).insert(s[i].0@, s[i].1@),
{
    let t0 = s.take(i);
    let t1 = s.take(i + 1);
    assert(keys_distinct(t0)) by {
        assert forall|a: int, b: int| 0 <= a < t0.len() && 0 <= b < t0.len() && a != b implies #[trigger] t0[a].0@
            != #[trigger] t0[b].0@ by {
            assert(s[a].0@ != s[b].0@);
        }
    }
    assert(keys_distinct(t1)) by {
        assert forall|a: int, b: int| 0 <= a < t1.len() && 0 <= b < t1.len() && a != b implies #[trigger] t1[a].0@
            != #[trigger] t1[b].0@ by {
            assert(s[a].0@ != s[b].0@);
        }
    }
    let k = s[i].0@;
    assert(!pairs_map(t0).contains_key(k)) by {
        if pairs_map(t0).contains_key(k) {
            let j = choose|j: int| 0 <= j < t0.len() && t0[j].0@ == k;
            assert(s[j].0@ == s[i].0@);
        }
    }
    assert forall|x: Seq<char>| #![auto] pairs_map(t1).contains_key(x) <==> (pairs_map(t0).contains_key(x) || x == k) by {
        if x == k {
            assert(t1[i].0@ == x);
        }
        if pairs_map(t0).contains_key(x) {
            let j = choose|j: int| 0 <= j < t0.len() && t0[j].0@ == x;
            assert(t1[j].0@ == x);
        }
        if pairs_map(t1).contains_key(x) && x != k {
            let j = choose|j: int| 0 <= j < t1.len() && t1[j].0@ == x;
            assert(t0[j].0@ == x);
        }
    }
    assert forall|x: Seq<char>| #[trigger] pairs_map(t1).contains_key(x) implies pairs_map(t1)[x] == pairs_map(t0).insert(
        k,
        s[i].1@,
    )[x] by {
        let j = choose|j: int| 0 <= j < t1.len() && t1[j].0@ == x;
        lemma_pairs_map_at(t1, j);
        if x != k {
            lemma_pairs_map_at(t0, j);
        } else {
            lemma_pairs_map_at(t1, i);
        }
    }
    assert(pairs_map(t1) =~= pairs_map(t0).insert(k, s[i].1@));
}

/// Names of one feature, keyed by language code.
#[derive(Debug)]
pub struct NameMap {
    entries: Vec<(String, String)>,
}

impl View for NameMap {
    type V = Map<Seq<char>, Seq<char>>;

    closed spec fn view(&self) -> Map<Seq<char>, Seq<char>> {
        pairs_map(self.entries@)
    }
}

impl Clone for NameMap {
    fn clone(&self) -> (r: NameMap)
        ensures
            r@ == self@,
    {
        self.copied()
    }
}

impl NameMap {
    /// Keys are distinct.
    #[verifier::type_invariant]
    closed spec fn wf(&self) -> bool {
        keys_distinct(self.entries@)
    }

    pub fn new() -> (r: NameMap)
        ensures
            r@ == Map::<Seq<char>, Seq<char>>::empty(),
    {
        let r = NameMap { entries: Vec::new() };
        assert(r@ =~= Map::<Seq<char>, Seq<char>>::empty());
        r
    }

    fn find(&self, key: &str) -> (r: Option<usize>)
        ensures
            r.is_none() ==> !self@.contains_key(key@),
            r.is_some() ==> r.unwrap() < self.entries@.len() && self.entries@[r.unwrap() as int].0@
                == key@,
    {
        let k = key.to_owned();
        let mut i: usize = 0;
        while i < self.entries.len()
            invariant
                i <= self.entries@.len(),
                k@ == key@,
                forall|j: int| 0 <= j < i ==> self.entries@[j].0@ != key@,
            decreases self.entries@.len() - i,
        {
            if self.entries[i].0 == k {
                return Some(i);
            }
            i = i + 1;
        }
        None
    }

    /// The name for a language, if present.
    pub fn get(&self, key: &str) -> (r: Option<&String>)
        ensures
            r.is_some() == self@.contains_key(key@),
            r.is_some() ==> r.unwrap()@ == self@[key@],
    {
        proof {
            use_type_invariant(self);
        }
        match self.find(key) {
            Some(i) => {
                proof {
                    lemma_pairs_map_at(self.entries@, i as int);
                }
                Some(&self.entries[i].1)
            },
            None => None,
        }
    }

    pub fn contains_key(&self, key: &str) -> (r: bool)
        ensures
            r == self@.contains_key(key@),
    {
        self.get(key).is_some()
    }

    /// Set the name for a language, replacing an earlier one.
    pub fn insert(&mut self, key: String, value: String)
        ensures
            final(self)@ == old(self)@.insert(key@, value@),
    {
        proof {
            use_type_invariant(&*self);
        }
        let ghost old_entries = self.entries@;
        let found = self.find(key.as_str());
        let mut out: Vec<(String, String)> = Vec::new();
        let mut i: usize = 0;
        while i < self.entries.len()
            invariant
                i <= self.entries@.len(),
                self.entries@ == old_entries,
                out@.len() == i,
                forall|j: int|
                    0 <= j < i ==> #[trigger] out@[j] == (if found == Some(j as usize) {
                        (key, value)
                    } else {
                        old_entries[j]
                    }),
            decreases self.entries@.len() - i,
        {
            if found == Some(i) {
                out.push((key.clone(), value.clone()));
            } else {
                let (k, v) = &self.entries[i];
                out.push((k.clone(), v.clone()));
            }
            i = i + 1;
        }
        if found.is_none() {
            out.push((key, value));
        }
        proof {
            let s = out@;
            let n = old_entries.len() as int;
            assert forall|a: int, b: int|
                0 <= a < s.len() && 0 <= b < s.len() && a != b implies #[trigger] s[a].0@
                != #[trigger] s[b].0@ by {
                if a < n && b < n {
                    assert(old_entries[a].0@ != old_entries[b].0@);
                } else if a < n {
                    assert(old_entries[a].0@ == key@ ==> pairs_map(old_entries).contains_key(key@));
                } else if b < n {
                    assert(old_entries[b].0@ == key@ ==> pairs_map(old_entries).contains_key(key@));
                }
            }
            assert forall|k: Seq<char>|
                #![auto]
                pairs_map(s).contains_key(k) == old(self)@.insert(key@, value@).contains_key(k) by {
                if k != key@ && old(self)@.contains_key(k) {
                    let j = choose|j: int| 0 <= j < old_entries.len() && old_entries[j].0@ == k;
                    assert(s[j].0@ == k);
                }
                if k != key@ && pairs_map(s).contains_key(k) {
                    let j = choose|j: int| 0 <= j < s.len() && s[j].0@ == k;
                    assert(old_entries[j].0@ == k);
                }
                if k == key@ {
                    match found {
                        Some(f) => assert(s[f as int].0@ == k),
                        None => assert(s[n].0@ == k),
                    }
                }
            }
            assert forall|k: Seq<char>| #[trigger]
                pairs_map(s).contains_key(k) implies pairs_map(s)[k] == old(self)@.insert(
                key@,
                value@,
            )[k] by {
                let j = choose|j: int| 0 <= j < s.len() && s[j].0@ == k;
                lemma_pairs_map_at(s, j);
                if k != key@ {
                    lemma_pairs_map_at(old_entries, j);
                }
            }
            assert(pairs_map(s) =~= old(self)@.insert(key@, value@));
        }
        self.entries = out;
    }

    pub fn is_empty(&self) -> (r: bool)
        ensures
            r == (self@ == Map::<Seq<char>, Seq<char>>::empty()),
    {
        proof {
            use_type_invariant(self);
        }
        if self.entries.len() == 0 {
            assert(self@ =~= Map::<Seq<char>, Seq<char>>::empty());
            true
        } else {
            proof {
                lemma_pairs_map_at(self.entries@, 0);
                assert(!(self@ =~= Map::<Seq<char>, Seq<char>>::empty()));
            }
            false
        }
    }

    /// Some name of the map, if it holds any.
    pub fn any_value(&self) -> (r: Option<&String>)
        ensures
            r.is_none() == (self@ == Map::<Seq<char>, Seq<char>>::empty()),
            r.is_some() ==> exists|k: Seq<char>|
                #![auto]
                self@.contains_key(k) && self@[k] == r.unwrap()@,
    {
        proof {
            use_type_invariant(self);
        }
        if self.entries.len() == 0 {
            assert(self@ =~= Map::<Seq<char>, Seq<char>>::empty());
            None
        } else {
            proof {
                lemma_pairs_map_at(self.entries@, 0);
                assert(!(self@ =~= Map::<Seq<char>, Seq<char>>::empty()));
            }
            Some(&self.entries[0].1)
        }
    }

    /// A copy with the same names.
    pub fn copied(&self) -> (r: NameMap)
        ensures
            r@ == self@,
    {
        proof {
            use_type_invariant(self);
        }
        let mut out: Vec<(String, String)> = Vec::new();
        let mut i: usize = 0;
        while i < self.entries.len()
            invariant
                i <= self.entries@.len(),
                out@.len() == i,
                forall|j: int| 0 <= j < i ==> #[trigger] out@[j] == self.entries@[j],
            decreases self.entries@.len() - i,
        {
            let (k, v) = &self.entries[i];
            out.push((k.clone(), v.clone()));
            i = i + 1;
        }
        assert(out@ =~= self.entries@);
        NameMap { entries: out }
    }

    /// The (language, name) pairs, in insertion order.
    pub closed spec fn pairs_spec(&self) -> Seq<(String, String)> {
        self.entries@
    }

    /// The (language, name) pairs, in insertion order.
    pub fn pairs(&self) -> (r: &Vec<(String, String)>)
        ensures
            r@ == self.pairs_spec(),
            keys_distinct(r@),
            pairs_map(r@) == self@,
    {
        proof {
            use_type_invariant(self);
        }
        &self.entries
    }

    /// Add the entries of `other` whose language this map lacks; existing names stay.
    pub fn fill_missing(&mut self, other: &NameMap)
        ensures
            final(self)@ == other@.union_prefer_right(old(self)@),
    {
        proof {
            use_type_invariant(&*self);
            use_type_invariant(other);
        }
        let src = other.pairs();
        let mut i: usize = 0;
        while i < src.len()
            invariant
                i <= src@.len(),
                keys_distinct(src@),
                pairs_map(src@) == other@,
                self@ == pairs_map(src@.take(i as int)).union_prefer_right(old(self)@),
            decreases src@.len() - i,
        {
            let ghost before = self@;
            let (k, v) = &src[i];
            if !self.contains_key(k.as_str()) {
                self.insert(k.clone(), v.clone());
            }
            proof {
                let t0 = src@.take(i as int);
                let t1 = src@.take(i + 1);
                assert(t1 =~= t0.push(src@[i as int]));
                assert forall|x: Seq<char>| #![auto] pairs_map(t1).contains_key(x) <==> (
                pairs_map(t0).contains_key(x) || x == k@) by {
                    if x == k@ {
                        assert(t1[i as int].0@ == x);
                    }
                    if pairs_map(t0).contains_key(x) {
                        let j = choose|j: int| 0 <= j < t0.len() && t0[j].0@ == x;
                        assert(t1[j].0@ == x);
                    }
                    if pairs_map(t1).contains_key(x) && x != k@ {
                        let j = choose|j: int| 0 <= j < t1.len() && t1[j].0@ == x;
                        assert(t0[j].0@ == x);
                    }
                }
                assert(keys_distinct(t1));
                assert(keys_distinct(t0));
                assert forall|x: Seq<char>| #[trigger]
                    pairs_map(t1).contains_key(x) implies pairs_map(t1)[x] == (if x == k@ {
                    v@
                } else {
                    pairs_map(t0)[x]
                }) by {
                    let j = choose|j: int| 0 <= j < t1.len() && t1[j].0@ == x;
                    lemma_pairs_map_at(t1, j);
                    if x != k@ {
                        assert(j != i);
                        lemma_pairs_map_at(t0, j);
                    } else {
                        lemma_pairs_map_at(t1, i as int);
                    }
                }
                assert(!pairs_map(t0).contains_key(k@)) by {
                    if pairs_map(t0).contains_key(k@) {
                        let j = choose|j: int| 0 <= j < t0.len() && t0[j].0@ == k@;
                        assert(src@[j].0@ == src@[i as int].0@);
                    }
                }
                assert(self@ =~= pairs_map(t1).union_prefer_right(old(self)@));
            }
            i = i + 1;
        }
        assert(src@.take(src@.len() as int) =~= src@);
    }
}

} // verus!
