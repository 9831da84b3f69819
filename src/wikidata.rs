//! Wikidata label enrichment: the label cache, request chunking and merging
//! labels into name maps.
use vstd::prelude::*;
use crate::models::names::NameMap;

verus! {

/// Most Q-ids asked for in one request.
pub const CHUNK_SIZE: usize = 50;

/// Labels fetched so far, by Q-id.
pub struct WikidataCache {
    entries: Vec<(String, NameMap)>,
}

/// The views of a list of strings.
pub open spec fn views(v: Seq<String>) -> Seq<Seq<char>> {
    Seq::new(v.len(), |i: int| v[i]@)
}

/// The Q-ids of `qs` that are not cached, in order.
pub open spec fn uncached(qs: Seq<Seq<char>>, cached: Set<Seq<char>>) -> Seq<Seq<char>>
    decreases qs.len(),
{
    if qs.len() == 0 {
        Seq::empty()
    } else if cached.contains(qs.last()) {
        uncached(qs.drop_last(), cached)
    } else {
        uncached(qs.drop_last(), cached).push(qs.last())
    }
}

/// The chunks one after the other.
pub open spec fn flatten(cs: Seq<Seq<Seq<char>>>) -> Seq<Seq<char>>
    decreases cs.len(),
{
    if cs.len() == 0 {
        Seq::empty()
    } else {
        flatten(cs.drop_last()) + cs.last()
    }
}

/// The views of a list of chunks.
pub open spec fn chunk_views(v: Seq<Vec<String>>) -> Seq<Seq<Seq<char>>> {
    Seq::new(v.len(), |i: int| views(v[i]@))
}

impl WikidataCache {
    /// Each Q-id is held once.
    pub closed spec fn wf(&self) -> bool {
        forall|i: int, j: int|
            0 <= i < self.entries@.len() && 0 <= j < self.entries@.len() && i != j ==> #[trigger] self.entries@[i].0@
                != #[trigger] self.entries@[j].0@
    }

    /// Number of Q-ids held.
    pub closed spec fn size(&self) -> nat {
        self.entries@.len()
    }

    /// The Q-ids held.
    pub closed spec fn cached(&self) -> Set<Seq<char>> {
        Set::new(|q: Seq<char>| exists|i: int| 0 <= i < self.entries@.len() && #[trigger] self.entries@[i].0@ == q)
    }

    /// The labels held for a Q-id.
    pub closed spec fn labels(&self, q: Seq<char>) -> Map<Seq<char>, Seq<char>> {
        self.entries@[choose|i: int| 0 <= i < self.entries@.len() && self.entries@[i].0@ == q].1@
    }

    pub fn new() -> (r: WikidataCache)
        ensures
            r.wf(),
            r.cached() == Set::<Seq<char>>::empty(),
    {
        let r = WikidataCache { entries: Vec::new() };
        assert(r.cached() =~= Set::<Seq<char>>::empty());
        r
    }

    fn find(&self, qid: &str) -> (r: Option<usize>)
        ensures
            r.is_some() ==> r.unwrap() < self.entries@.len() && self.entries@[r.unwrap() as int].0@ == qid@,
            r.is_none() ==> !self.cached().contains(qid@),
    {
        let q = qid.to_owned();
        let mut i: usize = 0;
        while i < self.entries.len()
            invariant
                i <= self.entries@.len(),
                q@ == qid@,
                forall|j: int| 0 <= j < i ==> #[trigger] self.entries@[j].0@ != qid@,
            decreases self.entries@.len() - i,
        {
            if self.entries[i].0 == q {
                return Some(i);
            }
            i = i + 1;
        }
        None
    }

    /// Whether labels for a Q-id are cached.
    pub fn contains(&self, qid: &str) -> (r: bool)
        ensures
            r == self.cached().contains(qid@),
    {
        match self.find(qid) {
            Some(i) => {
                assert(self.entries@[i as int].0@ == qid@);
                true
            },
            None => false,
        }
    }

    /// Record the labels fetched for a Q-id that is not cached yet.
    pub fn insert(&mut self, qid: String, labels: NameMap)
        requires
            old(self).wf(),
        ensures
            final(self).wf(),
            final(self).cached().contains(qid@),
            !old(self).cached().contains(qid@) ==> final(self).labels(qid@) == labels@,
            forall|q: Seq<char>| q != qid@ && old(self).cached().contains(q) ==> #[trigger] final(self).labels(q) == old(self).labels(q),
            !old(self).cached().contains(qid@) ==> final(self).cached() == old(self).cached().insert(qid@),
            old(self).cached().contains(qid@) ==> final(self).cached() == old(self).cached(),
            old(self).cached().contains(qid@) ==> forall|q: Seq<char>|
                #[trigger] final(self).labels(q) == old(self).labels(q),
    {
        if self.contains(qid.as_str()) {
            return;
        }
        let ghost before = self.entries@;
        self.entries.push((qid, labels));
        proof {
            let e = self.entries@;
            assert forall|q: Seq<char>| #![auto] self.cached().contains(q) == old(self).cached().insert(qid@).contains(q) by {
                if old(self).cached().contains(q) {
                    let i = choose|i: int| 0 <= i < before.len() && #[trigger] before[i].0@ == q;
                    assert(e[i] == before[i]);
                }
                if q == qid@ {
                    assert(e[before.len() as int].0@ == q);
                }
                if self.cached().contains(q) && q != qid@ {
                    let i = choose|i: int| 0 <= i < e.len() && #[trigger] e[i].0@ == q;
                    assert(before[i] == e[i]);
                }
            }
            assert(self.cached() =~= old(self).cached().insert(qid@));
            assert forall|a: int, b: int|
                0 <= a < e.len() && 0 <= b < e.len() && a != b implies #[trigger] e[a].0@ != #[trigger] e[b].0@ by {
                if a < before.len() && b < before.len() {
                    assert(before[a].0@ != before[b].0@);
                } else if a < before.len() {
                    assert(!old(self).cached().contains(qid@));
                    assert(e[a].0@ != qid@);
                } else if b < before.len() {
                    assert(e[b].0@ != qid@);
                }
            }
            let n = before.len() as int;
            let c = choose|i: int| 0 <= i < e.len() && e[i].0@ == qid@;
            assert(e[n].0@ == qid@);
            assert(c == n);
            assert forall|q: Seq<char>| q != qid@ && old(self).cached().contains(q) implies #[trigger] self.labels(q) == old(self).labels(q) by {
                let c1 = choose|i: int| 0 <= i < e.len() && e[i].0@ == q;
                let c0 = choose|i: int| 0 <= i < before.len() && before[i].0@ == q;
                assert(e[c0] == before[c0]);
                if c1 != c0 {
                    assert(e[c1].0@ != e[c0].0@);
                }
            }
        }
    }

    /// The labels cached for a Q-id.
    pub fn get_labels(&self, qid: &str) -> (r: Option<&NameMap>)
        requires
            self.wf(),
        ensures
            r.is_some() == self.cached().contains(qid@),
            r.is_some() ==> r.unwrap()@ == self.labels(qid@),
    {
        match self.find(qid) {
            Some(i) => {
                proof {
                    assert(self.entries@[i as int].0@ == qid@);
                    let c = choose|j: int| 0 <= j < self.entries@.len() && self.entries@[j].0@ == qid@;
                    assert(c == i);
                }
                Some(&self.entries[i].1)
            },
            None => None,
        }
    }

    /// Number of cached Q-ids.
    pub fn cache_size(&self) -> (r: usize)
        ensures
            r == self.size(),
    {
        self.entries.len()
    }

    /// Fill the languages a name map lacks with the labels cached for a
    /// Q-id; names already present stay.
    pub fn merge_labels(&self, qid: &str, names: &mut NameMap)
        requires
            self.wf(),
        ensures
            !self.cached().contains(qid@) ==> final(names)@ == old(names)@,
            self.cached().contains(qid@) ==> final(names)@ == self.labels(qid@).union_prefer_right(old(names)@),
    {
        match self.get_labels(qid) {
            Some(labels) => {
                names.fill_missing(labels);
            },
            None => {},
        }
    }
}

/// The Q-ids not yet cached, in order.
pub fn filter_uncached(qids: &Vec<String>, cache: &WikidataCache) -> (r: Vec<String>)
    ensures
        views(r@) == uncached(views(qids@), cache.cached()),
{
    let mut out: Vec<String> = Vec::new();
    let mut i: usize = 0;
    while i < qids.len()
        invariant
            i <= qids@.len(),
            views(out@) == uncached(views(qids@).take(i as int), cache.cached()),
        decreases qids@.len() - i,
    {
        let ghost t1 = views(qids@).take(i + 1);
        assert(t1.drop_last() =~= views(qids@).take(i as int));
        assert(t1.last() == qids@[i as int]@);
        if !cache.contains(qids[i].as_str()) {
            let ghost before = out@;
            out.push(qids[i].clone());
            assert(views(out@) =~= views(before).push(qids@[i as int]@));
        }
        i = i + 1;
    }
    assert(views(qids@).take(qids@.len() as int) =~= views(qids@));
    out
}

/// Split a list into consecutive chunks of at most `CHUNK_SIZE`, none empty.
pub fn chunk_qids(qids: &Vec<String>) -> (r: Vec<Vec<String>>)
    ensures
        flatten(chunk_views(r@)) == views(qids@),
        forall|k: int| 0 <= k < r@.len() ==> 0 < (#[trigger] r@[k])@.len() <= CHUNK_SIZE,
{
    let mut out: Vec<Vec<String>> = Vec::new();
    let mut cur: Vec<String> = Vec::new();
    let mut i: usize = 0;
    while i < qids.len()
        invariant
            i <= qids@.len(),
            cur@.len() < CHUNK_SIZE,
            flatten(chunk_views(out@)) + views(cur@) == views(qids@).take(i as int),
            forall|k: int| 0 <= k < out@.len() ==> 0 < (#[trigger] out@[k])@.len() <= CHUNK_SIZE,
        decreases qids@.len() - i,
    {
        let ghost before_cur = cur@;
        cur.push(qids[i].clone());
        assert(views(cur@) =~= views(before_cur).push(qids@[i as int]@));
        assert(views(qids@).take(i + 1) =~= views(qids@).take(i as int).push(qids@[i as int]@));
        if cur.len() == CHUNK_SIZE {
            let ghost before_out = out@;
            let mut full: Vec<String> = Vec::new();
            std::mem::swap(&mut full, &mut cur);
            out.push(full);
            proof {
                let cv = chunk_views(out@);
                assert(cv.drop_last() =~= chunk_views(before_out));
                assert(cv.last() == views(full@));
                assert(views(cur@) =~= Seq::<Seq<char>>::empty());
                assert(flatten(cv) + views(cur@) =~= flatten(cv));
            }
        }
        i = i + 1;
    }
    if cur.len() > 0 {
        let ghost before_out = out@;
        out.push(cur);
        proof {
            let cv = chunk_views(out@);
            assert(cv.drop_last() =~= chunk_views(before_out));
        }
    } else {
        assert(views(cur@) =~= Seq::<Seq<char>>::empty());
        assert(flatten(chunk_views(out@)) + views(cur@) =~= flatten(chunk_views(out@)));
    }
    assert(views(qids@).take(qids@.len() as int) =~= views(qids@));
    out
}

/// Most attempts made for one chunk.
pub const MAX_ATTEMPTS: u32 = 2;

/// After a failed attempt (numbered from 1), whether to try the chunk again;
/// a chunk that still fails is given up and its labels stay unknown.
pub fn should_retry(attempt: u32) -> (r: bool)
    ensures
        r == (attempt < MAX_ATTEMPTS),
{
    attempt < MAX_ATTEMPTS
}

} // verus!
