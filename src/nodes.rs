//! The node table of the geometry resolver: node records sorted by id,
//! looked up by binary search, and the way and relation geometry built on it.
use vstd::prelude::*;
use vstd::multiset::Multiset;
use crate::models::geo::Coord;
use crate::rings::{closed_ring, is_closed_ring, merge_rings_to_polygons, orient, ring_chain, stitch, two_pieces, views};

verus! {

/// One node: its id and position.
#[derive(Debug, Clone, Copy, PartialEq, Eq, Structural)]
pub struct NodeRecord {
    pub id: i64,
    pub coord: Coord,
}

/// Records in non-decreasing id order.
pub open spec fn sorted_by_id(s: Seq<NodeRecord>) -> bool {
    forall|i: int, j: int| 0 <= i <= j < s.len() ==> #[trigger] s[i].id <= #[trigger] s[j].id
}

/// Relies on `slice::sort_by_key`: the same records, ordered by id.
#[verifier::external_body]
fn sort_records(v: &mut Vec<NodeRecord>)
    ensures
        final(v)@.to_multiset() == old(v)@.to_multiset(),
        sorted_by_id(final(v)@),
{
    v.sort_by_key(|r| r.id)
}

/// Node positions for lookup by id.
pub struct NodeTable {
    records: Vec<NodeRecord>,
}

/// `c` is the position of some record with id `id`.
pub open spec fn has_node(s: Seq<NodeRecord>, id: i64, c: Coord) -> bool {
    exists|i: int| 0 <= i < s.len() && s[i] == (NodeRecord { id, coord: c })
}

/// `c` gives, position by position, a position of each node of the list.
pub open spec fn positions_of(s: Seq<NodeRecord>, nodes: Seq<i64>, c: Seq<Coord>) -> bool {
    c.len() == nodes.len() && forall|k: int| 0 <= k < nodes.len() ==> has_node(s, nodes[k], #[trigger] c[k])
}

/// A way gives a fragment: at least two nodes, every one known.
pub open spec fn resolvable(s: Seq<NodeRecord>, nodes: Seq<i64>) -> bool {
    nodes.len() >= 2 && forall|k: int| 0 <= k < nodes.len() ==> knows_node(s, #[trigger] nodes[k])
}

/// The node lists of the members.
pub open spec fn node_lists(members: Seq<Vec<i64>>) -> Seq<Seq<i64>> {
    Seq::new(members.len(), |i: int| members[i]@)
}

/// `fs` holds, in member order, the positions of each member that gives a
/// fragment, and nothing for the others.
pub open spec fn member_fragments(s: Seq<NodeRecord>, members: Seq<Seq<i64>>, fs: Seq<Seq<Coord>>) -> bool
    decreases members.len(),
{
    if members.len() == 0 {
        fs.len() == 0
    } else if resolvable(s, members.last()) {
        fs.len() > 0 && positions_of(s, members.last(), fs.last()) && member_fragments(
            s,
            members.drop_last(),
            fs.drop_last(),
        )
    } else {
        member_fragments(s, members.drop_last(), fs)
    }
}

/// Some record has id `id`.
pub open spec fn knows_node(s: Seq<NodeRecord>, id: i64) -> bool {
    exists|i: int| 0 <= i < s.len() && #[trigger] s[i].id == id
}

impl NodeTable {
    /// Records are sorted by id.
    pub closed spec fn wf(&self) -> bool {
        sorted_by_id(self.records@)
    }

    /// The records held, as a multiset.
    pub closed spec fn contents(&self) -> Multiset<NodeRecord> {
        self.records@.to_multiset()
    }

    /// Build the table from records in any order; records already in id
    /// order are kept as they are, others are sorted.
    pub fn build(records: Vec<NodeRecord>) -> (r: NodeTable)
        ensures
            r.wf(),
            r.contents() == records@.to_multiset(),
    {
        let mut v = records;
        let mut sorted = true;
        let mut i: usize = 1;
        while i < v.len()
            invariant
                1 <= i,
                v@ == records@,
                sorted ==> forall|a: int, b: int| 0 <= a <= b < i && b < v@.len() ==> #[trigger] v@[a].id <= #[trigger] v@[b].id,
            decreases v@.len() - i,
        {
            if v[i - 1].id > v[i].id {
                sorted = false;
            }
            proof {
                if sorted {
                    assert forall|a: int, b: int| 0 <= a <= b < i + 1 && b < v@.len() implies #[trigger] v@[a].id
                        <= #[trigger] v@[b].id by {
                        if b == i && a < b {
                            assert(v@[a].id <= v@[i - 1].id);
                        }
                    }
                }
            }
            i = i + 1;
        }
        if !sorted {
            sort_records(&mut v);
        }
        NodeTable { records: v }
    }

    /// Position of a node, by binary search.
    pub fn node_coords(&self, id: i64) -> (r: Option<Coord>)
        requires
            self.wf(),
        ensures
            r.is_some() ==> has_node(self.records_spec(), id, r.unwrap()),
            r.is_none() ==> !knows_node(self.records_spec(), id),
    {
        let v = &self.records;
        let mut lo: usize = 0;
        let mut hi: usize = v.len();
        while lo < hi
            invariant
                v@ == self.records@,
                lo <= hi <= v@.len(),
                sorted_by_id(v@),
                forall|j: int| 0 <= j < lo ==> #[trigger] v@[j].id < id,
                forall|j: int| hi <= j < v@.len() ==> #[trigger] v@[j].id > id,
            decreases hi - lo,
        {
            let mid = lo + (hi - lo) / 2;
            let m = v[mid];
            if m.id == id {
                assert(v@[mid as int] == (NodeRecord { id, coord: m.coord }));
                assert(has_node(self.records_spec(), id, m.coord));
                return Some(m.coord);
            } else if m.id < id {
                assert forall|j: int| 0 <= j < mid + 1 implies #[trigger] v@[j].id < id by {
                    assert(v@[j].id <= v@[mid as int].id);
                }
                lo = mid + 1;
            } else {
                assert forall|j: int| mid <= j < v@.len() implies #[trigger] v@[j].id > id by {
                    assert(v@[mid as int].id <= v@[j].id);
                }
                hi = mid;
            }
        }
        None
    }

    /// The records, in id order.
    pub closed spec fn records_spec(&self) -> Seq<NodeRecord> {
        self.records@
    }

    /// Number of nodes held.
    pub fn len(&self) -> (r: usize)
        ensures
            r == self.records_spec().len(),
    {
        self.records.len()
    }

    /// Positions of a way's nodes, in order, skipping nodes the table lacks.
    pub fn way_coords(&self, nodes: &Vec<i64>) -> (r: Vec<Coord>)
        requires
            self.wf(),
        ensures
            r@.len() <= nodes@.len(),
            (forall|k: int| 0 <= k < nodes@.len() ==> knows_node(self.records_spec(), #[trigger] nodes@[k])) ==> r@.len()
                == nodes@.len() && forall|k: int| 0 <= k < nodes@.len() ==> has_node(self.records_spec(), nodes@[k], #[trigger] r@[k]),
    {
        let mut out: Vec<Coord> = Vec::new();
        let mut i: usize = 0;
        while i < nodes.len()
            invariant
                self.wf(),
                i <= nodes@.len(),
                out@.len() <= i,
                out@.len() == i ==> forall|k: int| 0 <= k < i ==> has_node(self.records_spec(), nodes@[k], #[trigger] out@[k]),
                (forall|k: int| 0 <= k < nodes@.len() ==> knows_node(self.records_spec(), #[trigger] nodes@[k])) ==> out@.len() == i,
            decreases nodes@.len() - i,
        {
            match self.node_coords(nodes[i]) {
                Some(c) => {
                    out.push(c);
                },
                None => {},
            }
            i = i + 1;
        }
        out
    }

    /// A way's closed polygon ring: its node positions when every node is
    /// known and they close (at least four, last equal to first).
    pub fn way_polygon(&self, nodes: &Vec<i64>) -> (r: Option<Vec<Coord>>)
        requires
            self.wf(),
        ensures
            r.is_some() ==> is_closed_ring(r.unwrap()@),
            r.is_some() ==> forall|k: int| 0 <= k < nodes@.len() ==> knows_node(self.records_spec(), #[trigger] nodes@[k]),
            r.is_some() ==> r.unwrap()@.len() == nodes@.len() && forall|k: int|
                0 <= k < nodes@.len() ==> has_node(self.records_spec(), nodes@[k], #[trigger] r.unwrap()@[k]),
            (forall|k: int| 0 <= k < nodes@.len() ==> knows_node(self.records_spec(), #[trigger] nodes@[k]))
                ==> exists|c: Seq<Coord>| #[trigger] positions_of(self.records_spec(), nodes@, c) && (r.is_some()
                == is_closed_ring(c)),
    {
        let mut i: usize = 0;
        while i < nodes.len()
            invariant
                self.wf(),
                i <= nodes@.len(),
                forall|k: int| 0 <= k < i ==> knows_node(self.records_spec(), #[trigger] nodes@[k]),
            decreases nodes@.len() - i,
        {
            let found = self.node_coords(nodes[i]);
            if found.is_none() {
                return None;
            }
            proof {
                let c = found.unwrap();
                let s = self.records_spec();
                let j = choose|j: int| 0 <= j < s.len() && s[j] == (NodeRecord { id: nodes@[i as int], coord: c });
                assert(s[j].id == nodes@[i as int]);
            }
            i = i + 1;
        }
        let coords = self.way_coords(nodes);
        let ghost c = coords@;
        let r = closed_ring(coords);
        assert(positions_of(self.records_spec(), nodes@, c));
        r
    }

    /// The fragment of a member way: the positions of its nodes, when it has
    /// at least two and every one is known; a way with a missing node gives none.
    pub fn way_fragment(&self, nodes: &Vec<i64>) -> (r: Option<Vec<Coord>>)
        requires
            self.wf(),
        ensures
            r.is_some() == resolvable(self.records_spec(), nodes@),
            r.is_some() ==> positions_of(self.records_spec(), nodes@, r.unwrap()@),
    {
        if nodes.len() < 2 {
            return None;
        }
        let mut out: Vec<Coord> = Vec::new();
        let mut i: usize = 0;
        while i < nodes.len()
            invariant
                self.wf(),
                i <= nodes@.len(),
                out@.len() == i,
                forall|k: int| 0 <= k < i ==> knows_node(self.records_spec(), #[trigger] nodes@[k]),
                forall|k: int| 0 <= k < i ==> has_node(self.records_spec(), nodes@[k], #[trigger] out@[k]),
            decreases nodes@.len() - i,
        {
            match self.node_coords(nodes[i]) {
                Some(c) => {
                    proof {
                        let s = self.records_spec();
                        let j = choose|j: int| 0 <= j < s.len() && s[j] == (NodeRecord { id: nodes@[i as int], coord: c });
                        assert(s[j].id == nodes@[i as int]);
                    }
                    out.push(c);
                },
                None => {
                    return None;
                },
            }
            i = i + 1;
        }
        Some(out)
    }

    /// The outer rings of a relation from its member ways' node lists: each
    /// member whose nodes are all known gives one fragment, and the fragments
    /// are stitched greedily into closed rings.
    pub fn relation_polygons(&self, members: &Vec<Vec<i64>>) -> (r: Vec<Vec<Coord>>)
        requires
            self.wf(),
        ensures
            exists|fs: Seq<Seq<Coord>>|
                #[trigger] member_fragments(self.records_spec(), node_lists(members@), fs) && {
                    &&& views(r@) == stitch(fs)
                    &&& forall|k: int| 0 <= k < r@.len() ==> is_closed_ring(#[trigger] r@[k]@)
                    &&& fs.len() == 2 && two_pieces(fs[0], fs[1]) ==> r@.len() == 1
                    &&& (exists|flips: Seq<bool>| #[trigger] ring_chain(orient(fs, flips))) ==> r@.len() == 1
                },
    {
        let ghost s = self.records_spec();
        let ghost ms = node_lists(members@);
        let mut frags: Vec<Vec<Coord>> = Vec::new();
        let mut i: usize = 0;
        assert(ms.take(0) =~= Seq::<Seq<i64>>::empty());
        while i < members.len()
            invariant
                self.wf(),
                s == self.records_spec(),
                ms == node_lists(members@),
                i <= members@.len(),
                member_fragments(s, ms.take(i as int), views(frags@)),
            decreases members@.len() - i,
        {
            let ghost before = views(frags@);
            proof {
                let t1 = ms.take(i + 1);
                assert(t1.drop_last() =~= ms.take(i as int));
                assert(t1.last() == members@[i as int]@);
            }
            match self.way_fragment(&members[i]) {
                Some(f) => {
                    frags.push(f);
                    assert(views(frags@).drop_last() =~= before);
                },
                None => {},
            }
            i = i + 1;
        }
        assert(ms.take(members@.len() as int) =~= ms);
        let ghost fv = views(frags@);
        let r = merge_rings_to_polygons(frags);
        assert(member_fragments(s, ms, fv));
        r
    }
}

} // verus!
