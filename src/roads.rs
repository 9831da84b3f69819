//! Grouping of adjacent road ways that share a name and highway type.
use vstd::prelude::*;
use crate::extract::{extract_tags, Tags};
use crate::models::geo::{Coord, GeoBbox};
use crate::models::level::{Layer, OsmType};
use crate::models::names::str_eq;
use crate::models::place::{place_consistent, Place};
use crate::text::{push_str, string_of};

verus! {


/// Highway values never merged: motorways and link roads.
pub open spec fn excluded_highway(h: Seq<char>) -> bool {
    h == "motorway"@ || h == "motorway_link"@ || h == "trunk_link"@ || h == "primary_link"@ || h
        == "secondary_link"@ || h == "tertiary_link"@
}

/// Group key of a road: `"<name>|<highway>"`, when both tags are present and
/// the highway type is not excluded.
pub open spec fn merge_key_of(t: Map<Seq<char>, Seq<char>>) -> Option<Seq<char>> {
    if t.contains_key("name"@) && t.contains_key("highway"@) && !excluded_highway(t["highway"@]) {
        Some(t["name"@] + "|"@ + t["highway"@])
    } else {
        None
    }
}

fn is_excluded_highway(h: &str) -> (r: bool)
    ensures
        r == excluded_highway(h@),
{
    str_eq(h, "motorway") || str_eq(h, "motorway_link") || str_eq(h, "trunk_link") || str_eq(
        h,
        "primary_link",
    ) || str_eq(h, "secondary_link") || str_eq(h, "tertiary_link")
}

/// A road way waiting to be merged.
#[derive(Debug, Clone)]
pub struct RoadWay {
    pub way_id: i64,
    pub tags: Tags,
    pub nodes: Vec<i64>,
}

/// Two node lists share an end point (first or last node).
pub open spec fn ends_touch(a: Seq<i64>, b: Seq<i64>) -> bool {
    &&& a.len() > 0
    &&& b.len() > 0
    &&& (a[0] == b[0] || a[0] == b.last() || a.last() == b[0] || a.last() == b.last())
}

/// Way `w` shares an end point with some way of the group.
pub open spec fn touches_any(group: Seq<RoadWay>, w: RoadWay) -> bool {
    exists|k: int| 0 <= k < group.len() && ends_touch(#[trigger] group[k].nodes@, w.nodes@)
}

fn touch(a: &Vec<i64>, b: &Vec<i64>) -> (r: bool)
    ensures
        r == ends_touch(a@, b@),
{
    if a.len() == 0 || b.len() == 0 {
        return false;
    }
    let a0 = a[0];
    let a1 = a[a.len() - 1];
    let b0 = b[0];
    let b1 = b[b.len() - 1];
    a0 == b0 || a0 == b1 || a1 == b0 || a1 == b1
}

/// Ways `i` and `j` of the list share an end point.
pub open spec fn linked(ways: Seq<RoadWay>, i: int, j: int) -> bool {
    ends_touch(ways[i].nodes@, ways[j].nodes@)
}

/// `groups` splits the indices of `n` ways into connected components: each
/// index lies in exactly one group, each group is non-empty and starts from
/// its least index, each later member shares an end point with an earlier
/// member, and no way outside a group shares an end point with one inside.
pub open spec fn is_component_split(ways: Seq<RoadWay>, groups: Seq<Seq<usize>>) -> bool {
    &&& forall|g: int| 0 <= g < groups.len() ==> (#[trigger] groups[g]).len() > 0
    &&& forall|g: int, p: int|
        0 <= g < groups.len() && 0 <= p < groups[g].len() ==> #[trigger] groups[g][p] < ways.len()
    &&& forall|i: int| 0 <= i < ways.len() ==> #[trigger] listed_in(groups, i)
    &&& forall|g1: int, pa: int, g2: int, pb: int|
        0 <= g1 < groups.len() && 0 <= pa < groups[g1].len() && 0 <= g2 < groups.len() && 0 <= pb
            < groups[g2].len() && #[trigger] groups[g1][pa] == #[trigger] groups[g2][pb] ==> g1 == g2
            && pa == pb
    &&& forall|g: int| 0 <= g < groups.len() ==> chained(ways, #[trigger] groups[g])
    &&& forall|g: int, p: int, j: int|
        0 <= g < groups.len() && 0 <= p < groups[g].len() && 0 <= j < ways.len() && #[trigger] linked(
            ways,
            groups[g][p] as int,
            j,
        ) ==> exists|q: int| 0 <= q < groups[g].len() && #[trigger] groups[g][q] == j
}

/// Index `i` appears in some group.
pub open spec fn listed_in(groups: Seq<Seq<usize>>, i: int) -> bool {
    exists|g: int, p: int| 0 <= g < groups.len() && 0 <= p < groups[g].len() && #[trigger] groups[g][p] == i
}

/// The index lists of the groups.
pub open spec fn group_views(groups: Seq<Vec<usize>>) -> Seq<Seq<usize>> {
    Seq::new(groups.len(), |g: int| groups[g]@)
}

/// Each listed way after the first shares an end point with an earlier one.
pub open spec fn chained(ways: Seq<RoadWay>, m: Seq<usize>) -> bool {
    forall|p: int|
        0 < p < m.len() ==> exists|q: int|
            0 <= q < p && linked(ways, #[trigger] m[p] as int, #[trigger] m[q] as int)
}

/// Member `i` of `ways` shares an end point with a way listed in `members`.
pub open spec fn touches_members(ways: Seq<RoadWay>, members: Seq<usize>, i: int) -> bool {
    exists|q: int| 0 <= q < members.len() && #[trigger] linked(ways, members[q] as int, i)
}

fn touches_listed(ways: &Vec<RoadWay>, members: &Vec<usize>, i: usize) -> (r: bool)
    requires
        i < ways@.len(),
        forall|q: int| 0 <= q < members@.len() ==> #[trigger] members@[q] < ways@.len(),
    ensures
        r == touches_members(ways@, members@, i as int),
{
    let mut k: usize = 0;
    while k < members.len()
        invariant
            k <= members@.len(),
            i < ways@.len(),
            forall|q: int| 0 <= q < members@.len() ==> #[trigger] members@[q] < ways@.len(),
            forall|q: int| 0 <= q < k ==> !#[trigger] linked(ways@, members@[q] as int, i as int),
        decreases members@.len() - k,
    {
        if touch(&ways[members[k]].nodes, &ways[i].nodes) {
            assert(linked(ways@, members@[k as int] as int, i as int));
            return true;
        }
        k = k + 1;
    }
    false
}

/// Split the ways into groups of physically connected ways (shared end nodes).
pub fn group_connected_ways(ways: &Vec<RoadWay>) -> (groups: Vec<Vec<usize>>)
    ensures
        is_component_split(ways@, group_views(groups@)),
{
    let n = ways.len();
    let mut label: Vec<Option<usize>> = Vec::new();
    let mut z: usize = 0;
    while z < n
        invariant
            z <= n,
            n == ways@.len(),
            label@.len() == z,
            forall|i: int| 0 <= i < z ==> (#[trigger] label@[i]).is_none(),
        decreases n - z,
    {
        label.push(None);
        z = z + 1;
    }
    let mut groups: Vec<Vec<usize>> = Vec::new();
    let mut s: usize = 0;
    while s < n
        invariant
            s <= n,
            n == ways@.len(),
            label@.len() == n,
            forall|g: int| 0 <= g < groups@.len() ==> (#[trigger] groups@[g])@.len() > 0,
            forall|g: int, p: int|
                0 <= g < groups@.len() && 0 <= p < groups@[g]@.len() ==> #[trigger] groups@[g]@[p] < n
                    && label@[groups@[g]@[p] as int] == Some(g as usize),
            forall|i: int|
                0 <= i < n && (#[trigger] label@[i]).is_some() ==> label@[i].unwrap() < groups@.len()
                    && exists|p: int| 0 <= p < groups@[label@[i].unwrap() as int]@.len()
                    && groups@[label@[i].unwrap() as int]@[p] == i,
            forall|g: int, pa: int, pb: int|
                0 <= g < groups@.len() && 0 <= pa < groups@[g]@.len() && 0 <= pb < groups@[g]@.len()
                    && pa != pb ==> #[trigger] groups@[g]@[pa] != #[trigger] groups@[g]@[pb],
            forall|i: int| 0 <= i < s ==> (#[trigger] label@[i]).is_some(),
            forall|g: int| 0 <= g < groups@.len() ==> chained(ways@, #[trigger] groups@[g]@),
            forall|i: int, j: int|
                0 <= i < n && 0 <= j < n && (#[trigger] label@[i]).is_some() && #[trigger] linked(ways@, i, j)
                    ==> label@[j] == label@[i],
        decreases n - s,
    {
        if label[s].is_none() {
            let g = groups.len();
            let mut members: Vec<usize> = Vec::new();
            members.push(s);
            let ghost label0 = label@;
            label.set(s, Some(g));
            proof {
                assert forall|i: int| 0 <= i < n && label@[i] == Some(g) implies exists|p: int|
                    0 <= p < members@.len() && #[trigger] members@[p] == i by {
                    if i != s {
                        assert(label0[i] == label@[i]);
                    } else {
                        assert(members@[0] == i);
                    }
                }
                assert(chained(ways@, members@));
            }
            let mut changed = true;
            while changed
                invariant
                    n == ways@.len(),
                    label@.len() == n,
                    g == groups@.len(),
                    members@.len() > 0,
                    forall|p: int| 0 <= p < members@.len() ==> #[trigger] members@[p] < n
                        && label@[members@[p] as int] == Some(g),
                    forall|g2: int, p: int|
                        0 <= g2 < groups@.len() && 0 <= p < groups@[g2]@.len() ==> #[trigger] groups@[g2]@[p]
                            < n && label@[groups@[g2]@[p] as int] == Some(g2 as usize),
                    forall|i: int|
                        0 <= i < n && (#[trigger] label@[i]).is_some() && label@[i].unwrap() < g
                            ==> exists|p: int| 0 <= p < groups@[label@[i].unwrap() as int]@.len()
                            && groups@[label@[i].unwrap() as int]@[p] == i,
                    forall|i: int|
                        0 <= i < n && (#[trigger] label@[i]).is_some() ==> label@[i].unwrap() <= g,
                    forall|i: int|
                        0 <= i < n && label@[i] == Some(g) ==> exists|p: int|
                            0 <= p < members@.len() && #[trigger] members@[p] == i,
                    forall|pa: int, pb: int|
                        0 <= pa < members@.len() && 0 <= pb < members@.len() && pa != pb
                            ==> #[trigger] members@[pa] != #[trigger] members@[pb],
                    forall|i: int| 0 <= i < s ==> (#[trigger] label@[i]).is_some(),
                    chained(ways@, members@),
                    members@[0] == s,
                    s < n,
                    members@.len() <= n,
                    forall|i: int, j: int|
                        0 <= i < n && 0 <= j < n && (#[trigger] label@[i]).is_some() && label@[i].unwrap() < g
                            && #[trigger] linked(ways@, i, j) ==> label@[j] == label@[i],
                    !changed ==> forall|j: int|
                        0 <= j < n && (#[trigger] label@[j]).is_none() ==> !touches_members(ways@, members@, j),
                decreases n - members@.len() + if changed { 1int } else { 0int },
            {
                changed = false;
                let mut i: usize = 0;
                let ghost pass_len = members@.len();
                while i < n
                    invariant
                        members@.len() >= pass_len,
                        changed ==> members@.len() > pass_len,
                        i <= n,
                        n == ways@.len(),
                        label@.len() == n,
                        g == groups@.len(),
                        members@.len() > 0,
                        forall|p: int| 0 <= p < members@.len() ==> #[trigger] members@[p] < n
                            && label@[members@[p] as int] == Some(g),
                        forall|g2: int, p: int|
                            0 <= g2 < groups@.len() && 0 <= p < groups@[g2]@.len() ==> #[trigger] groups@[g2]@[p]
                                < n && label@[groups@[g2]@[p] as int] == Some(g2 as usize),
                        forall|i2: int|
                            0 <= i2 < n && (#[trigger] label@[i2]).is_some() && label@[i2].unwrap() < g
                                ==> exists|p: int| 0 <= p < groups@[label@[i2].unwrap() as int]@.len()
                                && groups@[label@[i2].unwrap() as int]@[p] == i2,
                        forall|i2: int|
                            0 <= i2 < n && (#[trigger] label@[i2]).is_some() ==> label@[i2].unwrap() <= g,
                        forall|i2: int|
                            0 <= i2 < n && label@[i2] == Some(g) ==> exists|p: int|
                                0 <= p < members@.len() && #[trigger] members@[p] == i2,
                        forall|pa: int, pb: int|
                            0 <= pa < members@.len() && 0 <= pb < members@.len() && pa != pb
                                ==> #[trigger] members@[pa] != #[trigger] members@[pb],
                        forall|i2: int| 0 <= i2 < s ==> (#[trigger] label@[i2]).is_some(),
                        chained(ways@, members@),
                        members@[0] == s,
                        s < n,
                        forall|i2: int, j: int|
                            0 <= i2 < n && 0 <= j < n && (#[trigger] label@[i2]).is_some() && label@[i2].unwrap() < g
                                && #[trigger] linked(ways@, i2, j) ==> label@[j] == label@[i2],
                        !changed ==> forall|j: int|
                            0 <= j < i && (#[trigger] label@[j]).is_none() ==> !touches_members(ways@, members@, j),
                        members@.len() <= n,
                    decreases n - i,
                {
                    if label[i].is_none() && touches_listed(ways, &members, i) {
                        let ghost old_members = members@;
                        let ghost old_label = label@;
                        proof {
                            let q = choose|q: int| 0 <= q < old_members.len() && #[trigger] linked(ways@, old_members[q] as int, i as int);
                            assert(ends_touch(ways@[i as int].nodes@, ways@[old_members[q] as int].nodes@));
                            assert(linked(ways@, i as int, old_members[q] as int));
                        }
                        label.set(i, Some(g));
                        members.push(i);
                        changed = true;
                        proof {
                            let m = members@;
                            let np = old_members.len() as int;
                            assert(m[np] == i);
                            assert forall|p: int| 0 <= p < m.len() implies #[trigger] m[p] < n && label@[m[p] as int] == Some(g) by {
                                if p < np {
                                    assert(m[p] == old_members[p]);
                                }
                            }
                            assert forall|i2: int| 0 <= i2 < n && label@[i2] == Some(g) implies exists|p: int|
                                0 <= p < m.len() && #[trigger] m[p] == i2 by {
                                if i2 != i {
                                    assert(old_label[i2] == Some(g));
                                    let p = choose|p: int| 0 <= p < old_members.len() && #[trigger] old_members[p] == i2;
                                    assert(m[p] == i2);
                                } else {
                                    assert(m[np] == i2);
                                }
                            }
                            assert forall|pa: int, pb: int| 0 <= pa < m.len() && 0 <= pb < m.len() && pa != pb
                                implies #[trigger] m[pa] != #[trigger] m[pb] by {
                                if pa < np && pb < np {
                                    assert(old_members[pa] != old_members[pb]);
                                } else if pa < np {
                                    assert(old_label[old_members[pa] as int] == Some(g));
                                } else if pb < np {
                                    assert(old_label[old_members[pb] as int] == Some(g));
                                }
                            }
                            assert(m[0] == s);
                            assert forall|p: int| 0 < p < m.len() implies exists|q: int|
                                0 <= q < p && linked(ways@, #[trigger] m[p] as int, #[trigger] m[q] as int) by {
                                if p < np {
                                    let q = choose|q: int| 0 <= q < p && linked(ways@, #[trigger] old_members[p] as int, #[trigger] old_members[q] as int);
                                    assert(m[q] == old_members[q]);
                                    assert(m[p] == old_members[p]);
                                } else {
                                    let q = choose|q: int| 0 <= q < old_members.len() && #[trigger] linked(ways@, old_members[q] as int, i as int);
                                    assert(m[q] == old_members[q]);
                                    assert(ends_touch(ways@[i as int].nodes@, ways@[old_members[q] as int].nodes@));
                                }
                            }
                            assert forall|i2: int, j: int|
                                0 <= i2 < n && 0 <= j < n && (#[trigger] label@[i2]).is_some() && label@[i2].unwrap() < g
                                    && #[trigger] linked(ways@, i2, j) implies label@[j] == label@[i2] by {
                                assert(old_label[i2] == label@[i2]);
                                if j == i {
                                    assert(old_label[j] == old_label[i2]);
                                }
                            }
                            assert forall|i2: int|
                                0 <= i2 < n && (#[trigger] label@[i2]).is_some() && label@[i2].unwrap() < g
                                    implies exists|p: int| 0 <= p < groups@[label@[i2].unwrap() as int]@.len()
                                    && groups@[label@[i2].unwrap() as int]@[p] == i2 by {
                                assert(old_label[i2] == label@[i2]);
                            }
                            assert(members@.len() <= n) by {
                                assert(forall|p: int| 0 <= p < m.len() ==> #[trigger] m[p] < n);
                                lemma_distinct_below_bound(m, n as int);
                            }
                        }
                    }
                    i = i + 1;
                }
            }
            groups.push(members);
            proof {
                let gs = groups@;
                assert(chained(ways@, gs[g as int]@));
                assert(gs[g as int]@ == members@);
                assert forall|g2: int, p: int| 0 <= g2 < gs.len() && 0 <= p < gs[g2]@.len()
                    implies #[trigger] gs[g2]@[p] < n && label@[gs[g2]@[p] as int] == Some(g2 as usize) by {}
                assert forall|i2: int| 0 <= i2 < n && (#[trigger] label@[i2]).is_some() implies label@[i2].unwrap()
                    < gs.len() && exists|p: int| 0 <= p < gs[label@[i2].unwrap() as int]@.len()
                    && gs[label@[i2].unwrap() as int]@[p] == i2 by {
                    if label@[i2].unwrap() < g {
                        let p = choose|p: int| 0 <= p < groups@[label@[i2].unwrap() as int]@.len()
                            && groups@[label@[i2].unwrap() as int]@[p] == i2;
                    } else {
                        let p = choose|p: int| 0 <= p < members@.len() && #[trigger] members@[p] == i2;
                        assert(gs[g as int]@[p] == i2);
                    }
                }
                assert forall|i2: int, j: int|
                    0 <= i2 < n && 0 <= j < n && (#[trigger] label@[i2]).is_some() && #[trigger] linked(ways@, i2, j)
                        implies label@[j] == label@[i2] by {
                    if label@[i2].unwrap() == g {
                        let p = choose|p: int| 0 <= p < members@.len() && #[trigger] members@[p] == i2;
                        if label@[j].is_none() {
                            assert(linked(ways@, members@[p] as int, j));
                            assert(touches_members(ways@, members@, j));
                        } else if label@[j].unwrap() < g {
                            assert(ends_touch(ways@[j].nodes@, ways@[i2].nodes@));
                            assert(linked(ways@, j, i2));
                        }
                    }
                }
            }
        }
        s = s + 1;
    }
    let glen = groups.len();
    proof {
        let gv = group_views(groups@);
        assert(gv.len() == glen);
        assert forall|g: int| 0 <= g < gv.len() implies (#[trigger] gv[g]).len() > 0 by {
            assert(gv[g] == groups@[g]@);
        }
        assert forall|g: int, p: int| 0 <= g < gv.len() && 0 <= p < gv[g].len() implies #[trigger] gv[g][p]
            < ways@.len() by {
            assert(gv[g] == groups@[g]@);
        }
        assert forall|i: int| 0 <= i < ways@.len() implies #[trigger] listed_in(gv, i) by {
            assert(label@[i].is_some());
            let g = label@[i].unwrap() as int;
            let p = choose|p: int| 0 <= p < groups@[g]@.len() && groups@[g]@[p] == i;
            assert(gv[g][p] == i);
        }
        assert forall|g1: int, pa: int, g2: int, pb: int|
            0 <= g1 < gv.len() && 0 <= pa < gv[g1].len() && 0 <= g2 < gv.len() && 0 <= pb
                < gv[g2].len() && #[trigger] gv[g1][pa] == #[trigger] gv[g2][pb] implies g1 == g2
                && pa == pb by {
            assert(gv[g1] == groups@[g1]@);
            assert(gv[g2] == groups@[g2]@);
            let a = groups@[g1]@[pa];
            let b = groups@[g2]@[pb];
            assert(gv[g1][pa] == a);
            assert(gv[g2][pb] == b);
            assert(label@[a as int] == Some(g1 as usize));
            assert(label@[b as int] == Some(g2 as usize));
            assert(g1 == g2);
            if pa != pb {
                assert(groups@[g1]@[pa] != groups@[g1]@[pb]);
            }
        }
        assert forall|g: int, p: int, j: int|
            0 <= g < gv.len() && 0 <= p < gv[g].len() && 0 <= j < ways@.len() && #[trigger] linked(
                ways@,
                gv[g][p] as int,
                j,
            ) implies exists|q: int| 0 <= q < gv[g].len() && #[trigger] gv[g][q] == j by {
            let i = gv[g][p] as int;
            assert(gv[g] == groups@[g]@);
            assert(label@[i] == Some(g as usize));
            assert(label@[i].is_some());
            assert(label@[j] == label@[i]);
            assert(label@[j].is_some());
            assert(gv[g] == groups@[g]@);
            let q = choose|q: int| 0 <= q < groups@[g]@.len() && groups@[g]@[q] == j;
            assert(gv[g][q] == j);
        }
        assert forall|g: int| 0 <= g < gv.len() implies chained(ways@, #[trigger] gv[g]) by {
            assert(gv[g] == groups@[g]@);
        }
    }
    groups
}

/// A list of distinct values below `n` has at most `n` elements.
proof fn lemma_distinct_below_bound(m: Seq<usize>, n: int)
    requires
        n >= 0,
        forall|p: int| 0 <= p < m.len() ==> #[trigger] m[p] < n,
        forall|pa: int, pb: int|
            0 <= pa < m.len() && 0 <= pb < m.len() && pa != pb ==> #[trigger] m[pa] != #[trigger] m[pb],
    ensures
        m.len() <= n,
{
    let s = m.to_set();
    assert(m.no_duplicates());
    m.unique_seq_to_set();
    assert forall|x: usize| s.contains(x) implies Set::new(|x: usize| (x as int) < n).contains(x) by {
        let i = choose|i: int| 0 <= i < m.len() && m[i] == x;
    }
    assert(s.subset_of(Set::new(|x: usize| (x as int) < n)));
    lemma_bounded_set_size(n);
    vstd::set_lib::lemma_len_subset(s, Set::new(|x: usize| (x as int) < n));
}

proof fn lemma_bounded_set_size(n: int)
    ensures
        Set::new(|x: usize| (x as int) < n).finite(),
        Set::new(|x: usize| (x as int) < n).len() <= if n < 0 { 0 } else { n },
    decreases if n < 0 { 0 } else { n },
{
    let s = Set::new(|x: usize| (x as int) < n);
    if n <= 0 {
        assert(s =~= Set::empty());
    } else {
        lemma_bounded_set_size(n - 1);
        let t = Set::new(|x: usize| (x as int) < n - 1);
        if n - 1 <= usize::MAX {
            assert(s =~= t.insert((n - 1) as usize));
        } else {
            assert(s =~= t);
        }
    }
}

/// A group of connected ways with one name and highway type.
#[derive(Debug, Clone)]
pub struct MergedRoad {
    pub way_ids: Vec<i64>,
    /// Node ids of each way, in the order of `way_ids`.
    pub node_lists: Vec<Vec<i64>>,
    /// Tags of the first way.
    pub tags: Tags,
}

fn copy_nodes(v: &Vec<i64>) -> (r: Vec<i64>)
    ensures
        r@ == v@,
{
    let mut out: Vec<i64> = Vec::new();
    let mut i: usize = 0;
    while i < v.len()
        invariant
            i <= v@.len(),
            out@ == v@.take(i as int),
        decreases v@.len() - i,
    {
        out.push(v[i]);
        assert(v@.take(i + 1) =~= v@.take(i as int).push(v@[i as int]));
        i = i + 1;
    }
    assert(v@.take(v@.len() as int) =~= v@);
    out
}

/// Road `r` is made of the ways listed in index list `g`, in that order.
pub open spec fn road_of(ways: Seq<RoadWay>, g: Seq<usize>, r: MergedRoad) -> bool {
    &&& r.way_ids@.len() == g.len()
    &&& r.node_lists@.len() == g.len()
    &&& forall|p: int|
        0 <= p < g.len() ==> r.way_ids@[p] == ways[#[trigger] g[p] as int].way_id && r.node_lists@[p]@ == ways[g[p] as int].nodes@
    &&& g.len() > 0 ==> r.tags@ == ways[g[0] as int].tags@
}

/// Merge one group of ways sharing a name and highway type into roads, one
/// per connected component.
pub fn merge_group(ways: &Vec<RoadWay>) -> (r: Vec<MergedRoad>)
    ensures
        exists|groups: Seq<Seq<usize>>|
            is_component_split(ways@, groups) && groups.len() == r@.len() && forall|k: int|
                0 <= k < r@.len() ==> road_of(ways@, groups[k], #[trigger] r@[k]),
{
    let groups = group_connected_ways(ways);
    let ghost gv = group_views(groups@);
    let mut out: Vec<MergedRoad> = Vec::new();
    let mut k: usize = 0;
    while k < groups.len()
        invariant
            k <= groups@.len(),
            gv == group_views(groups@),
            is_component_split(ways@, gv),
            out@.len() == k,
            forall|q: int| 0 <= q < k ==> road_of(ways@, gv[q], #[trigger] out@[q]),
        decreases groups@.len() - k,
    {
        let g = &groups[k];
        assert(gv[k as int] == g@);
        let mut ids: Vec<i64> = Vec::new();
        let mut nodes: Vec<Vec<i64>> = Vec::new();
        let mut p: usize = 0;
        while p < g.len()
            invariant
                p <= g@.len(),
                gv[k as int] == g@,
                is_component_split(ways@, gv),
                0 <= k < gv.len(),
                ids@.len() == p,
                nodes@.len() == p,
                forall|q: int|
                    0 <= q < p ==> ids@[q] == ways@[#[trigger] g@[q] as int].way_id && nodes@[q]@
                        == ways@[g@[q] as int].nodes@,
            decreases g@.len() - p,
        {
            let w = g[p];
            assert(gv[k as int][p as int] == w);
            ids.push(ways[w].way_id);
            nodes.push(copy_nodes(&ways[w].nodes));
            p = p + 1;
        }
        assert(g@.len() > 0);
        assert(gv[k as int][0] == g@[0]);
        let tags = ways[g[0]].tags.clone();
        let road = MergedRoad { way_ids: ids, node_lists: nodes, tags };
        out.push(road);
        assert(road_of(ways@, gv[k as int], out@[k as int]));
        k = k + 1;
    }
    out
}

/// Road ways by group key, in a hash map.
#[verifier::external_body]
pub struct RoadIndex {
    map: hashbrown::HashMap<String, Vec<RoadWay>>,
}

/// A road way as plain values: its id, its tags and its node ids.
pub type WayView = (i64, Map<Seq<char>, Seq<char>>, Seq<i64>);

/// The ways a road index holds under each group key, in order of arrival.
pub uninterp spec fn indexed_ways(idx: RoadIndex) -> Map<Seq<char>, Seq<WayView>>;

/// A list of road ways as plain values.
pub open spec fn way_views_of(ws: Seq<RoadWay>) -> Seq<WayView> {
    Seq::new(ws.len(), |i: int| (ws[i].way_id, ws[i].tags@, ws[i].nodes@))
}

/// The empty grouping.
pub open spec fn no_ways() -> Map<Seq<char>, Seq<WayView>> {
    Map::empty()
}

/// Relies on `hashbrown::HashMap::new`: an empty map.
#[verifier::external_body]
fn index_new() -> (fresh: RoadIndex)
    ensures
        indexed_ways(fresh) == no_ways(),
{
    RoadIndex { map: hashbrown::HashMap::new() }
}

/// Relies on `hashbrown::HashMap::remove`: takes out the group under a key,
/// when there is one.
#[verifier::external_body]
fn index_remove(idx: &mut RoadIndex, key: &String) -> (r: Option<Vec<RoadWay>>)
    ensures
        r.is_some() == indexed_ways(*old(idx)).contains_key(key@),
        r.is_some() ==> way_views_of(r.unwrap()@) == indexed_ways(*old(idx))[key@],
        indexed_ways(*final(idx)) == indexed_ways(*old(idx)).remove(key@),
{
    idx.map.remove(key)
}

/// Relies on `hashbrown::HashMap::insert`: the group is held under the key,
/// replacing any earlier one.
#[verifier::external_body]
fn index_insert(idx: &mut RoadIndex, key: String, group: Vec<RoadWay>)
    ensures
        indexed_ways(*final(idx)) == indexed_ways(*old(idx)).insert(key@, way_views_of(group@)),
{
    idx.map.insert(key, group);
}

/// Relies on `hashbrown::HashMap::into_iter`: each key with its group, once,
/// in no particular order.
#[verifier::external_body]
fn index_into_groups(idx: RoadIndex) -> (r: Vec<(String, Vec<RoadWay>)>)
    ensures
        forall|i: int|
            0 <= i < r@.len() ==> indexed_ways(idx).contains_key(#[trigger] r@[i].0@) && indexed_ways(idx)[r@[i].0@]
                == way_views_of(r@[i].1@),
        forall|k: Seq<char>|
            #[trigger] indexed_ways(idx).contains_key(k) ==> exists|i: int| 0 <= i < r@.len() && r@[i].0@ == k,
        forall|i: int, j: int| 0 <= i < j < r@.len() ==> #[trigger] r@[i].0@ != #[trigger] r@[j].0@,
{
    idx.map.into_iter().collect()
}

/// Road ways collected by group key (`"<name>|<highway>"`).
pub struct WayMerger {
    roads_by_name: RoadIndex,
}

impl WayMerger {
    /// The group key of a road's tags.
    pub fn get_merge_key(tags: &Tags) -> (r: Option<String>)
        ensures
            r.is_some() == merge_key_of(tags@).is_some(),
            r.is_some() ==> r.unwrap()@ == merge_key_of(tags@).unwrap(),
    {
        let name = match tags.get("name") {
            Some(n) => n,
            None => return None,
        };
        let highway = match tags.get("highway") {
            Some(h) => h,
            None => return None,
        };
        if is_excluded_highway(highway.as_str()) {
            return None;
        }
        let mut v: Vec<char> = Vec::new();
        push_str(&mut v, name.as_str());
        push_str(&mut v, "|");
        push_str(&mut v, highway.as_str());
        Some(string_of(&v))
    }

    /// The way shares an end point with a way of the group.
    pub fn is_connected_to_group(group: &[RoadWay], way: &RoadWay) -> (r: bool)
        ensures
            r == touches_any(group@, *way),
    {
        let mut i: usize = 0;
        while i < group.len()
            invariant
                i <= group@.len(),
                forall|k: int| 0 <= k < i ==> !ends_touch(#[trigger] group@[k].nodes@, way.nodes@),
            decreases group@.len() - i,
        {
            if touch(&group[i].nodes, &way.nodes) {
                return true;
            }
            i = i + 1;
        }
        false
    }

    /// The ways collected under a key, in order of arrival.
    pub closed spec fn ways_under(&self, key: Seq<char>) -> Seq<WayView> {
        if indexed_ways(self.roads_by_name).contains_key(key) {
            indexed_ways(self.roads_by_name)[key]
        } else {
            Seq::empty()
        }
    }

    pub fn new() -> (r: WayMerger)
        ensures
            forall|k: Seq<char>| #[trigger] r.ways_under(k) == Seq::<WayView>::empty(),
    {
        WayMerger { roads_by_name: index_new() }
    }

    /// Collect a road way under its group key; ways without a key are ignored.
    pub fn add_road(&mut self, way_id: i64, tags: Tags, nodes: Vec<i64>)
        ensures
            merge_key_of(tags@).is_none() ==> forall|k: Seq<char>|
                #[trigger] final(self).ways_under(k) == old(self).ways_under(k),
            merge_key_of(tags@).is_some() ==> {
                let key = merge_key_of(tags@).unwrap();
                &&& final(self).ways_under(key) == old(self).ways_under(key).push((way_id, tags@, nodes@))
                &&& forall|k: Seq<char>| k != key ==> #[trigger] final(self).ways_under(k) == old(self).ways_under(k)
            },
    {
        let key = match WayMerger::get_merge_key(&tags) {
            Some(k) => k,
            None => {
                return;
            },
        };
        let ghost before = indexed_ways(self.roads_by_name);
        let mut group = match index_remove(&mut self.roads_by_name, &key) {
            Some(g) => g,
            None => Vec::new(),
        };
        let ghost old_ids = way_views_of(group@);
        let ghost wv: WayView = (way_id, tags@, nodes@);
        group.push(RoadWay { way_id, tags, nodes });
        assert(way_views_of(group@) =~= old_ids.push(wv));
        index_insert(&mut self.roads_by_name, key, group);
        proof {
            let after = indexed_ways(self.roads_by_name);
            let kv = key@;
            assert(old_ids == old(self).ways_under(kv)) by {
                if !before.contains_key(kv) {
                    assert(old_ids =~= Seq::<WayView>::empty());
                }
            }
            assert forall|k: Seq<char>| k != kv implies #[trigger] self.ways_under(k) == old(self).ways_under(k) by {
                assert(after.contains_key(k) == before.contains_key(k));
            }
        }
    }

    /// The ways collected, by group key.
    pub closed spec fn collected(&self) -> Map<Seq<char>, Seq<WayView>> {
        indexed_ways(self.roads_by_name)
    }

    /// Merge every group into roads, one per connected component of each group.
    pub fn merge(self) -> (r: Vec<MergedRoad>)
        ensures
            forall|k: int| 0 <= k < r@.len() ==> road_ok(#[trigger] r@[k]),
            exists|keys: Seq<Seq<char>>, groups: Seq<Seq<RoadWay>>, parts: Seq<Seq<MergedRoad>>|
                #[trigger] merge_result(self.collected(), keys, groups, parts, r@),
    {
        let ghost contents = indexed_ways(self.roads_by_name);
        let groups = index_into_groups(self.roads_by_name);
        let mut out: Vec<MergedRoad> = Vec::new();
        let ghost mut parts: Seq<Seq<MergedRoad>> = Seq::empty();
        let mut i: usize = 0;
        while i < groups.len()
            invariant
                i <= groups@.len(),
                contents == self.collected(),
                forall|t: int|
                    0 <= t < groups@.len() ==> contents.contains_key(#[trigger] groups@[t].0@) && contents[groups@[t].0@]
                        == way_views_of(groups@[t].1@),
                forall|k: Seq<char>|
                    #[trigger] contents.contains_key(k) ==> exists|t: int| 0 <= t < groups@.len() && groups@[t].0@ == k,
                forall|a: int, b: int| 0 <= a < b < groups@.len() ==> #[trigger] groups@[a].0@ != #[trigger] groups@[b].0@,
                parts.len() == i,
                out@ == flatten_roads(parts),
                forall|k: int| 0 <= k < out@.len() ==> road_ok(#[trigger] out@[k]),
                forall|t: int| 0 <= t < i ==> roads_of_group(groups@[t].1@, #[trigger] parts[t]),
            decreases groups@.len() - i,
        {
            let roads = merge_group(&groups[i].1);
            let ghost ways = groups@[i as int].1@;
            proof {
                lemma_roads_of_group(ways, roads@);
            }
            let ghost before = out@;
            let ghost rv = roads@;
            append_roads(&mut out, roads);
            proof {
                let grown = parts.push(rv);
                assert(grown.drop_last() =~= parts);
                assert(out@ == flatten_roads(grown));
                assert forall|k: int| 0 <= k < out@.len() implies road_ok(#[trigger] out@[k]) by {
                    if k < before.len() {
                        assert(out@[k] == before[k]);
                    } else {
                        assert(out@[k] == rv[k - before.len()]);
                    }
                }
                assert forall|t: int| 0 <= t < i + 1 implies roads_of_group(groups@[t].1@, #[trigger] grown[t]) by {
                    if t < i {
                        assert(grown[t] == parts[t]);
                    }
                }
                parts = grown;
            }
            i = i + 1;
        }
        proof {
            let keys = Seq::new(groups@.len(), |t: int| groups@[t].0@);
            let gs = Seq::new(groups@.len(), |t: int| groups@[t].1@);
            assert forall|k: Seq<char>| contents.contains_key(k) <==> exists|t: int| 0 <= t < keys.len() && #[trigger] keys[t] == k by {
                if contents.contains_key(k) {
                    let t = choose|t: int| 0 <= t < groups@.len() && groups@[t].0@ == k;
                    assert(keys[t] == k);
                }
                if exists|t: int| 0 <= t < keys.len() && #[trigger] keys[t] == k {
                    let t = choose|t: int| 0 <= t < keys.len() && #[trigger] keys[t] == k;
                    assert(contents.contains_key(groups@[t].0@));
                }
            }
            assert forall|t: int| 0 <= t < keys.len() implies #[trigger] contents[keys[t]] == way_views_of(gs[t])
                && roads_of_group(gs[t], parts[t]) by {
                assert(contents.contains_key(groups@[t].0@));
            }
            assert forall|a: int, b: int| 0 <= a < b < keys.len() implies #[trigger] keys[a] != #[trigger] keys[b] by {
                assert(groups@[a].0@ != groups@[b].0@);
            }
            assert(merge_result(contents, keys, gs, parts, out@));
        }
        out
    }
}

/// `ws` merges into `roads`: one road per connected component, as
/// `merge_group` gives them.
pub open spec fn roads_of_group(ws: Seq<RoadWay>, roads: Seq<MergedRoad>) -> bool {
    exists|groups: Seq<Seq<usize>>|
        is_component_split(ws, groups) && groups.len() == roads.len() && forall|k: int|
            0 <= k < roads.len() ==> road_of(ws, groups[k], #[trigger] roads[k])
}

/// The roads of all parts, one part after the other.
pub open spec fn flatten_roads(parts: Seq<Seq<MergedRoad>>) -> Seq<MergedRoad>
    decreases parts.len(),
{
    if parts.len() == 0 {
        Seq::empty()
    } else {
        flatten_roads(parts.drop_last()) + parts.last()
    }
}

/// The roads `r` come from the collected ways: for each group key exactly
/// once (in `keys`), its ways (`groups`, the ways stored under that key)
/// split into connected components (`parts`), one part after the other.
pub open spec fn merge_result(
    collected: Map<Seq<char>, Seq<WayView>>,
    keys: Seq<Seq<char>>,
    groups: Seq<Seq<RoadWay>>,
    parts: Seq<Seq<MergedRoad>>,
    r: Seq<MergedRoad>,
) -> bool {
    &&& keys.len() == groups.len() && groups.len() == parts.len()
    &&& forall|a: int, b: int| 0 <= a < b < keys.len() ==> #[trigger] keys[a] != #[trigger] keys[b]
    &&& forall|k: Seq<char>| collected.contains_key(k) <==> exists|t: int| 0 <= t < keys.len() && #[trigger] keys[t] == k
    &&& forall|t: int|
        0 <= t < keys.len() ==> #[trigger] collected[keys[t]] == way_views_of(groups[t]) && roads_of_group(
            groups[t],
            parts[t],
        )
    &&& r == flatten_roads(parts)
}

/// A merged road: at least one way, and a node list per way.
pub open spec fn road_ok(r: MergedRoad) -> bool {
    r.way_ids@.len() > 0 && r.node_lists@.len() == r.way_ids@.len()
}

proof fn lemma_roads_of_group(ways: Seq<RoadWay>, roads: Seq<MergedRoad>)
    requires
        exists|groups: Seq<Seq<usize>>|
            is_component_split(ways, groups) && groups.len() == roads.len() && forall|k: int|
                0 <= k < roads.len() ==> road_of(ways, groups[k], #[trigger] roads[k]),
    ensures
        forall|k: int| 0 <= k < roads.len() ==> road_ok(#[trigger] roads[k]),
{
    let groups = choose|groups: Seq<Seq<usize>>|
        is_component_split(ways, groups) && groups.len() == roads.len() && forall|k: int|
            0 <= k < roads.len() ==> road_of(ways, groups[k], #[trigger] roads[k]);
    assert forall|k: int| 0 <= k < roads.len() implies road_ok(#[trigger] roads[k]) by {
        assert(road_of(ways, groups[k], roads[k]));
        assert(groups[k].len() > 0);
    }
}

fn append_roads(out: &mut Vec<MergedRoad>, roads: Vec<MergedRoad>)
    ensures
        final(out)@ == old(out)@ + roads@,
{
    let mut roads = roads;
    let ghost all = roads@;
    let ghost base = out@;
    let mut taken: usize = 0;
    let n = roads.len();
    while roads.len() > 0
        invariant
            all.len() == n,
            taken + roads@.len() == n,
            roads@ == all.skip(taken as int),
            out@ == base + all.take(taken as int),
        decreases roads@.len(),
    {
        let r = roads.remove(0);
        out.push(r);
        assert(all.take(taken + 1) =~= all.take(taken as int).push(all[taken as int]));
        assert(roads@ =~= all.skip(taken + 1));
        taken = taken + 1;
    }
    assert(all.take(n as int) =~= all);
}

impl MergedRoad {
    /// The street place of a merged road, at the center and envelope of its
    /// ways' geometry: a way place under the first way's id, named from the
    /// first way's tags, with `merged_ways:<n>` among its categories when it
    /// joins `n > 1` ways.
    pub fn to_place(&self, source_file: &str, center: Coord, bbox: Option<GeoBbox>, import_timestamp: i64) -> (r: Place)
        requires
            self.way_ids@.len() > 0,
        ensures
            place_consistent(r),
            r.osm_type == OsmType::Way,
            r.osm_id == self.way_ids@[0],
            r.layer == Layer::Street,
            r.center_point == center,
            r.bbox == bbox,
            self.way_ids@.len() > 1 ==> r.categories@.len() > 0 && r.categories@.last()@ == "merged_ways:"@
                + crate::text::decimal(self.way_ids@.len()),
    {
        let mut place = Place::new(OsmType::Way, self.way_ids[0], Layer::Street, center, source_file, import_timestamp);
        place.bbox = bbox;
        extract_tags(&mut place, &self.tags);
        place.layer = Layer::Street;
        if self.way_ids.len() > 1 {
            let mut v: Vec<char> = Vec::new();
            crate::text::push_str(&mut v, "merged_ways:");
            crate::text::push_nat(&mut v, self.way_ids.len() as u64);
            place.categories.push(crate::text::string_of(&v));
        }
        place
    }
}

} // verus!
