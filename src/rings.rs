//! Stitching of way fragments into closed outer rings.
use vstd::prelude::*;
use crate::models::geo::Coord;

verus! {

/// A closed ring: at least four points, the last equal to the first.
pub open spec fn is_closed_ring(r: Seq<Coord>) -> bool {
    r.len() >= 4 && r[0] == r[r.len() - 1]
}

/// The point sequences of a list of fragments.
pub open spec fn views(v: Seq<Vec<Coord>>) -> Seq<Seq<Coord>> {
    Seq::new(v.len(), |i: int| v[i]@)
}

/// `p` is a point of some fragment.
pub open spec fn point_of(frags: Seq<Seq<Coord>>, p: Coord) -> bool {
    exists|i: int, j: int| 0 <= i < frags.len() && 0 <= j < frags[i].len() && #[trigger] frags[i][j] == p
}

/// Every point of `s` is a point of some fragment.
pub open spec fn drawn_from(s: Seq<Coord>, frags: Seq<Seq<Coord>>) -> bool {
    forall|q: int| 0 <= q < s.len() ==> point_of(frags, #[trigger] s[q])
}

/// The sequence read backwards.
pub open spec fn rev(s: Seq<Coord>) -> Seq<Coord> {
    Seq::new(s.len(), |i: int| s[s.len() - 1 - i])
}

/// A way's points as a polygon ring: the points themselves when they already
/// close (last equals first, at least four points), else nothing.
pub fn closed_ring(pts: Vec<Coord>) -> (r: Option<Vec<Coord>>)
    ensures
        r.is_some() == is_closed_ring(pts@),
        r.is_some() ==> r.unwrap()@ == pts@,
{
    if pts.len() >= 4 && pts[0] == pts[pts.len() - 1] {
        Some(pts)
    } else {
        None
    }
}

fn reversed(v: &Vec<Coord>) -> (r: Vec<Coord>)
    ensures
        r@ == rev(v@),
{
    let mut out: Vec<Coord> = Vec::new();
    let mut i: usize = v.len();
    while i > 0
        invariant
            i <= v@.len(),
            out@.len() == v@.len() - i,
            forall|k: int| 0 <= k < out@.len() ==> #[trigger] out@[k] == v@[v@.len() - 1 - k],
        decreases i,
    {
        i = i - 1;
        out.push(v[i]);
    }
    assert(out@ =~= rev(v@));
    out
}

/// `a` followed by `b` without its first point.
fn append_tail(a: Vec<Coord>, b: &Vec<Coord>) -> (r: Vec<Coord>)
    requires
        b@.len() >= 1,
    ensures
        r@ == a@ + b@.subrange(1, b@.len() as int),
{
    let mut out = a;
    let mut i: usize = 1;
    let ghost a0 = out@;
    while i < b.len()
        invariant
            1 <= i <= b@.len(),
            out@ == a0 + b@.subrange(1, i as int),
        decreases b@.len() - i,
    {
        out.push(b[i]);
        assert(b@.subrange(1, i + 1) =~= b@.subrange(1, i as int).push(b@[i as int]));
        i = i + 1;
    }
    out
}

/// `b` without its last point, followed by `a`.
fn prepend_head(b: &Vec<Coord>, a: &Vec<Coord>) -> (r: Vec<Coord>)
    requires
        b@.len() >= 1,
    ensures
        r@ == b@.subrange(0, b@.len() - 1) + a@,
{
    let mut out: Vec<Coord> = Vec::new();
    let mut i: usize = 0;
    while i < b.len() - 1
        invariant
            i + 1 <= b@.len(),
            out@ == b@.subrange(0, i as int),
        decreases b@.len() - i,
    {
        out.push(b[i]);
        assert(b@.subrange(0, i + 1) =~= b@.subrange(0, i as int).push(b@[i as int]));
        i = i + 1;
    }
    let mut j: usize = 0;
    let ghost h = out@;
    while j < a.len()
        invariant
            j <= a@.len(),
            out@ == h + a@.subrange(0, j as int),
        decreases a@.len() - j,
    {
        out.push(a[j]);
        assert(a@.subrange(0, j + 1) =~= a@.subrange(0, j as int).push(a@[j as int]));
        j = j + 1;
    }
    assert(a@.subrange(0, a@.len() as int) =~= a@);
    out
}

proof fn lemma_drawn_concat(a: Seq<Coord>, b: Seq<Coord>, f: Seq<Seq<Coord>>)
    requires
        drawn_from(a, f),
        drawn_from(b, f),
    ensures
        drawn_from(a + b, f),
{
    assert forall|q: int| 0 <= q < (a + b).len() implies point_of(f, #[trigger] (a + b)[q]) by {
        if q < a.len() {
            assert((a + b)[q] == a[q]);
        } else {
            assert((a + b)[q] == b[q - a.len()]);
        }
    }
}

proof fn lemma_drawn_sub(b: Seq<Coord>, lo: int, hi: int, f: Seq<Seq<Coord>>)
    requires
        drawn_from(b, f),
        0 <= lo <= hi <= b.len(),
    ensures
        drawn_from(b.subrange(lo, hi), f),
{
    assert forall|q: int| 0 <= q < hi - lo implies point_of(f, #[trigger] b.subrange(lo, hi)[q]) by {
        assert(b.subrange(lo, hi)[q] == b[q + lo]);
    }
}

proof fn lemma_drawn_rev(b: Seq<Coord>, f: Seq<Seq<Coord>>)
    requires
        drawn_from(b, f),
    ensures
        drawn_from(rev(b), f),
{
    assert forall|q: int| 0 <= q < b.len() implies point_of(f, #[trigger] rev(b)[q]) by {
        assert(rev(b)[q] == b[b.len() - 1 - q]);
    }
}

/// The first fragment of `rem`, from index `i` on, that joins the chain,
/// with the first way it joins.
pub open spec fn join_from(cur: Seq<Coord>, rem: Seq<Seq<Coord>>, i: int) -> Option<(int, Join)>
    decreases rem.len() - i,
{
    if i < 0 || i >= rem.len() {
        None
    } else if first_join(cur, rem[i]).is_some() {
        Some((i, first_join(cur, rem[i]).unwrap()))
    } else {
        join_from(cur, rem, i + 1)
    }
}

/// A chain grown by joins until it closes or nothing joins: the final chain
/// and the fragments left over.
pub open spec fn grow(cur: Seq<Coord>, rem: Seq<Seq<Coord>>) -> (Seq<Coord>, Seq<Seq<Coord>>)
    decreases rem.len(),
{
    if is_closed_ring(cur) {
        (cur, rem)
    } else {
        match join_from(cur, rem, 0) {
            Some((j, how)) => if 0 <= j < rem.len() {
                grow(joined(cur, rem[j], how), rem.remove(j))
            } else {
                (cur, rem)
            },
            None => (cur, rem),
        }
    }
}

/// Greedy stitching with a bound on the rounds: each round takes the first
/// fragment, grows it, keeps it if it closed, and goes on with what is left.
pub open spec fn stitch_rounds(fs: Seq<Seq<Coord>>, fuel: nat) -> Seq<Seq<Coord>>
    decreases fuel,
{
    if fuel == 0 || fs.len() == 0 {
        Seq::empty()
    } else {
        let g = grow(fs[0], fs.drop_first());
        let rest = stitch_rounds(g.1, (fuel - 1) as nat);
        if is_closed_ring(g.0) {
            seq![g.0] + rest
        } else {
            rest
        }
    }
}

/// The rings that greedy stitching makes of the fragments: chains that never
/// close are dropped.
pub open spec fn stitch(fs: Seq<Seq<Coord>>) -> Seq<Seq<Coord>> {
    stitch_rounds(fs, fs.len())
}

proof fn lemma_join_from(cur: Seq<Coord>, rem: Seq<Seq<Coord>>, i: int, j: int)
    requires
        0 <= i <= j <= rem.len(),
        forall|k: int, how: Join| i <= k < j ==> !#[trigger] joins(cur, rem[k], how),
    ensures
        j < rem.len() && first_join(cur, rem[j]).is_some() ==> join_from(cur, rem, i) == Some(
            (j, first_join(cur, rem[j]).unwrap()),
        ),
        j == rem.len() ==> join_from(cur, rem, i).is_none(),
    decreases j - i,
{
    if i < j {
        assert(first_join(cur, rem[i]).is_none()) by {
            assert(!joins(cur, rem[i], Join::EndToStart));
            assert(!joins(cur, rem[i], Join::EndToEnd));
            assert(!joins(cur, rem[i], Join::StartToEnd));
            assert(!joins(cur, rem[i], Join::StartToStart));
        }
        lemma_join_from(cur, rem, i + 1, j);
    }
}

proof fn lemma_grow_len(cur: Seq<Coord>, rem: Seq<Seq<Coord>>)
    ensures
        grow(cur, rem).1.len() <= rem.len(),
    decreases rem.len(),
{
    if !is_closed_ring(cur) {
        match join_from(cur, rem, 0) {
            Some((j, how)) => if 0 <= j < rem.len() {
                lemma_grow_len(joined(cur, rem[j], how), rem.remove(j));
            },
            None => {},
        }
    }
}

proof fn lemma_stitch_fuel(fs: Seq<Seq<Coord>>, a: nat, b: nat)
    requires
        a >= fs.len(),
        b >= fs.len(),
    ensures
        stitch_rounds(fs, a) == stitch_rounds(fs, b),
    decreases fs.len(),
{
    if fs.len() > 0 {
        let g = grow(fs[0], fs.drop_first());
        lemma_grow_len(fs[0], fs.drop_first());
        lemma_stitch_fuel(g.1, (a - 1) as nat, (b - 1) as nat);
    }
}

/// Two pieces of one polygon join, end to start or end to end, into a closed ring.
pub proof fn lemma_two_pieces_close(a: Seq<Coord>, b: Seq<Coord>)
    requires
        two_pieces(a, b),
    ensures
        first_join(a, b) == Some(Join::EndToStart) || first_join(a, b) == Some(Join::EndToEnd),
        is_closed_ring(joined(a, b, first_join(a, b).unwrap())),
        joined(a, b, first_join(a, b).unwrap()).len() == a.len() + b.len() - 1,
{
    if a.last() == b[0] {
        assert(joins(a, b, Join::EndToStart));
        let r = a + b.subrange(1, b.len() as int);
        assert(r.last() == b.last());
    } else {
        assert(a.last() == b.last());
        assert(joins(a, b, Join::EndToEnd));
        let r = a + rev(b).subrange(1, b.len() as int);
        assert(r.last() == rev(b)[b.len() - 1]);
    }
}

/// A polygon cut in two closes from either piece and in either orientation:
/// the pieces in the other order, or either piece reversed, are again two
/// pieces of one polygon, so stitching gives exactly one ring.
pub proof fn law_two_pieces_any_order(a: Seq<Coord>, b: Seq<Coord>)
    requires
        two_pieces(a, b),
    ensures
        two_pieces(b, a),
        two_pieces(rev(a), b),
        two_pieces(a, rev(b)),
        two_pieces(rev(b), rev(a)),
{
    assert(rev(a)[0] == a.last());
    assert(rev(a).last() == a[0]);
    assert(rev(b)[0] == b.last());
    assert(rev(b).last() == b[0]);
}

/// How a fragment joins the current chain.
#[derive(Debug, Clone, Copy, PartialEq, Eq, Structural)]
pub enum Join {
    /// The chain's end is the fragment's start.
    EndToStart,
    /// The chain's end is the fragment's end.
    EndToEnd,
    /// The chain's start is the fragment's end.
    StartToEnd,
    /// The chain's start is the fragment's start.
    StartToStart,
}

/// The fragment can be joined to the chain in the given way.
pub open spec fn joins(cur: Seq<Coord>, frag: Seq<Coord>, how: Join) -> bool {
    &&& cur.len() >= 1
    &&& frag.len() >= 2
    &&& match how {
        Join::EndToStart => cur.last() == frag[0],
        Join::EndToEnd => cur.last() == frag.last(),
        Join::StartToEnd => cur[0] == frag.last(),
        Join::StartToStart => cur[0] == frag[0],
    }
}

/// The chain after joining a fragment.
pub open spec fn joined(cur: Seq<Coord>, frag: Seq<Coord>, how: Join) -> Seq<Coord> {
    match how {
        Join::EndToStart => cur + frag.subrange(1, frag.len() as int),
        Join::EndToEnd => cur + rev(frag).subrange(1, frag.len() as int),
        Join::StartToEnd => frag.subrange(0, frag.len() - 1) + cur,
        Join::StartToStart => rev(frag).subrange(0, frag.len() - 1) + cur,
    }
}

/// The first way, in the order end to start, end to end, start to end,
/// start to start, in which the fragment joins the chain.
pub open spec fn first_join(cur: Seq<Coord>, frag: Seq<Coord>) -> Option<Join> {
    if joins(cur, frag, Join::EndToStart) {
        Some(Join::EndToStart)
    } else if joins(cur, frag, Join::EndToEnd) {
        Some(Join::EndToEnd)
    } else if joins(cur, frag, Join::StartToEnd) {
        Some(Join::StartToEnd)
    } else if joins(cur, frag, Join::StartToStart) {
        Some(Join::StartToStart)
    } else {
        None
    }
}

/// Two open fragments with the same two end points that together have
/// enough points for a ring: one polygon cut in two.
pub open spec fn two_pieces(a: Seq<Coord>, b: Seq<Coord>) -> bool {
    &&& a.len() >= 2
    &&& b.len() >= 2
    &&& a.len() + b.len() >= 5
    &&& a[0] != a.last()
    &&& ((b[0] == a[0] && b.last() == a.last()) || (b[0] == a.last() && b.last() == a[0]))
}

/// The fragments with those after the first reversed where `flips` says so.
pub open spec fn orient(fs: Seq<Seq<Coord>>, flips: Seq<bool>) -> Seq<Seq<Coord>> {
    Seq::new(fs.len(), |i: int| if i > 0 && flips[i] { rev(fs[i]) } else { fs[i] })
}

/// The fragments joined in order, each after the first without its first point.
pub open spec fn chain_join(fs: Seq<Seq<Coord>>, k: int) -> Seq<Coord>
    decreases k,
{
    if k <= 0 {
        fs[0]
    } else {
        chain_join(fs, k - 1) + fs[k].subrange(1, fs[k].len() as int)
    }
}

/// Fragments in ring order: each ends where the next starts, the last ends
/// where the first starts, no two start at the same point, and together they
/// have enough points for a ring.
pub open spec fn ring_chain(fs: Seq<Seq<Coord>>) -> bool {
    &&& fs.len() >= 2
    &&& forall|i: int| 0 <= i < fs.len() ==> (#[trigger] fs[i]).len() >= 2
    &&& forall|i: int| 0 <= i < fs.len() - 1 ==> (#[trigger] fs[i]).last() == fs[i + 1][0]
    &&& fs.last().last() == fs[0][0]
    &&& forall|i: int, j: int| 0 <= i < j < fs.len() ==> (#[trigger] fs[i])[0] != (#[trigger] fs[j])[0]
    &&& chain_join(fs, fs.len() - 1).len() >= 4
}

proof fn lemma_chain_join(fs: Seq<Seq<Coord>>, k: int)
    requires
        ring_chain(fs),
        0 <= k < fs.len(),
    ensures
        chain_join(fs, k).len() >= 2,
        chain_join(fs, k)[0] == fs[0][0],
        chain_join(fs, k).last() == fs[k].last(),
        k < fs.len() - 1 ==> !is_closed_ring(chain_join(fs, k)),
        k == fs.len() - 1 ==> is_closed_ring(chain_join(fs, k)),
    decreases k,
{
    assert(fs[k].len() >= 2);
    if k > 0 {
        lemma_chain_join(fs, k - 1);
        let c = chain_join(fs, k - 1);
        let t = fs[k].subrange(1, fs[k].len() as int);
        assert((c + t)[0] == c[0]);
        assert((c + t).last() == t.last());
    }
    if k < fs.len() - 1 {
        assert(fs[k].last() == fs[k + 1][0]);
        assert(fs[0][0] != fs[k + 1][0]);
    } else {
        assert(fs[k] == fs.last());
    }
}

/// In a ring chain with orientations, the next fragment joins the chain of
/// the ones before it end to start when kept, end to end when reversed, and
/// either way the result is the chain one step longer.
proof fn lemma_oriented_step(fs: Seq<Seq<Coord>>, flips: Seq<bool>, k: int)
    requires
        ring_chain(orient(fs, flips)),
        0 <= k < fs.len() - 1,
    ensures
        first_join(chain_join(orient(fs, flips), k), fs[k + 1]) == Some(
            if flips[k + 1] { Join::EndToEnd } else { Join::EndToStart },
        ),
        joined(
            chain_join(orient(fs, flips), k),
            fs[k + 1],
            if flips[k + 1] { Join::EndToEnd } else { Join::EndToStart },
        ) == chain_join(orient(fs, flips), k + 1),
{
    let vo = orient(fs, flips);
    lemma_chain_join(vo, k);
    let cur = chain_join(vo, k);
    let f = fs[k + 1];
    assert(vo[k + 1].len() >= 2);
    assert(vo[k].last() == vo[k + 1][0]);
    if k + 1 < vo.len() - 1 {
        assert(vo[k + 1].last() == vo[k + 2][0]);
        assert(vo[k + 1][0] != vo[k + 2][0]);
    } else {
        assert(vo[k + 1] == vo.last());
        assert(vo[0][0] != vo[k + 1][0]);
    }
    if flips[k + 1] {
        assert(vo[k + 1] == rev(f));
        assert(f.len() >= 2);
        assert(rev(f)[0] == f.last());
        assert(rev(f).last() == f[0]);
        assert(cur.last() == f.last());
        assert(cur.last() != f[0]);
    } else {
        assert(vo[k + 1] == f);
        assert(cur.last() == f[0]);
    }
}

/// The first fragment that joins the chain, with the first way it joins
/// (end to start, end to end, start to end, start to start).
pub fn find_join(cur: &Vec<Coord>, rem: &Vec<Vec<Coord>>) -> (r: Option<(usize, Join)>)
    ensures
        r.is_some() ==> r.unwrap().0 < rem@.len() && joins(cur@, rem@[r.unwrap().0 as int]@, r.unwrap().1),
        r.is_some() ==> first_join(cur@, rem@[r.unwrap().0 as int]@) == Some(r.unwrap().1),
        r.is_some() ==> forall|j: int, how: Join|
            0 <= j < r.unwrap().0 ==> !#[trigger] joins(cur@, rem@[j]@, how),
        r.is_none() ==> forall|j: int, how: Join|
            0 <= j < rem@.len() ==> !#[trigger] joins(cur@, rem@[j]@, how),
{
    if cur.len() == 0 {
        return None;
    }
    let first = cur[0];
    let last = cur[cur.len() - 1];
    let mut i: usize = 0;
    while i < rem.len()
        invariant
            i <= rem@.len(),
            cur@.len() >= 1,
            first == cur@[0],
            last == cur@.last(),
            forall|j: int, how: Join| 0 <= j < i ==> !#[trigger] joins(cur@, rem@[j]@, how),
        decreases rem@.len() - i,
    {
        let f = &rem[i];
        if f.len() >= 2 {
            let fs = f[0];
            let fe = f[f.len() - 1];
            if last == fs {
                return Some((i, Join::EndToStart));
            } else if last == fe {
                return Some((i, Join::EndToEnd));
            } else if first == fe {
                return Some((i, Join::StartToEnd));
            } else if first == fs {
                return Some((i, Join::StartToStart));
            }
        }
        proof {
            assert forall|how: Join| !joins(cur@, rem@[i as int]@, how) by {}
        }
        i = i + 1;
    }
    None
}

/// Join a fragment to the chain in the given way.
pub fn join(cur: Vec<Coord>, frag: &Vec<Coord>, how: Join) -> (r: Vec<Coord>)
    requires
        joins(cur@, frag@, how),
    ensures
        r@ == joined(cur@, frag@, how),
{
    match how {
        Join::EndToStart => append_tail(cur, frag),
        Join::EndToEnd => {
            let rf = reversed(frag);
            append_tail(cur, &rf)
        },
        Join::StartToEnd => prepend_head(frag, &cur),
        Join::StartToStart => {
            let rf = reversed(frag);
            prepend_head(&rf, &cur)
        },
    }
}

proof fn lemma_joined_drawn(cur: Seq<Coord>, frag: Seq<Coord>, how: Join, f: Seq<Seq<Coord>>)
    requires
        joins(cur, frag, how),
        drawn_from(cur, f),
        drawn_from(frag, f),
    ensures
        drawn_from(joined(cur, frag, how), f),
{
    lemma_drawn_rev(frag, f);
    match how {
        Join::EndToStart => {
            lemma_drawn_sub(frag, 1, frag.len() as int, f);
            lemma_drawn_concat(cur, frag.subrange(1, frag.len() as int), f);
        },
        Join::EndToEnd => {
            lemma_drawn_sub(rev(frag), 1, frag.len() as int, f);
            lemma_drawn_concat(cur, rev(frag).subrange(1, frag.len() as int), f);
        },
        Join::StartToEnd => {
            lemma_drawn_sub(frag, 0, frag.len() - 1, f);
            lemma_drawn_concat(frag.subrange(0, frag.len() - 1), cur, f);
        },
        Join::StartToStart => {
            lemma_drawn_sub(rev(frag), 0, frag.len() - 1, f);
            lemma_drawn_concat(rev(frag).subrange(0, frag.len() - 1), cur, f);
        },
    }
}

/// Stitch fragments into closed outer rings.
///
/// Fragments are taken in order; each is extended by joining, one at a time,
/// the first remaining fragment that shares an end point with it, until it
/// closes (then it is a ring) or nothing joins (then it is dropped).
#[verifier::rlimit(80)]
pub fn merge_rings_to_polygons(rings: Vec<Vec<Coord>>) -> (r: Vec<Vec<Coord>>)
    ensures
        r@.len() <= rings@.len(),
        forall|k: int| 0 <= k < r@.len() ==> is_closed_ring(#[trigger] r@[k]@),
        forall|k: int| 0 <= k < r@.len() ==> drawn_from(#[trigger] r@[k]@, views(rings@)),
        rings@.len() > 0 && is_closed_ring(rings@[0]@) ==> r@.len() > 0 && r@[0]@ == rings@[0]@,
        rings@.len() == 2 && two_pieces(rings@[0]@, rings@[1]@) ==> r@.len() == 1 && r@[0]@ == joined(
            rings@[0]@,
            rings@[1]@,
            first_join(rings@[0]@, rings@[1]@).unwrap(),
        ),
        (exists|flips: Seq<bool>| #[trigger] ring_chain(orient(views(rings@), flips))) ==> r@.len() == 1 && exists|
            flips: Seq<bool>,
        |
            #[trigger] ring_chain(orient(views(rings@), flips)) && r@[0]@ == chain_join(
                orient(views(rings@), flips),
                rings@.len() - 1,
            ),
        views(r@) == stitch(views(rings@)),
{
    let ghost orig = rings@;
    let ghost closed0 = orig.len() > 0 && is_closed_ring(orig[0]@);
    let ghost pair = orig.len() == 2 && two_pieces(orig[0]@, orig[1]@);
    let ghost ring2 = if pair {
        joined(orig[0]@, orig[1]@, first_join(orig[0]@, orig[1]@).unwrap())
    } else {
        Seq::empty()
    };
    let ghost mut first_round = true;
    let ghost chain = exists|flips: Seq<bool>| #[trigger] ring_chain(orient(views(orig), flips));
    let ghost flips0 = if chain {
        choose|flips: Seq<bool>| #[trigger] ring_chain(orient(views(orig), flips))
    } else {
        Seq::empty()
    };
    let ghost vo = orient(views(orig), flips0);
    let ghost n = orig.len() as int;
    proof {
        if pair {
            lemma_two_pieces_close(orig[0]@, orig[1]@);
        }
    }
    let ghost input = views(rings@);
    let mut remaining = rings;
    let mut result: Vec<Vec<Coord>> = Vec::new();
    proof {
        assert(views(result@) + stitch(views(remaining@)) =~= stitch(input));
        assert forall|k: int| 0 <= k < remaining@.len() implies drawn_from(#[trigger] remaining@[k]@, input) by {
            assert forall|q: int| 0 <= q < remaining@[k]@.len() implies point_of(input, #[trigger] remaining@[k]@[q]) by {
                assert(input[k][q] == remaining@[k]@[q]);
            }
        }
    }
    while remaining.len() > 0
        invariant
            input == views(rings@),
            orig == rings@,
            closed0 == (orig.len() > 0 && is_closed_ring(orig[0]@)),
            pair == (orig.len() == 2 && two_pieces(orig[0]@, orig[1]@)),
            pair ==> ring2 == joined(orig[0]@, orig[1]@, first_join(orig[0]@, orig[1]@).unwrap()),
            first_round ==> remaining@ == orig && result@.len() == 0,
            !first_round && closed0 ==> result@.len() > 0 && result@[0]@ == orig[0]@,
            !first_round && pair ==> result@.len() == 1 && result@[0]@ == ring2 && remaining@.len() == 0,
            pair ==> is_closed_ring(ring2),
            chain == exists|flips: Seq<bool>| #[trigger] ring_chain(orient(views(orig), flips)),
            chain ==> ring_chain(vo),
            vo == orient(views(orig), flips0),
            n == orig.len(),
            !first_round && chain ==> result@.len() == 1 && result@[0]@ == chain_join(vo, n - 1)
                && remaining@.len() == 0,
            result@.len() + remaining@.len() <= input.len(),
            forall|k: int| 0 <= k < result@.len() ==> is_closed_ring(#[trigger] result@[k]@),
            forall|k: int| 0 <= k < result@.len() ==> drawn_from(#[trigger] result@[k]@, input),
            forall|k: int| 0 <= k < remaining@.len() ==> drawn_from(#[trigger] remaining@[k]@, input),
            views(result@) + stitch(views(remaining@)) == stitch(input),
        decreases remaining@.len(),
    {
        let ghost before = remaining@;
        let mut current = remaining.remove(0);
        assert(drawn_from(before[0]@, input));
        assert forall|k: int| 0 <= k < remaining@.len() implies drawn_from(#[trigger] remaining@[k]@, input) by {
            assert(remaining@[k] == before[k + 1]);
        }
        let mut going = true;
        let ghost start_len = remaining@.len();
        let ghost fr = first_round;
        let ghost mut ck: int = 0;
        let ghost g0 = grow(current@, views(remaining@));
        proof {
            assert(views(before)[0] == current@);
            assert(views(before).drop_first() =~= views(remaining@));
        }
        proof {
            if fr && chain {
                assert(vo[0] == views(orig)[0]);
                assert(views(orig)[0] == orig[0]@);
                assert(remaining@ =~= orig.subrange(1, n));
            }
            if fr {
                assert(current@ == orig[0]@);
                if pair {
                    assert(remaining@.len() == 1);
                    assert(remaining@[0] == orig[1]);
                }
            }
        }
        while going
            invariant
                fr ==> first_round,
                closed0 == (orig.len() > 0 && is_closed_ring(orig[0]@)),
                pair == (orig.len() == 2 && two_pieces(orig[0]@, orig[1]@)),
                pair ==> ring2 == joined(orig[0]@, orig[1]@, first_join(orig[0]@, orig[1]@).unwrap()),
                fr && closed0 ==> current@ == orig[0]@,
                chain ==> ring_chain(vo),
                vo == orient(views(orig), flips0),
                n == orig.len(),
                fr && chain ==> 0 <= ck < n && current@ == chain_join(vo, ck) && remaining@ == orig.subrange(
                    ck + 1,
                    n,
                ) && result@.len() == 0 && (ck < n - 1 ==> going),
                fr && pair ==> result@.len() == 0 && ((current@ == orig[0]@ && remaining@.len() == 1
                    && remaining@[0]@ == orig[1]@ && going) || (current@ == ring2 && remaining@.len() == 0)),
                pair ==> is_closed_ring(ring2),
                remaining@.len() <= start_len,
                result@.len() + remaining@.len() + 1 <= input.len(),
                drawn_from(current@, input),
                forall|k: int| 0 <= k < remaining@.len() ==> drawn_from(#[trigger] remaining@[k]@, input),
                grow(current@, views(remaining@)) == g0,
                !going ==> g0 == (current@, views(remaining@)),
            decreases remaining@.len() + if going { 1int } else { 0int },
        {
            proof {
                if fr && chain {
                    lemma_chain_join(vo, ck);
                    if ck < n - 1 {
                        assert(remaining@[0] == orig[ck + 1]);
                        lemma_oriented_step(views(orig), flips0, ck);
                        assert(views(orig)[ck + 1] == orig[ck + 1]@);
                        assert(joins(current@, remaining@[0]@, Join::EndToStart) || joins(
                            current@,
                            remaining@[0]@,
                            Join::EndToEnd,
                        ));
                    }
                }
            }
            if current.len() >= 4 && current[0] == current[current.len() - 1] {
                going = false;
            } else {
                match find_join(&current, &remaining) {
                    None => {
                        proof {
                            let vr = views(remaining@);
                            assert forall|k: int, h: Join| 0 <= k < vr.len() implies !#[trigger] joins(current@, vr[k], h) by {
                                assert(!joins(current@, remaining@[k]@, h));
                            }
                            lemma_join_from(current@, vr, 0, vr.len() as int);
                        }
                        going = false;
                    },
                    Some((j, how)) => {
                        let ghost rb = remaining@;
                        let ghost cur0 = current@;
                        proof {
                            let vr = views(rb);
                            assert forall|k: int, h: Join| 0 <= k < j implies !#[trigger] joins(cur0, vr[k], h) by {
                                assert(!joins(cur0, rb[k]@, h));
                            }
                            assert(vr[j as int] == rb[j as int]@);
                            lemma_join_from(cur0, vr, 0, j as int);
                        }
                        let frag = remaining.remove(j);
                        assert(drawn_from(rb[j as int]@, input));
                        proof {
                            lemma_joined_drawn(current@, frag@, how, input);
                        }
                        current = join(current, &frag, how);
                        proof {
                            assert(views(remaining@) =~= views(rb).remove(j as int));
                            assert(frag@ == views(rb)[j as int]);
                            if fr && chain {
                                lemma_chain_join(vo, ck);
                                assert(ck < n - 1);
                                assert(rb[0] == orig[ck + 1]);
                                assert(views(orig)[ck + 1] == orig[ck + 1]@);
                                lemma_oriented_step(views(orig), flips0, ck);
                                assert(j == 0);
                                assert(current@ == chain_join(vo, ck + 1));
                                assert(remaining@ =~= orig.subrange(ck + 2, n));
                                ck = ck + 1;
                            }
                            if fr && pair {
                                assert(cur0 == orig[0]@);
                                assert(j == 0);
                                assert(frag@ == orig[1]@);
                            }
                        }
                        assert forall|k: int| 0 <= k < remaining@.len() implies drawn_from(
                            #[trigger] remaining@[k]@,
                            input,
                        ) by {
                            if k < j {
                                assert(remaining@[k] == rb[k]);
                            } else {
                                assert(remaining@[k] == rb[k + 1]);
                            }
                        }
                    },
                }
            }
        }
        proof {
            if fr && chain {
                lemma_chain_join(vo, ck);
            }
            let vb = views(before);
            assert(g0 == grow(vb[0], vb.drop_first()));
            lemma_grow_len(vb[0], vb.drop_first());
            lemma_stitch_fuel(views(remaining@), (vb.len() - 1) as nat, views(remaining@).len());
        }
        let ghost res0 = result@;
        let closed = current.len() >= 4 && current[0] == current[current.len() - 1];
        let ghost cur_v = current@;
        if closed {
            result.push(current);
        }
        proof {
            let vb = views(before);
            if closed {
                assert(views(result@) =~= views(res0).push(cur_v));
            } else {
                assert(views(result@) =~= views(res0));
            }
            assert(views(result@) + stitch(views(remaining@)) =~= stitch(input));
        }
        proof {
            first_round = false;
        }
    }
    result
}

} // verus!
