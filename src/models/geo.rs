//! Coordinates in OSM's fixed-point unit (1e-7 degree) and envelopes.
use vstd::prelude::*;

verus! {

/// A WGS84 position in units of 1e-7 degree, as OSM stores it.
#[derive(Debug, Clone, Copy, PartialEq, Eq, Hash, Structural)]
pub struct Coord {
    pub lon: i64,
    pub lat: i64,
}

/// An axis-aligned envelope, serialized as `[[minLon, maxLat], [maxLon, minLat]]`.
#[derive(Debug, Clone, Copy, PartialEq, Eq, Structural)]
pub struct GeoBbox {
    pub min_lon: i64,
    pub min_lat: i64,
    pub max_lon: i64,
    pub max_lat: i64,
}

impl GeoBbox {
    pub fn new(min_lon: i64, min_lat: i64, max_lon: i64, max_lat: i64) -> (r: GeoBbox)
        ensures
            r == (GeoBbox { min_lon, min_lat, max_lon, max_lat }),
    {
        GeoBbox { min_lon, min_lat, max_lon, max_lat }
    }
}

/// `b` is the smallest envelope holding every point of `pts`.
pub open spec fn is_envelope_of(b: GeoBbox, pts: Seq<Coord>) -> bool {
    &&& forall|i: int|
        0 <= i < pts.len() ==> b.min_lon <= #[trigger] pts[i].lon <= b.max_lon && b.min_lat
            <= pts[i].lat <= b.max_lat
    &&& exists|i: int| 0 <= i < pts.len() && #[trigger] pts[i].lon == b.min_lon
    &&& exists|i: int| 0 <= i < pts.len() && #[trigger] pts[i].lon == b.max_lon
    &&& exists|i: int| 0 <= i < pts.len() && #[trigger] pts[i].lat == b.min_lat
    &&& exists|i: int| 0 <= i < pts.len() && #[trigger] pts[i].lat == b.max_lat
}

/// The envelope of a point list; `None` for an empty list.
pub fn envelope(pts: &Vec<Coord>) -> (r: Option<GeoBbox>)
    ensures
        r.is_none() == (pts@.len() == 0),
        r.is_some() ==> is_envelope_of(r.unwrap(), pts@),
{
    if pts.len() == 0 {
        return None;
    }
    let mut b = GeoBbox { min_lon: pts[0].lon, min_lat: pts[0].lat, max_lon: pts[0].lon, max_lat: pts[0].lat };
    let mut i: usize = 1;
    assert(pts@.take(1)[0] == pts@[0]);
    while i < pts.len()
        invariant
            1 <= i <= pts@.len(),
            is_envelope_of(b, pts@.take(i as int)),
        decreases pts@.len() - i,
    {
        let p = pts[i];
        let ghost t = pts@.take(i as int);
        let ghost t1 = pts@.take(i + 1);
        assert(t1 =~= t.push(p));
        let ghost ob = b;
        if p.lon < b.min_lon {
            b.min_lon = p.lon;
        }
        if p.lon > b.max_lon {
            b.max_lon = p.lon;
        }
        if p.lat < b.min_lat {
            b.min_lat = p.lat;
        }
        if p.lat > b.max_lat {
            b.max_lat = p.lat;
        }
        proof {
            let n = i as int;
            assert(t1[n] == p);
            assert forall|j: int| 0 <= j < t1.len() implies b.min_lon <= #[trigger] t1[j].lon <= b.max_lon
                && b.min_lat <= t1[j].lat <= b.max_lat by {
                if j < n {
                    assert(t1[j] == t[j]);
                }
            }
            if b.min_lon == ob.min_lon {
                let k = choose|k: int| 0 <= k < t.len() && #[trigger] t[k].lon == ob.min_lon;
                assert(t1[k] == t[k]);
            } else {
                assert(t1[n].lon == b.min_lon);
            }
            if b.max_lon == ob.max_lon {
                let k = choose|k: int| 0 <= k < t.len() && #[trigger] t[k].lon == ob.max_lon;
                assert(t1[k] == t[k]);
            } else {
                assert(t1[n].lon == b.max_lon);
            }
            if b.min_lat == ob.min_lat {
                let k = choose|k: int| 0 <= k < t.len() && #[trigger] t[k].lat == ob.min_lat;
                assert(t1[k] == t[k]);
            } else {
                assert(t1[n].lat == b.min_lat);
            }
            if b.max_lat == ob.max_lat {
                let k = choose|k: int| 0 <= k < t.len() && #[trigger] t[k].lat == ob.max_lat;
                assert(t1[k] == t[k]);
            } else {
                assert(t1[n].lat == b.max_lat);
            }
        }
        i = i + 1;
    }
    assert(pts@.take(pts@.len() as int) =~= pts@);
    Some(b)
}

} // verus!
