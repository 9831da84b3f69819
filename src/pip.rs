//! Assembly of an administrative hierarchy from the boundaries that contain a point.
use vstd::prelude::*;
use crate::models::admin::{primary_name, AdminArea, AdminEntry, AdminHierarchy};
use crate::models::level::{level_at, level_index, AdminLevel};

verus! {

/// A boundary that contains the looked-up point, with its unsigned area
/// in any fixed unit (only the order of areas matters).
#[derive(Debug, Clone)]
pub struct PipCandidate {
    pub area: AdminArea,
    pub area_size: u64,
}

/// `e` is the hierarchy entry made from area `a`.
pub open spec fn entry_for(e: AdminEntry, a: AdminArea) -> bool {
    &&& primary_name(a.name@, e.name)
    &&& e.abbr == a.abbr
    &&& e.id == Some(a.osm_id)
    &&& e.bbox == a.bbox
    &&& e.names@ == a.name@
}

/// The area carries a non-empty ISO country code.
pub open spec fn has_iso(a: AdminArea) -> bool {
    a.iso_country_code.is_some() && a.iso_country_code.unwrap()@.len() > 0
}

/// Candidate `i` survives the level limit.
pub open spec fn below_limit(c: Seq<PipCandidate>, limit: Option<AdminLevel>, i: int) -> bool {
    limit.is_none() || level_index(c[i].area.level) < level_index(limit.unwrap())
}

/// Candidate `i` gives the forced country code: among the candidates under the
/// limit that carry an ISO code, it is the most specific, and the first of those.
pub open spec fn is_forcing(c: Seq<PipCandidate>, limit: Option<AdminLevel>, i: int) -> bool {
    &&& 0 <= i < c.len()
    &&& below_limit(c, limit, i)
    &&& has_iso(c[i].area)
    &&& forall|j: int|
        0 <= j < c.len() && below_limit(c, limit, j) && has_iso(#[trigger] c[j].area) ==> level_index(
            c[j].area.level,
        ) < level_index(c[i].area.level) || (level_index(c[j].area.level) == level_index(
            c[i].area.level,
        ) && i <= j)
}

/// Some candidate under the limit carries an ISO code.
pub open spec fn any_iso(c: Seq<PipCandidate>, limit: Option<AdminLevel>) -> bool {
    exists|j: int| 0 <= j < c.len() && below_limit(c, limit, j) && has_iso(#[trigger] c[j].area)
}

/// The forced country code, when some candidate carries one.
pub open spec fn forced_code(c: Seq<PipCandidate>, limit: Option<AdminLevel>) -> Option<Seq<char>> {
    if exists|i: int| is_forcing(c, limit, i) {
        Some(c[choose|i: int| is_forcing(c, limit, i)].area.iso_country_code.unwrap()@)
    } else {
        None
    }
}

/// The area's ISO code or abbreviation equals `code`.
pub open spec fn matches_code(a: AdminArea, code: Seq<char>) -> bool {
    (a.iso_country_code.is_some() && a.iso_country_code.unwrap()@ == code) || (a.abbr.is_some()
        && a.abbr.unwrap()@ == code)
}

/// Candidate `i` takes part in the hierarchy: under the limit, and, at country
/// level, agreeing with the forced country code when there is one.
pub open spec fn kept(c: Seq<PipCandidate>, limit: Option<AdminLevel>, i: int) -> bool {
    &&& 0 <= i < c.len()
    &&& below_limit(c, limit, i)
    &&& (c[i].area.level == AdminLevel::Country && forced_code(c, limit).is_some()
        ==> matches_code(c[i].area, forced_code(c, limit).unwrap()))
}

/// Candidate `w` is the pick for `level`: kept, at that level, of least area,
/// and the first among those of equal area.
pub open spec fn is_pick(c: Seq<PipCandidate>, limit: Option<AdminLevel>, level: AdminLevel, w: int) -> bool {
    &&& kept(c, limit, w)
    &&& c[w].area.level == level
    &&& forall|j: int|
        kept(c, limit, j) && #[trigger] c[j].area.level == level ==> c[w].area_size < c[j].area_size
            || (c[w].area_size == c[j].area_size && w <= j)
}

/// The hierarchy that the candidates give.
pub open spec fn is_assembled(h: AdminHierarchy, c: Seq<PipCandidate>, limit: Option<AdminLevel>) -> bool {
    forall|l: AdminLevel|
        {
            &&& (#[trigger] h.slot(l)).is_some() == (exists|j: int| kept(c, limit, j) && c[j].area.level == l)
            &&& h.slot(l).is_some() ==> exists|w: int|
                is_pick(c, limit, l, w) && entry_for(h.slot(l).unwrap(), #[trigger] c[w].area)
        }
}

fn level_below(level: AdminLevel, limit: &Option<AdminLevel>) -> (r: bool)
    ensures
        r == (limit.is_none() || level_index(level) < level_index(limit.unwrap())),
{
    match limit {
        None => true,
        Some(l) => level.index() < l.index(),
    }
}

fn opt_eq(a: &Option<String>, code: &String) -> (r: bool)
    ensures
        r == (a.is_some() && a.unwrap()@ == code@),
{
    match a {
        Some(s) => *s == *code,
        None => false,
    }
}

/// Index of the candidate that gives the forced country code, if any.
fn find_forcing(c: &Vec<PipCandidate>, limit: &Option<AdminLevel>) -> (r: Option<usize>)
    ensures
        r.is_some() ==> is_forcing(c@, *limit, r.unwrap() as int),
        r.is_none() ==> !any_iso(c@, *limit),
{
    let mut best: Option<usize> = None;
    let mut i: usize = 0;
    while i < c.len()
        invariant
            i <= c@.len(),
            best.is_some() ==> best.unwrap() < i && below_limit(c@, *limit, best.unwrap() as int)
                && has_iso(c@[best.unwrap() as int].area),
            forall|j: int|
                0 <= j < i && below_limit(c@, *limit, j) && has_iso(#[trigger] c@[j].area) ==> best.is_some()
                    && (level_index(c@[j].area.level) < level_index(c@[best.unwrap() as int].area.level)
                    || (level_index(c@[j].area.level) == level_index(
                    c@[best.unwrap() as int].area.level,
                ) && best.unwrap() <= j)),
        decreases c@.len() - i,
    {
        let a = &c[i].area;
        let iso_ok = match &a.iso_country_code {
            Some(s) => !(*s == String::new()),
            None => false,
        };
        proof {
            if a.iso_country_code.is_some() && a.iso_country_code.unwrap()@.len() == 0 {
                assert(a.iso_country_code.unwrap()@ =~= Seq::<char>::empty());
            }
        }
        if iso_ok && level_below(a.level, limit) {
            match best {
                None => {
                    best = Some(i);
                },
                Some(b) => {
                    if a.level.index() > c[b].area.level.index() {
                        best = Some(i);
                    }
                },
            }
        }
        i = i + 1;
    }
    best
}

proof fn lemma_forcing_unique(c: Seq<PipCandidate>, limit: Option<AdminLevel>, i: int, j: int)
    requires
        is_forcing(c, limit, i),
        is_forcing(c, limit, j),
    ensures
        i == j,
{
    assert(has_iso(c[j].area));
    assert(has_iso(c[i].area));
}

proof fn lemma_forced_code(c: Seq<PipCandidate>, limit: Option<AdminLevel>, f: Option<usize>)
    requires
        f.is_some() ==> is_forcing(c, limit, f.unwrap() as int),
        f.is_none() ==> !any_iso(c, limit),
    ensures
        f.is_some() ==> forced_code(c, limit) == Some(
            c[f.unwrap() as int].area.iso_country_code.unwrap()@,
        ),
        f.is_none() ==> forced_code(c, limit).is_none(),
{
    if f.is_some() {
        let i = choose|i: int| is_forcing(c, limit, i);
        lemma_forcing_unique(c, limit, i, f.unwrap() as int);
    } else {
        if exists|i: int| is_forcing(c, limit, i) {
            let i = choose|i: int| is_forcing(c, limit, i);
            assert(below_limit(c, limit, i) && has_iso(c[i].area));
        }
    }
}

proof fn lemma_forced_at(c: Seq<PipCandidate>, limit: Option<AdminLevel>, f: int)
    requires
        is_forcing(c, limit, f),
    ensures
        forced_code(c, limit) == Some(c[f].area.iso_country_code.unwrap()@),
{
    let i = choose|i: int| is_forcing(c, limit, i);
    lemma_forcing_unique(c, limit, i, f);
}

fn is_kept(c: &Vec<PipCandidate>, limit: &Option<AdminLevel>, code: &Option<String>, i: usize) -> (r: bool)
    requires
        i < c@.len(),
        code.is_some() == forced_code(c@, *limit).is_some(),
        code.is_some() ==> code.unwrap()@ == forced_code(c@, *limit).unwrap(),
    ensures
        r == kept(c@, *limit, i as int),
{
    let a = &c[i].area;
    if !level_below(a.level, limit) {
        return false;
    }
    match code {
        None => true,
        Some(f) => {
            if a.level == AdminLevel::Country {
                opt_eq(&a.iso_country_code, f) || opt_eq(&a.abbr, f)
            } else {
                true
            }
        },
    }
}

/// The pick for `level`, if any candidate is kept there.
fn pick_at_level(
    c: &Vec<PipCandidate>,
    limit: &Option<AdminLevel>,
    code: &Option<String>,
    level: AdminLevel,
) -> (r: Option<usize>)
    requires
        code.is_some() == forced_code(c@, *limit).is_some(),
        code.is_some() ==> code.unwrap()@ == forced_code(c@, *limit).unwrap(),
    ensures
        r.is_some() ==> r.unwrap() < c@.len() && is_pick(c@, *limit, level, r.unwrap() as int),
        r.is_none() ==> !exists|j: int| kept(c@, *limit, j) && c@[j].area.level == level,
{
    let mut best: Option<usize> = None;
    let mut i: usize = 0;
    while i < c.len()
        invariant
            i <= c@.len(),
            code.is_some() == forced_code(c@, *limit).is_some(),
            code.is_some() ==> code.unwrap()@ == forced_code(c@, *limit).unwrap(),
            best.is_some() ==> best.unwrap() < i && kept(c@, *limit, best.unwrap() as int)
                && c@[best.unwrap() as int].area.level == level,
            forall|j: int|
                0 <= j < i && kept(c@, *limit, j) && #[trigger] c@[j].area.level == level ==> best.is_some()
                    && (c@[best.unwrap() as int].area_size < c@[j].area_size || (
                c@[best.unwrap() as int].area_size == c@[j].area_size && best.unwrap() <= j)),
        decreases c@.len() - i,
    {
        if c[i].area.level == level && is_kept(c, limit, code, i) {
            match best {
                None => {
                    best = Some(i);
                },
                Some(b) => {
                    if c[i].area_size < c[b].area_size {
                        best = Some(i);
                    }
                },
            }
        }
        i = i + 1;
    }
    best
}

/// Build the hierarchy for a point from the boundaries that contain it.
///
/// Boundaries at or below `limit_level` are ignored. The most specific
/// boundary carrying an ISO country code forces the country: country-level
/// boundaries whose code and abbreviation differ from it are dropped. Each
/// level then takes the boundary of least area.
pub fn assemble_hierarchy(c: &Vec<PipCandidate>, limit_level: Option<AdminLevel>) -> (h: AdminHierarchy)
    ensures
        is_assembled(h, c@, limit_level),
{
    let limit = limit_level;
    let forcing = find_forcing(c, &limit);
    proof {
        lemma_forced_code(c@, limit, forcing);
    }
    let code: Option<String> = match forcing {
        Some(f) => c[f].area.iso_country_code.clone(),
        None => None,
    };
    let levels = AdminLevel::all();
    let mut h = AdminHierarchy::empty();
    let mut li: usize = 0;
    while li < 9
        invariant
            li <= 9,
            levels@.len() == 9,
            forall|k: int| 0 <= k < 9 ==> #[trigger] levels@[k] == level_at(k),
            code.is_some() == forced_code(c@, limit).is_some(),
            code.is_some() ==> code.unwrap()@ == forced_code(c@, limit).unwrap(),
            forall|l: AdminLevel|
                level_index(l) >= li ==> (#[trigger] h.slot(l)).is_none(),
            forall|l: AdminLevel|
                level_index(l) < li ==> {
                    &&& (#[trigger] h.slot(l)).is_some() == (exists|j: int|
                        kept(c@, limit, j) && c@[j].area.level == l)
                    &&& h.slot(l).is_some() ==> exists|w: int|
                        is_pick(c@, limit, l, w) && entry_for(h.slot(l).unwrap(), #[trigger] c@[w].area)
                },
        decreases 9 - li,
    {
        let level = levels[li];
        assert(level_index(level) == li) by {
            crate::models::level::lemma_level_at_index(level);
        }
        match pick_at_level(c, &limit, &code, level) {
            Some(w) => {
                let e = AdminEntry::from_area(&c[w].area);
                h.set(level, e);
                assert(entry_for(h.slot(level).unwrap(), c@[w as int].area));
            },
            None => {},
        }
        proof {
            assert forall|l: AdminLevel| level_index(l) == li implies l == level by {
                crate::models::level::lemma_level_at_index(l);
            }
        }
        li = li + 1;
    }
    proof {
        assert forall|l: AdminLevel| level_index(l) < 9 by {}
    }
    h
}

/// Enclaves: when a kept boundary has a smaller area than every other kept
/// boundary of its level, the hierarchy holds that boundary at its level.
pub proof fn law_smallest_area_wins(
    h: AdminHierarchy,
    c: Seq<PipCandidate>,
    limit: Option<AdminLevel>,
    e: int,
)
    requires
        is_assembled(h, c, limit),
        kept(c, limit, e),
        forall|j: int|
            kept(c, limit, j) && j != e && #[trigger] c[j].area.level == c[e].area.level
                ==> c[e].area_size < c[j].area_size,
    ensures
        h.slot(c[e].area.level).is_some(),
        entry_for(h.slot(c[e].area.level).unwrap(), c[e].area),
{
    let lv = c[e].area.level;
    assert(h.slot(lv).is_some());
    let w = choose|w: int| is_pick(c, limit, lv, w) && entry_for(h.slot(lv).unwrap(), #[trigger] c[w].area);
    if w != e {
        assert(c[e].area.level == lv);
        assert(c[w].area_size < c[e].area_size || (c[w].area_size == c[e].area_size && w <= e));
    }
}

/// Country enforcement: when a boundary more specific than a country carries
/// code `code`, every such boundary carries that same code, and a country
/// boundary matching `code` contains the point, then the country slot holds a
/// country that matches `code`, even where other countries overlap the point.
pub proof fn law_country_follows_region_code(
    h: AdminHierarchy,
    c: Seq<PipCandidate>,
    limit: Option<AdminLevel>,
    code: Seq<char>,
    r: int,
    a: int,
)
    requires
        is_assembled(h, c, limit),
        0 <= r < c.len(),
        below_limit(c, limit, r),
        c[r].area.level != AdminLevel::Country,
        has_iso(c[r].area),
        c[r].area.iso_country_code.unwrap()@ == code,
        forall|j: int|
            0 <= j < c.len() && below_limit(c, limit, j) && has_iso(#[trigger] c[j].area)
                && c[j].area.level != AdminLevel::Country ==> c[j].area.iso_country_code.unwrap()@
                == code,
        0 <= a < c.len(),
        below_limit(c, limit, a),
        c[a].area.level == AdminLevel::Country,
        matches_code(c[a].area, code),
    ensures
        h.slot(AdminLevel::Country).is_some(),
        exists|w: int|
            0 <= w < c.len() && c[w].area.level == AdminLevel::Country && matches_code(c[w].area, code)
                && entry_for(h.slot(AdminLevel::Country).unwrap(), #[trigger] c[w].area),
{
    assert(any_iso(c, limit));
    let f = forcing_witness(c, limit);
    assert(level_index(c[r].area.level) <= level_index(c[f].area.level));
    assert(c[f].area.level != AdminLevel::Country);
    lemma_forced_at(c, limit, f);
    assert(forced_code(c, limit) == Some(code));
    assert(kept(c, limit, a));
    assert(h.slot(AdminLevel::Country).is_some());
    let w = choose|w: int|
        is_pick(c, limit, AdminLevel::Country, w) && entry_for(
            h.slot(AdminLevel::Country).unwrap(),
            #[trigger] c[w].area,
        );
    assert(kept(c, limit, w));
}

/// A forcing candidate exists whenever some candidate under the limit carries a code.
proof fn forcing_witness(c: Seq<PipCandidate>, limit: Option<AdminLevel>) -> (f: int)
    requires
        any_iso(c, limit),
    ensures
        is_forcing(c, limit, f),
    decreases c.len(),
{
    let n = c.len() - 1;
    let d = c.drop_last();
    if any_iso(d, limit) {
        let g = forcing_witness(d, limit);
        assert forall|j: int| 0 <= j < d.len() implies #[trigger] d[j] == c[j] by {}
        assert(below_limit(c, limit, g) == below_limit(d, limit, g));
        if below_limit(c, limit, n) && has_iso(c[n].area) && level_index(c[n].area.level) > level_index(
            c[g].area.level,
        ) {
            assert forall|j: int|
                0 <= j < c.len() && below_limit(c, limit, j) && has_iso(#[trigger] c[j].area) implies level_index(
                c[j].area.level,
            ) < level_index(c[n].area.level) || (level_index(c[j].area.level) == level_index(
                c[n].area.level,
            ) && n <= j) by {
                if j < n {
                    assert(d[j] == c[j]);
                    assert(below_limit(d, limit, j));
                }
            }
            n
        } else {
            assert forall|j: int|
                0 <= j < c.len() && below_limit(c, limit, j) && has_iso(#[trigger] c[j].area) implies level_index(
                c[j].area.level,
            ) < level_index(c[g].area.level) || (level_index(c[j].area.level) == level_index(
                c[g].area.level,
            ) && g <= j) by {
                if j < n {
                    assert(d[j] == c[j]);
                    assert(below_limit(d, limit, j));
                }
            }
            g
        }
    } else {
        let j0 = choose|j: int| 0 <= j < c.len() && below_limit(c, limit, j) && has_iso(#[trigger] c[j].area);
        if j0 < n {
            assert(d[j0] == c[j0]);
            assert(below_limit(d, limit, j0));
        }
        assert forall|j: int|
            0 <= j < c.len() && below_limit(c, limit, j) && has_iso(#[trigger] c[j].area) implies level_index(
            c[j].area.level,
        ) < level_index(c[n].area.level) || (level_index(c[j].area.level) == level_index(
            c[n].area.level,
        ) && n <= j) by {
            if j < n {
                assert(d[j] == c[j]);
                assert(below_limit(d, limit, j));
            }
        }
        n
    }
}

/// A point inside exactly one country boundary, which carries an ISO code
/// that every boundary carrying a code agrees with, gets that country's
/// abbreviation in the country slot.
pub proof fn law_single_country_abbr(h: AdminHierarchy, c: Seq<PipCandidate>, limit: Option<AdminLevel>, k: int)
    requires
        is_assembled(h, c, limit),
        0 <= k < c.len(),
        below_limit(c, limit, k),
        c[k].area.level == AdminLevel::Country,
        has_iso(c[k].area),
        forall|j: int|
            0 <= j < c.len() && j != k && below_limit(c, limit, j) ==> #[trigger] c[j].area.level
                != AdminLevel::Country,
        forall|j: int|
            0 <= j < c.len() && below_limit(c, limit, j) && has_iso(#[trigger] c[j].area)
                ==> c[j].area.iso_country_code.unwrap()@ == c[k].area.iso_country_code.unwrap()@,
    ensures
        h.slot(AdminLevel::Country).is_some(),
        h.slot(AdminLevel::Country).unwrap().abbr == c[k].area.abbr,
        entry_for(h.slot(AdminLevel::Country).unwrap(), c[k].area),
{
    let code = c[k].area.iso_country_code.unwrap()@;
    assert(any_iso(c, limit));
    let f = forcing_witness(c, limit);
    lemma_forced_at(c, limit, f);
    assert(kept(c, limit, k));
    let w = choose|w: int|
        is_pick(c, limit, AdminLevel::Country, w) && entry_for(
            h.slot(AdminLevel::Country).unwrap(),
            #[trigger] c[w].area,
        );
    if w != k {
        assert(c[w].area.level == AdminLevel::Country);
    }
}

} // verus!
