//! Query-side rules: parent filtering by layer rank and display-name choice.
use vstd::prelude::*;
use crate::models::admin::AdminHierarchy;
use crate::models::level::{level_layer, rank_of, AdminLevel, Layer};
use crate::models::names::NameMap;
use crate::models::geo::{Coord, GeoBbox};

verus! {

/// A parent level is shown with a result of `layer` only when it ranks strictly higher.
pub open spec fn shows_level(layer: Layer, l: AdminLevel) -> bool {
    rank_of(level_layer(l)) > rank_of(layer)
}

fn keep_if(e: Option<crate::models::admin::AdminEntry>, level: AdminLevel, layer: Layer) -> (r: Option<
    crate::models::admin::AdminEntry,
>)
    ensures
        r == (if shows_level(layer, level) { e } else { None }),
{
    if Layer::of_level(level).rank() > layer.rank() {
        e
    } else {
        None
    }
}

/// The parents shown with a result of `layer`: each slot whose level ranks
/// strictly above the layer is kept, the others are emptied.
pub fn filter_hierarchy(h: AdminHierarchy, layer: Layer) -> (r: AdminHierarchy)
    ensures
        forall|l: AdminLevel| #[trigger] r.slot(l) == (if shows_level(layer, l) { h.slot(l) } else { None }),
{
    AdminHierarchy {
        country: keep_if(h.country, AdminLevel::Country, layer),
        macro_region: keep_if(h.macro_region, AdminLevel::MacroRegion, layer),
        region: keep_if(h.region, AdminLevel::Region, layer),
        macro_county: keep_if(h.macro_county, AdminLevel::MacroCounty, layer),
        county: keep_if(h.county, AdminLevel::County, layer),
        local_admin: keep_if(h.local_admin, AdminLevel::LocalAdmin, layer),
        locality: keep_if(h.locality, AdminLevel::Locality, layer),
        borough: keep_if(h.borough, AdminLevel::Borough, layer),
        neighbourhood: keep_if(h.neighbourhood, AdminLevel::Neighbourhood, layer),
    }
}

/// Every parent shown with a result ranks strictly above the result's layer.
pub proof fn law_shown_parents_outrank(h: AdminHierarchy, layer: Layer, r: AdminHierarchy)
    requires
        forall|l: AdminLevel| #[trigger] r.slot(l) == (if shows_level(layer, l) { h.slot(l) } else { None }),
    ensures
        forall|l: AdminLevel|
            (#[trigger] r.slot(l)).is_some() ==> rank_of(level_layer(l)) > rank_of(layer),
{
}

/// The display name chosen from `names`: the preferred language if present,
/// else the default name, else some name of the map, else the empty string.
pub open spec fn is_display_name(names: Map<Seq<char>, Seq<char>>, lang: Option<Seq<char>>, r: Seq<char>) -> bool {
    if lang.is_some() && names.contains_key(lang.unwrap()) {
        r == names[lang.unwrap()]
    } else if names.contains_key("default"@) {
        r == names["default"@]
    } else if names == Map::<Seq<char>, Seq<char>>::empty() {
        r.len() == 0
    } else {
        exists|k: Seq<char>| #![auto] names.contains_key(k) && names[k] == r
    }
}

/// Pick the name to display for a preferred language.
pub fn display_name(names: &NameMap, lang: Option<&str>) -> (r: String)
    ensures
        is_display_name(names@, match lang {
            Some(l) => Some(l@),
            None => None,
        }, r@),
{
    match lang {
        Some(l) => {
            if let Some(n) = names.get(l) {
                return n.clone();
            }
        },
        None => {},
    }
    if let Some(n) = names.get("default") {
        return n.clone();
    }
    match names.any_value() {
        Some(n) => n.clone(),
        None => String::new(),
    }
}

/// The records found in the key-value store, in hit order; hits whose
/// record is missing are dropped.
pub fn keep_hydrated<T>(hits: Vec<Option<T>>) -> (r: Vec<T>)
    ensures
        r@ == hits@.filter(|h: Option<T>| h.is_some()).map_values(|h: Option<T>| h.unwrap()),
{
    let mut out: Vec<T> = Vec::new();
    let mut hits = hits;
    let ghost all = hits@;
    let mut taken: usize = 0;
    let n = hits.len();
    while hits.len() > 0
        invariant
            all.len() == n,
            taken + hits@.len() == all.len(),
            hits@ == all.skip(taken as int),
            out@ == all.take(taken as int).filter(|h: Option<T>| h.is_some()).map_values(
                |h: Option<T>| h.unwrap(),
            ),
        decreases hits@.len(),
    {
        let h = hits.remove(0);
        proof {
            let t1 = all.take(taken + 1);
            assert(t1.drop_last() =~= all.take(taken as int));
            assert(t1.last() == all[taken as int]);
            reveal(Seq::filter);
        }
        let ghost before = out@;
        match h {
            Some(p) => {
                out.push(p);
            },
            None => {},
        }
        proof {
            let t1 = all.take(taken + 1);
            let f0 = all.take(taken as int).filter(|h: Option<T>| h.is_some());
            let f1 = t1.filter(|h: Option<T>| h.is_some());
            if all[taken as int].is_some() {
                assert(f1 == f0.push(all[taken as int]));
                assert(out@ =~= f1.map_values(|h: Option<T>| h.unwrap()));
            } else {
                assert(f1 == f0);
            }
            assert(hits@ =~= all.skip(taken + 1));
        }
        taken = taken + 1;
    }
    assert(all.take(taken as int) =~= all);
    out
}

/// Most results a search returns.
pub const MAX_SEARCH_SIZE: usize = 40;

/// Most results an autocomplete returns.
pub const MAX_AUTOCOMPLETE_SIZE: usize = 20;

/// Results returned when the request names no size.
pub const DEFAULT_SIZE: usize = 10;

/// Weight of the focus-point decay, in thousandths, when the request names none.
pub const DEFAULT_FOCUS_WEIGHT: u32 = 3000;

/// A forward or autocomplete request, in the library's units.
#[derive(Debug, Clone)]
pub struct SearchParams {
    pub text: String,
    pub lang: Option<String>,
    pub bbox: Option<GeoBbox>,
    pub focus: Option<Coord>,
    /// Focus weight in thousandths.
    pub focus_weight: Option<u32>,
    pub layers: Option<Vec<String>>,
    pub size: Option<usize>,
}

/// What the text-index query is built from.
#[derive(Debug, Clone)]
pub struct SearchPlan {
    pub text: String,
    /// `name_all`, or `name_all.autocomplete` for autocomplete.
    pub name_field: String,
    pub size: usize,
    pub layers: Option<Vec<String>>,
    /// Corners of the bounding-box filter: (min lon, max lat) and (max lon, min lat).
    pub top_left: Option<Coord>,
    pub bottom_right: Option<Coord>,
    pub focus: Option<Coord>,
    /// Focus weight in thousandths.
    pub focus_weight: u32,
}

fn copy_layers(l: &Option<Vec<String>>) -> (r: Option<Vec<String>>)
    ensures
        r.is_some() == l.is_some(),
        r.is_some() ==> r.unwrap()@ == l.unwrap()@,
{
    match l {
        None => None,
        Some(v) => {
            let mut out: Vec<String> = Vec::new();
            let mut i: usize = 0;
            while i < v.len()
                invariant
                    i <= v@.len(),
                    out@ == v@.take(i as int),
                decreases v@.len() - i,
            {
                out.push(v[i].clone());
                assert(v@.take(i + 1) =~= v@.take(i as int).push(v@[i as int]));
                i = i + 1;
            }
            assert(v@.take(v@.len() as int) =~= v@);
            Some(out)
        },
    }
}

/// Plan a forward search or an autocomplete: the size is capped (40 for a
/// search, 20 for an autocomplete; 10 when none is asked), the name field
/// depends on the kind, and the bounding box gives the filter's corners.
pub fn plan_search(p: &SearchParams, autocomplete: bool) -> (r: SearchPlan)
    ensures
        r.text@ == p.text@,
        r.name_field@ == (if autocomplete { "name_all.autocomplete"@ } else { "name_all"@ }),
        r.size == ({
            let asked = match p.size {
                Some(n) => n,
                None => DEFAULT_SIZE,
            };
            let cap = if autocomplete { MAX_AUTOCOMPLETE_SIZE } else { MAX_SEARCH_SIZE };
            if asked < cap { asked } else { cap }
        }),
        r.layers.is_some() == p.layers.is_some(),
        r.layers.is_some() ==> r.layers.unwrap()@ == p.layers.unwrap()@,
        r.top_left == (match p.bbox {
            Some(b) => Some(Coord { lon: b.min_lon, lat: b.max_lat }),
            None => None,
        }),
        r.bottom_right == (match p.bbox {
            Some(b) => Some(Coord { lon: b.max_lon, lat: b.min_lat }),
            None => None,
        }),
        r.focus == p.focus,
        r.focus_weight == (match p.focus_weight {
            Some(w) => w,
            None => DEFAULT_FOCUS_WEIGHT,
        }),
{
    let asked = match p.size {
        Some(n) => n,
        None => DEFAULT_SIZE,
    };
    let cap = if autocomplete { MAX_AUTOCOMPLETE_SIZE } else { MAX_SEARCH_SIZE };
    let size = if asked < cap { asked } else { cap };
    let (top_left, bottom_right) = match p.bbox {
        Some(b) => (Some(Coord { lon: b.min_lon, lat: b.max_lat }), Some(Coord { lon: b.max_lon, lat: b.min_lat })),
        None => (None, None),
    };
    SearchPlan {
        text: p.text.clone(),
        name_field: if autocomplete { "name_all.autocomplete".to_owned() } else { "name_all".to_owned() },
        size,
        layers: copy_layers(&p.layers),
        top_left,
        bottom_right,
        focus: p.focus,
        focus_weight: match p.focus_weight {
            Some(w) => w,
            None => DEFAULT_FOCUS_WEIGHT,
        },
    }
}

/// The number of results a reverse query returns: as asked (10 when none
/// is asked), at most 40.
pub fn reverse_size(size: Option<usize>) -> (r: usize)
    ensures
        r == ({
            let asked = match size {
                Some(n) => n,
                None => DEFAULT_SIZE,
            };
            if asked < MAX_SEARCH_SIZE { asked } else { MAX_SEARCH_SIZE }
        }),
{
    let asked = match size {
        Some(n) => n,
        None => DEFAULT_SIZE,
    };
    if asked < MAX_SEARCH_SIZE {
        asked
    } else {
        MAX_SEARCH_SIZE
    }
}

} // verus!
