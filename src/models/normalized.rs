//! Places with parents referenced by key-value store id, and their resolution.
use vstd::prelude::*;
use super::admin::{admin_id, admin_key, same_entry, AdminEntry, AdminHierarchy};
use super::geo::{Coord, GeoBbox};
use super::level::{level_at, level_index, AdminLevel, Layer, OsmType};
use super::names::NameMap;
use super::place::{Address, Place};

verus! {

/// Parent admin ids (`"relation/<osm_id>"`), one optional slot per level.
#[derive(Debug, Clone)]
pub struct AdminHierarchyIds {
    pub country: Option<String>,
    pub macro_region: Option<String>,
    pub region: Option<String>,
    pub macro_county: Option<String>,
    pub county: Option<String>,
    pub local_admin: Option<String>,
    pub locality: Option<String>,
    pub borough: Option<String>,
    pub neighbourhood: Option<String>,
}

impl AdminHierarchyIds {
    /// The id held for a level.
    pub open spec fn slot(&self, level: AdminLevel) -> Option<String> {
        match level {
            AdminLevel::Country => self.country,
            AdminLevel::MacroRegion => self.macro_region,
            AdminLevel::Region => self.region,
            AdminLevel::MacroCounty => self.macro_county,
            AdminLevel::County => self.county,
            AdminLevel::LocalAdmin => self.local_admin,
            AdminLevel::Locality => self.locality,
            AdminLevel::Borough => self.borough,
            AdminLevel::Neighbourhood => self.neighbourhood,
        }
    }

    /// The id for a level, if set.
    pub fn get(&self, level: AdminLevel) -> (r: Option<&String>)
        ensures
            r.is_some() == self.slot(level).is_some(),
            r.is_some() ==> *r.unwrap() == self.slot(level).unwrap(),
    {
        match level {
            AdminLevel::Country => self.country.as_ref(),
            AdminLevel::MacroRegion => self.macro_region.as_ref(),
            AdminLevel::Region => self.region.as_ref(),
            AdminLevel::MacroCounty => self.macro_county.as_ref(),
            AdminLevel::County => self.county.as_ref(),
            AdminLevel::LocalAdmin => self.local_admin.as_ref(),
            AdminLevel::Locality => self.locality.as_ref(),
            AdminLevel::Borough => self.borough.as_ref(),
            AdminLevel::Neighbourhood => self.neighbourhood.as_ref(),
        }
    }
}

/// The id slot that an entry slot becomes: the admin key of its id, if it has one.
pub open spec fn id_slot(e: Option<AdminEntry>) -> Option<Seq<char>> {
    if e.is_some() && e.unwrap().id.is_some() {
        Some(admin_key(e.unwrap().id.unwrap() as int))
    } else {
        None
    }
}

/// View of an id slot.
pub open spec fn opt_view(s: Option<String>) -> Option<Seq<char>> {
    if s.is_some() {
        Some(s.unwrap()@)
    } else {
        None
    }
}

fn entry_id(e: &Option<AdminEntry>) -> (r: Option<String>)
    ensures
        opt_view(r) == id_slot(*e),
{
    match e {
        Some(a) => match a.id {
            Some(id) => Some(admin_id(id)),
            None => None,
        },
        None => None,
    }
}

/// The id form of a hierarchy.
pub fn hierarchy_ids(h: &AdminHierarchy) -> (r: AdminHierarchyIds)
    ensures
        forall|l: AdminLevel| opt_view(#[trigger] r.slot(l)) == id_slot(h.slot(l)),
{
    AdminHierarchyIds {
        country: entry_id(&h.country),
        macro_region: entry_id(&h.macro_region),
        region: entry_id(&h.region),
        macro_county: entry_id(&h.macro_county),
        county: entry_id(&h.county),
        local_admin: entry_id(&h.local_admin),
        locality: entry_id(&h.locality),
        borough: entry_id(&h.borough),
        neighbourhood: entry_id(&h.neighbourhood),
    }
}

/// A place as stored in the key-value store: parents by id.
#[derive(Debug, Clone)]
pub struct NormalizedPlace {
    pub source_id: String,
    pub source_file: String,
    pub import_timestamp: i64,
    pub osm_type: OsmType,
    pub osm_id: i64,
    pub wikidata_id: Option<String>,
    pub importance: Option<u32>,
    pub layer: Layer,
    pub categories: Vec<String>,
    pub name: NameMap,
    pub phrase: Option<String>,
    pub address: Option<Address>,
    pub center_point: Coord,
    pub bbox: Option<GeoBbox>,
    pub parent: AdminHierarchyIds,
}

impl NormalizedPlace {
    /// Replace each parent entry by its id; everything else is kept.
    pub fn from_place(place: Place) -> (r: NormalizedPlace)
        ensures
            r.source_id == place.source_id,
            r.source_file == place.source_file,
            r.import_timestamp == place.import_timestamp,
            r.osm_type == place.osm_type,
            r.osm_id == place.osm_id,
            r.wikidata_id == place.wikidata_id,
            r.importance == place.importance,
            r.layer == place.layer,
            r.categories == place.categories,
            r.name == place.name,
            r.phrase == place.phrase,
            r.address == place.address,
            r.center_point == place.center_point,
            r.bbox == place.bbox,
            forall|l: AdminLevel| opt_view(#[trigger] r.parent.slot(l)) == id_slot(place.parent.slot(l)),
    {
        let parent = hierarchy_ids(&place.parent);
        NormalizedPlace {
            source_id: place.source_id,
            source_file: place.source_file,
            import_timestamp: place.import_timestamp,
            osm_type: place.osm_type,
            osm_id: place.osm_id,
            wikidata_id: place.wikidata_id,
            importance: place.importance,
            layer: place.layer,
            categories: place.categories,
            name: place.name,
            phrase: place.phrase,
            address: place.address,
            center_point: place.center_point,
            bbox: place.bbox,
            parent,
        }
    }
}

/// Fetched admin records: each key appears once.
pub open spec fn records_distinct(recs: Seq<(String, AdminEntry)>) -> bool {
    forall|i: int, j: int|
        0 <= i < recs.len() && 0 <= j < recs.len() && i != j ==> #[trigger] recs[i].0@ != #[trigger] recs[j].0@
}

/// Record `i` is stored under key `k`.
pub open spec fn record_at(recs: Seq<(String, AdminEntry)>, k: Seq<char>, i: int) -> bool {
    0 <= i < recs.len() && recs[i].0@ == k
}

fn find_record(recs: &Vec<(String, AdminEntry)>, key: &String) -> (r: Option<usize>)
    ensures
        r.is_some() ==> record_at(recs@, key@, r.unwrap() as int),
        r.is_none() ==> forall|i: int| !#[trigger] record_at(recs@, key@, i),
{
    let mut i: usize = 0;
    while i < recs.len()
        invariant
            i <= recs@.len(),
            forall|j: int| 0 <= j < i ==> !#[trigger] record_at(recs@, key@, j),
        decreases recs@.len() - i,
    {
        if recs[i].0 == *key {
            return Some(i);
        }
        i = i + 1;
    }
    None
}

/// The entry resolved for an id slot: the record under that id, if fetched.
pub open spec fn resolved(recs: Seq<(String, AdminEntry)>, id: Option<String>, e: Option<AdminEntry>) -> bool {
    if id.is_some() && exists|i: int| #[trigger] record_at(recs, id.unwrap()@, i) {
        e.is_some() && exists|i: int|
            #[trigger] record_at(recs, id.unwrap()@, i) && same_entry(e.unwrap(), recs[i].1) && e.unwrap().names@
                == recs[i].1.names@
    } else {
        e.is_none()
    }
}

fn resolve_slot(recs: &Vec<(String, AdminEntry)>, id: &Option<String>) -> (r: Option<AdminEntry>)
    ensures
        resolved(recs@, *id, r),
{
    match id {
        None => None,
        Some(k) => match find_record(recs, k) {
            Some(i) => Some(recs[i].1.copied()),
            None => None,
        },
    }
}

/// Resolve a hierarchy of ids against fetched admin records; ids with no
/// record leave their slot empty.
pub fn resolve_hierarchy(ids: &AdminHierarchyIds, recs: &Vec<(String, AdminEntry)>) -> (h: AdminHierarchy)
    ensures
        forall|l: AdminLevel| resolved(recs@, ids.slot(l), #[trigger] h.slot(l)),
{
    AdminHierarchy {
        country: resolve_slot(recs, &ids.country),
        macro_region: resolve_slot(recs, &ids.macro_region),
        region: resolve_slot(recs, &ids.region),
        macro_county: resolve_slot(recs, &ids.macro_county),
        county: resolve_slot(recs, &ids.county),
        local_admin: resolve_slot(recs, &ids.local_admin),
        locality: resolve_slot(recs, &ids.locality),
        borough: resolve_slot(recs, &ids.borough),
        neighbourhood: resolve_slot(recs, &ids.neighbourhood),
    }
}

/// The admin records a place's parents are stored under: each parent entry
/// with an id, keyed by `"relation/<id>"`, in level order.
pub fn admin_records(h: &AdminHierarchy) -> (r: Vec<(String, AdminEntry)>)
    ensures
        forall|l: AdminLevel|
            #![trigger h.slot(l)]
            id_slot(h.slot(l)).is_some() ==> exists|i: int|
                #[trigger] record_at(r@, id_slot(h.slot(l)).unwrap(), i) && same_entry(r@[i].1, h.slot(l).unwrap())
                    && r@[i].1.names@ == h.slot(l).unwrap().names@,
{
    let levels = AdminLevel::all();
    let mut out: Vec<(String, AdminEntry)> = Vec::new();
    let mut k: usize = 0;
    while k < 9
        invariant
            k <= 9,
            levels@.len() == 9,
            forall|j: int| 0 <= j < 9 ==> #[trigger] levels@[j] == level_at(j),
            forall|l: AdminLevel|
                #![trigger h.slot(l)]
                level_index(l) < k && id_slot(h.slot(l)).is_some() ==> exists|i: int|
                    #[trigger] record_at(out@, id_slot(h.slot(l)).unwrap(), i) && same_entry(
                        out@[i].1,
                        h.slot(l).unwrap(),
                    ) && out@[i].1.names@ == h.slot(l).unwrap().names@,
        decreases 9 - k,
    {
        let level = levels[k];
        proof {
            crate::models::level::lemma_level_at_index(level);
        }
        let ghost before = out@;
        match h.get(level) {
            Some(e) => match e.id {
                Some(id) => {
                    out.push((admin_id(id), e.copied()));
                },
                None => {},
            },
            None => {},
        }
        proof {
            assert forall|l: AdminLevel|
                #![trigger h.slot(l)]
                level_index(l) < k + 1 && id_slot(h.slot(l)).is_some() implies exists|i: int|
                    #[trigger] record_at(out@, id_slot(h.slot(l)).unwrap(), i) && same_entry(
                        out@[i].1,
                        h.slot(l).unwrap(),
                    ) && out@[i].1.names@ == h.slot(l).unwrap().names@ by {
                crate::models::level::lemma_level_at_index(l);
                if level_index(l) < k {
                    let i = choose|i: int|
                        #[trigger] record_at(before, id_slot(h.slot(l)).unwrap(), i) && same_entry(
                            before[i].1,
                            h.slot(l).unwrap(),
                        ) && before[i].1.names@ == h.slot(l).unwrap().names@;
                    assert(out@[i] == before[i]);
                    assert(record_at(out@, id_slot(h.slot(l)).unwrap(), i));
                } else {
                    assert(l == level);
                    assert(record_at(out@, id_slot(h.slot(l)).unwrap(), before.len() as int));
                }
            }
        }
        k = k + 1;
    }
    proof {
        assert forall|l: AdminLevel| level_index(l) < 9 by {}
    }
    out
}

/// Every parent a normalized place refers to is among the admin records
/// written for it: for each level whose id slot is set, a record is stored
/// under that id.
pub proof fn law_parent_ids_are_recorded(
    h: AdminHierarchy,
    ids: AdminHierarchyIds,
    recs: Seq<(String, AdminEntry)>,
)
    requires
        forall|l: AdminLevel| opt_view(#[trigger] ids.slot(l)) == id_slot(h.slot(l)),
        forall|l: AdminLevel|
            #![trigger h.slot(l)]
            id_slot(h.slot(l)).is_some() ==> exists|i: int|
                #[trigger] record_at(recs, id_slot(h.slot(l)).unwrap(), i) && same_entry(recs[i].1, h.slot(l).unwrap())
                    && recs[i].1.names@ == h.slot(l).unwrap().names@,
    ensures
        forall|l: AdminLevel|
            (#[trigger] ids.slot(l)).is_some() ==> exists|i: int| record_at(recs, ids.slot(l).unwrap()@, i),
{
    assert forall|l: AdminLevel| (#[trigger] ids.slot(l)).is_some() implies exists|i: int|
        record_at(recs, ids.slot(l).unwrap()@, i) by {
        assert(opt_view(ids.slot(l)) == id_slot(h.slot(l)));
        assert(id_slot(h.slot(l)).is_some());
    }
}

/// Round trip: replacing parents by ids and resolving the ids against the
/// admin records of the same ingest gives back every parent, equal in all the
/// text index stores, and leaves empty slots empty.
pub proof fn law_ids_resolve_to_parents(
    h: AdminHierarchy,
    ids: AdminHierarchyIds,
    recs: Seq<(String, AdminEntry)>,
    back: AdminHierarchy,
)
    requires
        forall|l: AdminLevel| (#[trigger] h.slot(l)).is_some() ==> h.slot(l).unwrap().id.is_some(),
        forall|l: AdminLevel| opt_view(#[trigger] ids.slot(l)) == id_slot(h.slot(l)),
        records_distinct(recs),
        forall|l: AdminLevel|
            #![trigger h.slot(l)]
            id_slot(h.slot(l)).is_some() ==> exists|i: int|
                #[trigger] record_at(recs, id_slot(h.slot(l)).unwrap(), i) && same_entry(recs[i].1, h.slot(l).unwrap()),
        forall|l: AdminLevel| resolved(recs, ids.slot(l), #[trigger] back.slot(l)),
    ensures
        forall|l: AdminLevel|
            (#[trigger] back.slot(l)).is_some() == h.slot(l).is_some() && (h.slot(l).is_some() ==> same_entry(
                back.slot(l).unwrap(),
                h.slot(l).unwrap(),
            )),
{
    assert forall|l: AdminLevel|
        (#[trigger] back.slot(l)).is_some() == h.slot(l).is_some() && (h.slot(l).is_some() ==> same_entry(
            back.slot(l).unwrap(),
            h.slot(l).unwrap(),
        )) by {
        assert(opt_view(ids.slot(l)) == id_slot(h.slot(l)));
        assert(resolved(recs, ids.slot(l), back.slot(l)));
        if h.slot(l).is_some() {
            let k = id_slot(h.slot(l)).unwrap();
            let i = choose|i: int|
                #[trigger] record_at(recs, k, i) && same_entry(recs[i].1, h.slot(l).unwrap());
            assert(ids.slot(l).unwrap()@ == k);
            let j = choose|j: int|
                #[trigger] record_at(recs, ids.slot(l).unwrap()@, j) && same_entry(back.slot(l).unwrap(), recs[j].1)
                    && back.slot(l).unwrap().names@ == recs[j].1.names@;
            if i != j {
                assert(recs[i].0@ != recs[j].0@);
            }
        }
    }
}

} // verus!
