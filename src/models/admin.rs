//! Administrative areas, hierarchy entries and the nine-slot hierarchy.
use vstd::prelude::*;
use super::geo::GeoBbox;
use super::level::AdminLevel;
use super::names::NameMap;
use crate::text::{int_text, push_int, push_str, string_of};

verus! {

/// An administrative area with multilingual names.
#[derive(Debug, Clone)]
pub struct AdminArea {
    /// OSM id of the boundary.
    pub osm_id: i64,
    pub level: AdminLevel,
    pub wikidata_id: Option<String>,
    pub name: NameMap,
    pub bbox: Option<GeoBbox>,
    /// Short name or ISO code, e.g. `"CH"`.
    pub abbr: Option<String>,
    /// ISO 3166-1 code of the country the area belongs to.
    pub iso_country_code: Option<String>,
}

impl AdminArea {
    pub fn new(osm_id: i64, level: AdminLevel) -> (r: AdminArea)
        ensures
            r.osm_id == osm_id,
            r.level == level,
            r.wikidata_id.is_none(),
            r.name@ == Map::<Seq<char>, Seq<char>>::empty(),
            r.bbox.is_none(),
            r.abbr.is_none(),
            r.iso_country_code.is_none(),
    {
        AdminArea {
            osm_id,
            level,
            wikidata_id: None,
            name: NameMap::new(),
            bbox: None,
            abbr: None,
            iso_country_code: None,
        }
    }

    /// The name under `"default"`, if any.
    pub fn default_name(&self) -> (r: Option<&String>)
        ensures
            r.is_some() == self.name@.contains_key("default"@),
            r.is_some() ==> r.unwrap()@ == self.name@["default"@],
    {
        self.name.get("default")
    }
}

/// Display name of a name map: the default name, else any name.
pub open spec fn primary_name(names: Map<Seq<char>, Seq<char>>, chosen: Option<String>) -> bool {
    if names.contains_key("default"@) {
        chosen.is_some() && chosen.unwrap()@ == names["default"@]
    } else if names == Map::<Seq<char>, Seq<char>>::empty() {
        chosen.is_none()
    } else {
        chosen.is_some() && exists|k: Seq<char>|
            #![auto]
            names.contains_key(k) && names[k] == chosen.unwrap()@
    }
}

/// Denormalized parent record carried by a place.
#[derive(Debug, Clone)]
pub struct AdminEntry {
    pub name: Option<String>,
    pub abbr: Option<String>,
    /// OSM id of the boundary.
    pub id: Option<i64>,
    pub bbox: Option<GeoBbox>,
    /// All names by language; stored in the key-value form only.
    pub names: NameMap,
}

/// Two entries agree on everything the text index stores (the names map aside).
pub open spec fn same_entry(a: AdminEntry, b: AdminEntry) -> bool {
    &&& a.name == b.name
    &&& a.abbr == b.abbr
    &&& a.id == b.id
    &&& a.bbox == b.bbox
}

/// Key-value store form of an admin entry, names included.
#[derive(Debug, Clone)]
pub struct AdminEntryScylla {
    pub name: Option<String>,
    pub abbr: Option<String>,
    pub id: Option<i64>,
    pub bbox: Option<GeoBbox>,
    pub names: NameMap,
}

impl AdminEntry {
    /// Rebuild an entry from its key-value store form.
    pub fn from_scylla(e: AdminEntryScylla) -> (r: AdminEntry)
        ensures
            r.name == e.name,
            r.abbr == e.abbr,
            r.id == e.id,
            r.bbox == e.bbox,
            r.names == e.names,
    {
        AdminEntry { name: e.name, abbr: e.abbr, id: e.id, bbox: e.bbox, names: e.names }
    }

    /// A copy with the same fields and names.
    pub fn copied(&self) -> (r: AdminEntry)
        ensures
            same_entry(r, *self),
            r.names@ == self.names@,
    {
        AdminEntry {
            name: self.name.clone(),
            abbr: self.abbr.clone(),
            id: self.id,
            bbox: self.bbox,
            names: self.names.clone(),
        }
    }

    /// The key-value store form of this entry.
    pub fn to_scylla(&self) -> (r: AdminEntryScylla)
        ensures
            r.name == self.name,
            r.abbr == self.abbr,
            r.id == self.id,
            r.bbox == self.bbox,
            r.names@ == self.names@,
    {
        AdminEntryScylla {
            name: self.name.clone(),
            abbr: self.abbr.clone(),
            id: self.id,
            bbox: self.bbox,
            names: self.names.clone(),
        }
    }

    /// The entry that a place carries for a parent area.
    pub fn from_area(area: &AdminArea) -> (r: AdminEntry)
        ensures
            primary_name(area.name@, r.name),
            r.abbr == area.abbr,
            r.id == Some(area.osm_id),
            r.bbox == area.bbox,
            r.names@ == area.name@,
    {
        let name = match area.name.get("default") {
            Some(n) => Some(n.clone()),
            None => match area.name.any_value() {
                Some(n) => Some(n.clone()),
                None => None,
            },
        };
        AdminEntry {
            name,
            abbr: area.abbr.clone(),
            id: Some(area.osm_id),
            bbox: area.bbox,
            names: area.name.clone(),
        }
    }
}

/// Key of an admin area in the key-value store: `"relation/<osm_id>"`.
pub open spec fn admin_key(osm_id: int) -> Seq<char> {
    "relation/"@ + int_text(osm_id)
}

/// The key-value store key of an admin area.
pub fn admin_id(osm_id: i64) -> (r: String)
    ensures
        r@ == admin_key(osm_id as int),
{
    let mut v: Vec<char> = Vec::new();
    push_str(&mut v, "relation/");
    push_int(&mut v, osm_id);
    string_of(&v)
}

/// Administrative parents of a place, one optional entry per level.
#[derive(Debug, Clone)]
pub struct AdminHierarchy {
    pub country: Option<AdminEntry>,
    pub macro_region: Option<AdminEntry>,
    pub region: Option<AdminEntry>,
    pub macro_county: Option<AdminEntry>,
    pub county: Option<AdminEntry>,
    pub local_admin: Option<AdminEntry>,
    pub locality: Option<AdminEntry>,
    pub borough: Option<AdminEntry>,
    pub neighbourhood: Option<AdminEntry>,
}

impl AdminHierarchy {
    /// The entry held for a level.
    pub open spec fn slot(&self, level: AdminLevel) -> Option<AdminEntry> {
        match level {
            AdminLevel::Country => self.country,
            AdminLevel::MacroRegion => self.macro_region,
            AdminLevel::Region => self.region,
            AdminLevel::MacroCounty => self.macro_county,
            AdminLevel::County => self.county,
            AdminLevel::LocalAdmin => self.local_admin,
            AdminLevel::Locality => self.locality,
            AdminLevel::Borough => self.borough,
            AdminLevel::Neighbourhood => self.neighbourhood,
        }
    }

    /// A hierarchy with every slot empty.
    pub fn empty() -> (r: AdminHierarchy)
        ensures
            forall|l: AdminLevel| (#[trigger] r.slot(l)).is_none(),
    {
        AdminHierarchy {
            country: None,
            macro_region: None,
            region: None,
            macro_county: None,
            county: None,
            local_admin: None,
            locality: None,
            borough: None,
            neighbourhood: None,
        }
    }

    /// Set the entry for a level.
    pub fn set(&mut self, level: AdminLevel, entry: AdminEntry)
        ensures
            final(self).slot(level) == Some(entry),
            forall|l: AdminLevel| l != level ==> #[trigger] final(self).slot(l) == old(self).slot(l),
    {
        match level {
            AdminLevel::Country => self.country = Some(entry),
            AdminLevel::MacroRegion => self.macro_region = Some(entry),
            AdminLevel::Region => self.region = Some(entry),
            AdminLevel::MacroCounty => self.macro_county = Some(entry),
            AdminLevel::County => self.county = Some(entry),
            AdminLevel::LocalAdmin => self.local_admin = Some(entry),
            AdminLevel::Locality => self.locality = Some(entry),
            AdminLevel::Borough => self.borough = Some(entry),
            AdminLevel::Neighbourhood => self.neighbourhood = Some(entry),
        }
    }

    /// Empty the slot of a level.
    pub fn clear(&mut self, level: AdminLevel)
        ensures
            final(self).slot(level).is_none(),
            forall|l: AdminLevel| l != level ==> #[trigger] final(self).slot(l) == old(self).slot(l),
    {
        match level {
            AdminLevel::Country => self.country = None,
            AdminLevel::MacroRegion => self.macro_region = None,
            AdminLevel::Region => self.region = None,
            AdminLevel::MacroCounty => self.macro_county = None,
            AdminLevel::County => self.county = None,
            AdminLevel::LocalAdmin => self.local_admin = None,
            AdminLevel::Locality => self.locality = None,
            AdminLevel::Borough => self.borough = None,
            AdminLevel::Neighbourhood => self.neighbourhood = None,
        }
    }

    /// The entry for a level, if set.
    pub fn get(&self, level: AdminLevel) -> (r: Option<&AdminEntry>)
        ensures
            r.is_some() == self.slot(level).is_some(),
            r.is_some() ==> *r.unwrap() == self.slot(level).unwrap(),
    {
        match level {
            AdminLevel::Country => self.country.as_ref(),
            AdminLevel::MacroRegion => self.macro_region.as_ref(),
            AdminLevel::Region => self.region.as_ref(),
            AdminLevel::MacroCounty => self.macro_county.as_ref(),
            AdminLevel::County => self.county.as_ref(),
            AdminLevel::LocalAdmin => self.local_admin.as_ref(),
            AdminLevel::Locality => self.locality.as_ref(),
            AdminLevel::Borough => self.borough.as_ref(),
            AdminLevel::Neighbourhood => self.neighbourhood.as_ref(),
        }
    }
}

} // verus!
