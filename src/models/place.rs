//! Place documents and their key-value store form.
use vstd::prelude::*;
use super::admin::AdminHierarchy;
use super::geo::{Coord, GeoBbox};
use super::level::{osm_type_name, AdminLevel, Layer, OsmType};
use super::names::{str_eq, NameMap};
use crate::text::{int_text, push_int, push_str, string_of};

verus! {

/// Address parts of a place.
#[derive(Debug, Clone)]
pub struct Address {
    pub housenumber: Option<String>,
    pub street: Option<String>,
    pub postcode: Option<String>,
    pub city: Option<String>,
}

impl Address {
    pub fn empty() -> (r: Address)
        ensures
            r.housenumber.is_none() && r.street.is_none() && r.postcode.is_none() && r.city.is_none(),
    {
        Address { housenumber: None, street: None, postcode: None, city: None }
    }
}

/// Source identifier of an OSM object: `"<osm_type>/<osm_id>"`.
pub open spec fn source_key(t: OsmType, osm_id: int) -> Seq<char> {
    osm_type_name(t) + "/"@ + int_text(osm_id)
}

/// The source identifier of an OSM object.
pub fn source_id_of(t: OsmType, osm_id: i64) -> (r: String)
    ensures
        r@ == source_key(t, osm_id as int),
{
    let mut v: Vec<char> = Vec::new();
    push_str(&mut v, t.as_str());
    push_str(&mut v, "/");
    push_int(&mut v, osm_id);
    string_of(&v)
}

/// A searchable place.
#[derive(Debug, Clone)]
pub struct Place {
    /// `"<osm_type>/<osm_id>"`, unique within an ingest.
    pub source_id: String,
    pub source_file: String,
    /// Import time, in seconds since the Unix epoch.
    pub import_timestamp: i64,
    pub osm_type: OsmType,
    pub osm_id: i64,
    pub wikidata_id: Option<String>,
    /// Importance in millionths, from 0 to 1_000_000.
    pub importance: Option<u32>,
    pub layer: Layer,
    /// `"key:value"` categories.
    pub categories: Vec<String>,
    pub name: NameMap,
    /// Copy of the default name, for phrase matching.
    pub phrase: Option<String>,
    pub address: Option<Address>,
    pub center_point: Coord,
    pub bbox: Option<GeoBbox>,
    pub parent: AdminHierarchy,
}

/// The identity and phrase rules every place keeps: the source identifier
/// names the object, and the phrase is the default name whenever there is one.
pub open spec fn place_consistent(p: Place) -> bool {
    &&& p.source_id@ == source_key(p.osm_type, p.osm_id as int)
    &&& p.name@.contains_key("default"@) ==> p.phrase.is_some() && p.phrase.unwrap()@ == p.name@["default"@]
}

impl Place {
    /// A place with no names, categories, address or parents.
    pub fn new(
        osm_type: OsmType,
        osm_id: i64,
        layer: Layer,
        center: Coord,
        source_file: &str,
        import_timestamp: i64,
    ) -> (r: Place)
        ensures
            place_consistent(r),
            r.osm_type == osm_type,
            r.osm_id == osm_id,
            r.layer == layer,
            r.center_point == center,
            r.source_file@ == source_file@,
            r.import_timestamp == import_timestamp,
            r.wikidata_id.is_none(),
            r.importance.is_none(),
            r.categories@.len() == 0,
            r.name@ == Map::<Seq<char>, Seq<char>>::empty(),
            r.phrase.is_none(),
            r.address.is_none(),
            r.bbox.is_none(),
            forall|l: AdminLevel| (#[trigger] r.parent.slot(l)).is_none(),
    {
        Place {
            source_id: source_id_of(osm_type, osm_id),
            source_file: source_file.to_owned(),
            import_timestamp,
            osm_type,
            osm_id,
            wikidata_id: None,
            importance: None,
            layer,
            categories: Vec::new(),
            name: NameMap::new(),
            phrase: None,
            address: None,
            center_point: center,
            bbox: None,
            parent: AdminHierarchy::empty(),
        }
    }

    /// Add a name under a language key; a name under `"default"` is also
    /// copied to the phrase, which otherwise stays as it was.
    pub fn add_name(&mut self, lang: &str, name: String)
        requires
            place_consistent(*old(self)),
        ensures
            place_consistent(*final(self)),
            final(self).name@ == old(self).name@.insert(lang@, name@),
            final(self).phrase == (if lang@ == "default"@ {
                Some(name)
            } else {
                old(self).phrase
            }),
            final(self).source_id == old(self).source_id,
            final(self).osm_type == old(self).osm_type,
            final(self).osm_id == old(self).osm_id,
            final(self).layer == old(self).layer,
            final(self).categories == old(self).categories,
            final(self).address == old(self).address,
            final(self).wikidata_id == old(self).wikidata_id,
            final(self).importance == old(self).importance,
            final(self).center_point == old(self).center_point,
            final(self).bbox == old(self).bbox,
            final(self).source_file == old(self).source_file,
            final(self).import_timestamp == old(self).import_timestamp,
            final(self).parent == old(self).parent,
    {
        if str_eq(lang, "default") {
            self.phrase = Some(name.clone());
        }
        self.name.insert(lang.to_owned(), name);
    }

    /// Add a `"key:value"` category.
    pub fn add_category(&mut self, key: &str, value: &str)
        ensures
            final(self).categories@.len() == old(self).categories@.len() + 1,
            final(self).categories@.last()@ == key@ + ":"@ + value@,
            forall|i: int| 0 <= i < old(self).categories@.len() ==> #[trigger] final(self).categories@[i] == old(self).categories@[i],
            final(self).source_id == old(self).source_id,
            final(self).osm_type == old(self).osm_type,
            final(self).osm_id == old(self).osm_id,
            final(self).name == old(self).name,
            final(self).phrase == old(self).phrase,
            final(self).layer == old(self).layer,
            final(self).wikidata_id == old(self).wikidata_id,
            final(self).address == old(self).address,
            final(self).importance == old(self).importance,
            final(self).center_point == old(self).center_point,
            final(self).bbox == old(self).bbox,
            final(self).source_file == old(self).source_file,
            final(self).import_timestamp == old(self).import_timestamp,
    {
        let mut v: Vec<char> = Vec::new();
        push_str(&mut v, key);
        push_str(&mut v, ":");
        push_str(&mut v, value);
        self.categories.push(string_of(&v));
    }
}

} // verus!
