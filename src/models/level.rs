//! Administrative levels, layers and OSM object kinds.
use vstd::prelude::*;

verus! {

/// Administrative level, ordered from the largest (country) to the smallest.
#[derive(Debug, Clone, Copy, PartialEq, Eq, Hash, PartialOrd, Ord, Structural)]
pub enum AdminLevel {
    Country,
    MacroRegion,
    Region,
    MacroCounty,
    County,
    LocalAdmin,
    Locality,
    Borough,
    Neighbourhood,
}

/// Position of a level in the natural order, country first.
pub open spec fn level_index(l: AdminLevel) -> nat {
    match l {
        AdminLevel::Country => 0,
        AdminLevel::MacroRegion => 1,
        AdminLevel::Region => 2,
        AdminLevel::MacroCounty => 3,
        AdminLevel::County => 4,
        AdminLevel::LocalAdmin => 5,
        AdminLevel::Locality => 6,
        AdminLevel::Borough => 7,
        AdminLevel::Neighbourhood => 8,
    }
}

/// The level at a position of the natural order.
pub open spec fn level_at(i: int) -> AdminLevel {
    if i <= 0 {
        AdminLevel::Country
    } else if i == 1 {
        AdminLevel::MacroRegion
    } else if i == 2 {
        AdminLevel::Region
    } else if i == 3 {
        AdminLevel::MacroCounty
    } else if i == 4 {
        AdminLevel::County
    } else if i == 5 {
        AdminLevel::LocalAdmin
    } else if i == 6 {
        AdminLevel::Locality
    } else if i == 7 {
        AdminLevel::Borough
    } else {
        AdminLevel::Neighbourhood
    }
}

/// The OSM `admin_level` number of each level.
pub open spec fn osm_number(l: AdminLevel) -> u8 {
    (level_index(l) + 2) as u8
}

/// The level that an OSM `admin_level` number denotes, if any.
pub open spec fn level_of_osm(n: u8) -> Option<AdminLevel> {
    if 2 <= n <= 10 {
        Some(level_at(n - 2))
    } else if n == 11 {
        Some(AdminLevel::Neighbourhood)
    } else {
        None
    }
}

/// Field name of each level in the hierarchy documents.
pub open spec fn level_field(l: AdminLevel) -> Seq<char> {
    match l {
        AdminLevel::Country => "country"@,
        AdminLevel::MacroRegion => "macro_region"@,
        AdminLevel::Region => "region"@,
        AdminLevel::MacroCounty => "macro_county"@,
        AdminLevel::County => "county"@,
        AdminLevel::LocalAdmin => "local_admin"@,
        AdminLevel::Locality => "locality"@,
        AdminLevel::Borough => "borough"@,
        AdminLevel::Neighbourhood => "neighbourhood"@,
    }
}

pub proof fn lemma_level_at_index(l: AdminLevel)
    ensures
        level_at(level_index(l) as int) == l,
{
}

impl AdminLevel {
    /// Convert an OSM `admin_level` number; 11 folds into the neighbourhood level.
    pub fn from_osm_level(level: u8) -> (r: Option<AdminLevel>)
        ensures
            r == level_of_osm(level),
    {
        match level {
            2 => Some(AdminLevel::Country),
            3 => Some(AdminLevel::MacroRegion),
            4 => Some(AdminLevel::Region),
            5 => Some(AdminLevel::MacroCounty),
            6 => Some(AdminLevel::County),
            7 => Some(AdminLevel::LocalAdmin),
            8 => Some(AdminLevel::Locality),
            9 => Some(AdminLevel::Borough),
            10 | 11 => Some(AdminLevel::Neighbourhood),
            _ => None,
        }
    }

    /// The OSM `admin_level` number of this level.
    pub fn to_osm_level(&self) -> (r: u8)
        ensures
            r == osm_number(*self),
            level_of_osm(r) == Some(*self),
    {
        match self {
            AdminLevel::Country => 2,
            AdminLevel::MacroRegion => 3,
            AdminLevel::Region => 4,
            AdminLevel::MacroCounty => 5,
            AdminLevel::County => 6,
            AdminLevel::LocalAdmin => 7,
            AdminLevel::Locality => 8,
            AdminLevel::Borough => 9,
            AdminLevel::Neighbourhood => 10,
        }
    }

    /// Position of this level in the natural order, country first.
    pub fn index(&self) -> (r: usize)
        ensures
            r == level_index(*self),
    {
        match self {
            AdminLevel::Country => 0,
            AdminLevel::MacroRegion => 1,
            AdminLevel::Region => 2,
            AdminLevel::MacroCounty => 3,
            AdminLevel::County => 4,
            AdminLevel::LocalAdmin => 5,
            AdminLevel::Locality => 6,
            AdminLevel::Borough => 7,
            AdminLevel::Neighbourhood => 8,
        }
    }

    /// All levels in hierarchical order, country first.
    pub fn all() -> (r: Vec<AdminLevel>)
        ensures
            r@.len() == 9,
            forall|i: int| 0 <= i < 9 ==> #[trigger] r@[i] == level_at(i),
    {
        vec![
            AdminLevel::Country,
            AdminLevel::MacroRegion,
            AdminLevel::Region,
            AdminLevel::MacroCounty,
            AdminLevel::County,
            AdminLevel::LocalAdmin,
            AdminLevel::Locality,
            AdminLevel::Borough,
            AdminLevel::Neighbourhood,
        ]
    }

    /// Field name of this level in the hierarchy documents.
    pub fn field_name(&self) -> (r: &'static str)
        ensures
            r@ == level_field(*self),
    {
        match self {
            AdminLevel::Country => "country",
            AdminLevel::MacroRegion => "macro_region",
            AdminLevel::Region => "region",
            AdminLevel::MacroCounty => "macro_county",
            AdminLevel::County => "county",
            AdminLevel::LocalAdmin => "local_admin",
            AdminLevel::Locality => "locality",
            AdminLevel::Borough => "borough",
            AdminLevel::Neighbourhood => "neighbourhood",
        }
    }
}

/// Kind of OSM object a place comes from.
#[derive(Debug, Clone, Copy, PartialEq, Eq, Structural)]
pub enum OsmType {
    Node,
    Way,
    Relation,
}

/// Lowercase name of an OSM object kind.
pub open spec fn osm_type_name(t: OsmType) -> Seq<char> {
    match t {
        OsmType::Node => "node"@,
        OsmType::Way => "way"@,
        OsmType::Relation => "relation"@,
    }
}

impl OsmType {
    /// Lowercase name, as used in source identifiers.
    pub fn as_str(&self) -> (r: &'static str)
        ensures
            r@ == osm_type_name(*self),
    {
        match self {
            OsmType::Node => "node",
            OsmType::Way => "way",
            OsmType::Relation => "relation",
        }
    }
}

/// Search layer of a place.
#[derive(Debug, Clone, Copy, PartialEq, Eq, Structural)]
pub enum Layer {
    Venue,
    Address,
    Street,
    Admin,
    Neighbourhood,
    Locality,
    County,
    Region,
    MacroCounty,
    MacroRegion,
    LocalAdmin,
    Borough,
    Country,
}

/// Rank of a layer: larger means geographically larger.
pub open spec fn rank_of(l: Layer) -> u8 {
    match l {
        Layer::Country => 100,
        Layer::MacroRegion => 90,
        Layer::Region => 80,
        Layer::MacroCounty => 70,
        Layer::County => 60,
        Layer::LocalAdmin => 50,
        Layer::Admin => 50,
        Layer::Locality => 40,
        Layer::Borough => 30,
        Layer::Neighbourhood => 20,
        Layer::Street => 10,
        Layer::Address => 10,
        Layer::Venue => 10,
    }
}

/// The layer that an administrative level is displayed as.
pub open spec fn level_layer(l: AdminLevel) -> Layer {
    match l {
        AdminLevel::Country => Layer::Country,
        AdminLevel::MacroRegion => Layer::MacroRegion,
        AdminLevel::Region => Layer::Region,
        AdminLevel::MacroCounty => Layer::MacroCounty,
        AdminLevel::County => Layer::County,
        AdminLevel::LocalAdmin => Layer::LocalAdmin,
        AdminLevel::Locality => Layer::Locality,
        AdminLevel::Borough => Layer::Borough,
        AdminLevel::Neighbourhood => Layer::Neighbourhood,
    }
}

/// Lowercase name of a layer.
pub open spec fn layer_name(l: Layer) -> Seq<char> {
    match l {
        Layer::Venue => "venue"@,
        Layer::Address => "address"@,
        Layer::Street => "street"@,
        Layer::Admin => "admin"@,
        Layer::Neighbourhood => "neighbourhood"@,
        Layer::Locality => "locality"@,
        Layer::County => "county"@,
        Layer::Region => "region"@,
        Layer::MacroCounty => "macrocounty"@,
        Layer::MacroRegion => "macroregion"@,
        Layer::LocalAdmin => "localadmin"@,
        Layer::Borough => "borough"@,
        Layer::Country => "country"@,
    }
}

impl Layer {
    /// Rank used by the hierarchy filter of query results.
    pub fn rank(&self) -> (r: u8)
        ensures
            r == rank_of(*self),
    {
        match self {
            Layer::Country => 100,
            Layer::MacroRegion => 90,
            Layer::Region => 80,
            Layer::MacroCounty => 70,
            Layer::County => 60,
            Layer::LocalAdmin => 50,
            Layer::Admin => 50,
            Layer::Locality => 40,
            Layer::Borough => 30,
            Layer::Neighbourhood => 20,
            Layer::Street => 10,
            Layer::Address => 10,
            Layer::Venue => 10,
        }
    }

    /// The layer that an administrative level is displayed as.
    pub fn of_level(level: AdminLevel) -> (r: Layer)
        ensures
            r == level_layer(level),
    {
        match level {
            AdminLevel::Country => Layer::Country,
            AdminLevel::MacroRegion => Layer::MacroRegion,
            AdminLevel::Region => Layer::Region,
            AdminLevel::MacroCounty => Layer::MacroCounty,
            AdminLevel::County => Layer::County,
            AdminLevel::LocalAdmin => Layer::LocalAdmin,
            AdminLevel::Locality => Layer::Locality,
            AdminLevel::Borough => Layer::Borough,
            AdminLevel::Neighbourhood => Layer::Neighbourhood,
        }
    }

    /// Lowercase name of this layer.
    pub fn as_str(&self) -> (r: &'static str)
        ensures
            r@ == layer_name(*self),
    {
        match self {
            Layer::Venue => "venue",
            Layer::Address => "address",
            Layer::Street => "street",
            Layer::Admin => "admin",
            Layer::Neighbourhood => "neighbourhood",
            Layer::Locality => "locality",
            Layer::County => "county",
            Layer::Region => "region",
            Layer::MacroCounty => "macrocounty",
            Layer::MacroRegion => "macroregion",
            Layer::LocalAdmin => "localadmin",
            Layer::Borough => "borough",
            Layer::Country => "country",
        }
    }
}

} // verus!
