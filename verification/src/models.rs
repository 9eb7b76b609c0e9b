//! The data model: coordinates, extents, and the recursive place entity.
//!
//! Numeric scalars (coordinates, extents) are carried as their source
//! text, validated against the numeric grammar of the format
//! ([`crate::text::number_text`]); a host that needs machine numbers
//! converts these texts at its own boundary.

use vstd::prelude::*;

use crate::parser::{view_pair_seq, Node, NodeV};
use crate::text::number_text;

verus! {

/// A WGS84 coordinate pair (latitude, longitude), each the text of a
/// number; textual form `"<lat>, <lon>"`.
#[derive(Debug, Clone, PartialEq)]
pub struct Coordinate {
    pub lat: String,
    pub lon: String,
}

/// Mathematical shape of a [`Coordinate`].
#[verifier::ext_equal]
pub ghost struct CoordinateV {
    pub lat: Seq<char>,
    pub lon: Seq<char>,
}

impl View for Coordinate {
    type V = CoordinateV;

    open spec fn view(&self) -> CoordinateV {
        CoordinateV { lat: self.lat@, lon: self.lon@ }
    }
}

impl DeepView for Coordinate {
    type V = CoordinateV;

    open spec fn deep_view(&self) -> CoordinateV {
        self.view()
    }
}

impl CoordinateV {
    /// Both texts belong to the numeric grammar.
    pub open spec fn wf(self) -> bool {
        number_text(self.lat) && number_text(self.lon)
    }
}

impl Coordinate {
    pub fn new(lat: String, lon: String) -> (r: Coordinate)
        ensures
            r@ == (CoordinateV { lat: lat@, lon: lon@ }),
    {
        Coordinate { lat, lon }
    }

    /// GeoJSON position order: longitude first.
    pub fn to_geojson_position(&self) -> (r: Vec<String>)
        ensures
            r.deep_view() =~= seq![self@.lon, self@.lat],
    {
        let mut r: Vec<String> = Vec::new();
        r.push(self.lon.clone());
        r.push(self.lat.clone());
        r
    }

    /// A coordinate from a GeoJSON position, when it has at least the
    /// two leading components.
    pub fn from_geojson_position(position: &Vec<String>) -> (r: Option<Coordinate>)
        ensures
            position@.len() >= 2 ==> (r matches Some(c) && c@ == (CoordinateV {
                lat: position.deep_view()[1],
                lon: position.deep_view()[0],
            })),
            position@.len() < 2 ==> r is None,
    {
        if position.len() >= 2 {
            Some(Coordinate { lat: position[1].clone(), lon: position[0].clone() })
        } else {
            None
        }
    }
}

/// Bounding box: north, south, east, west, each the text of a number;
/// textual form `"<n>, <s>, <e>, <w>"`.
#[derive(Debug, Clone, PartialEq)]
pub struct Extent {
    pub north: String,
    pub south: String,
    pub east: String,
    pub west: String,
}

/// Mathematical shape of an [`Extent`].
#[verifier::ext_equal]
pub ghost struct ExtentV {
    pub north: Seq<char>,
    pub south: Seq<char>,
    pub east: Seq<char>,
    pub west: Seq<char>,
}

impl View for Extent {
    type V = ExtentV;

    open spec fn view(&self) -> ExtentV {
        ExtentV {
            north: self.north@,
            south: self.south@,
            east: self.east@,
            west: self.west@,
        }
    }
}

impl ExtentV {
    /// All four texts belong to the numeric grammar.
    pub open spec fn wf(self) -> bool {
        number_text(self.north) && number_text(self.south) && number_text(self.east)
            && number_text(self.west)
    }
}

/// The viewsheds field is polymorphic in the format: either an ordered
/// list of scalars or a string-keyed table, resolved while parsing.
#[derive(Debug, Clone, PartialEq)]
pub enum Viewsheds {
    Unset,
    Items(Vec<String>),
    Entries(Vec<(String, String)>),
}

/// Mathematical shape of [`Viewsheds`].
#[verifier::ext_equal]
pub ghost enum ViewshedsV {
    Unset,
    Items(Seq<Seq<char>>),
    Entries(Seq<(Seq<char>, Seq<char>)>),
}

impl View for Viewsheds {
    type V = ViewshedsV;

    open spec fn view(&self) -> ViewshedsV {
        match self {
            Viewsheds::Unset => ViewshedsV::Unset,
            Viewsheds::Items(v) => ViewshedsV::Items(v.deep_view()),
            Viewsheds::Entries(v) => ViewshedsV::Entries(v.deep_view()),
        }
    }
}

/// The recursive place entity of the format.
///
/// `contains` is an owned tree: children are held exclusively, there is
/// no parent back-pointer, and `part_of` is a name reference only.
/// Map-valued fields carry their entries in insertion order; a canonical
/// order is imposed only at generation time.
#[derive(Debug, PartialEq)]
pub struct GeonPlace {
    // Identity
    pub place: String,
    pub type_: String,
    pub id: Option<String>,
    // Geometry
    pub location: Option<Coordinate>,
    pub boundary: Vec<Coordinate>,
    pub extent: Option<Extent>,
    pub elevation: Option<String>,
    pub area: Option<String>,
    // Semantic
    pub purpose: Vec<String>,
    pub experience: Vec<(String, String)>,
    pub character: Vec<String>,
    // Relational
    pub adjacencies: Vec<String>,
    pub connectivity: Vec<(String, String)>,
    pub contains: Vec<GeonPlace>,
    pub part_of: Option<String>,
    pub viewsheds: Viewsheds,
    // Temporal
    pub temporal: Vec<(String, String)>,
    pub lifespan: Vec<(String, String)>,
    // Provenance
    pub source: Vec<String>,
    pub confidence: Vec<(String, String)>,
    pub updated: Option<String>,
    // Extended domain maps
    pub built_form: Vec<(String, String)>,
    pub ecology: Vec<(String, String)>,
    pub infrastructure: Vec<(String, String)>,
    pub demographics: Vec<(String, String)>,
    pub economy: Vec<(String, String)>,
    pub visual: Vec<(String, String)>,
    pub history: Vec<Vec<(String, String)>>,
    pub vertical_profile: Vec<(String, String)>,
    // Any field name outside the known table, value kept unparsed
    pub extra: Vec<(String, Node)>,
}

/// Mathematical shape of a [`GeonPlace`].
#[verifier::ext_equal]
pub ghost struct PlaceV {
    pub place: Seq<char>,
    pub type_: Seq<char>,
    pub id: Option<Seq<char>>,
    pub location: Option<CoordinateV>,
    pub boundary: Seq<CoordinateV>,
    pub extent: Option<ExtentV>,
    pub elevation: Option<Seq<char>>,
    pub area: Option<Seq<char>>,
    pub purpose: Seq<Seq<char>>,
    pub experience: Seq<(Seq<char>, Seq<char>)>,
    pub character: Seq<Seq<char>>,
    pub adjacencies: Seq<Seq<char>>,
    pub connectivity: Seq<(Seq<char>, Seq<char>)>,
    pub contains: Seq<PlaceV>,
    pub part_of: Option<Seq<char>>,
    pub viewsheds: ViewshedsV,
    pub temporal: Seq<(Seq<char>, Seq<char>)>,
    pub lifespan: Seq<(Seq<char>, Seq<char>)>,
    pub source: Seq<Seq<char>>,
    pub confidence: Seq<(Seq<char>, Seq<char>)>,
    pub updated: Option<Seq<char>>,
    pub built_form: Seq<(Seq<char>, Seq<char>)>,
    pub ecology: Seq<(Seq<char>, Seq<char>)>,
    pub infrastructure: Seq<(Seq<char>, Seq<char>)>,
    pub demographics: Seq<(Seq<char>, Seq<char>)>,
    pub economy: Seq<(Seq<char>, Seq<char>)>,
    pub visual: Seq<(Seq<char>, Seq<char>)>,
    pub history: Seq<Seq<(Seq<char>, Seq<char>)>>,
    pub vertical_profile: Seq<(Seq<char>, Seq<char>)>,
    pub extra: Seq<(Seq<char>, NodeV)>,
}

pub open spec fn view_place_seq(s: Seq<GeonPlace>) -> Seq<PlaceV>
    decreases s,
{
    if s.len() == 0 {
        Seq::empty()
    } else {
        view_place_seq(s.drop_last()).push(s.last()@)
    }
}

impl View for GeonPlace {
    type V = PlaceV;

    open spec fn view(&self) -> PlaceV
        decreases self,
    {
        PlaceV {
            place: self.place@,
            type_: self.type_@,
            id: self.id.deep_view(),
            location: match self.location {
                Some(c) => Some(c@),
                None => None,
            },
            boundary: self.boundary.deep_view(),
            extent: match self.extent {
                Some(e) => Some(e@),
                None => None,
            },
            elevation: self.elevation.deep_view(),
            area: self.area.deep_view(),
            purpose: self.purpose.deep_view(),
            experience: self.experience.deep_view(),
            character: self.character.deep_view(),
            adjacencies: self.adjacencies.deep_view(),
            connectivity: self.connectivity.deep_view(),
            contains: view_place_seq(self.contains@),
            part_of: self.part_of.deep_view(),
            viewsheds: self.viewsheds@,
            temporal: self.temporal.deep_view(),
            lifespan: self.lifespan.deep_view(),
            source: self.source.deep_view(),
            confidence: self.confidence.deep_view(),
            updated: self.updated.deep_view(),
            built_form: self.built_form.deep_view(),
            ecology: self.ecology.deep_view(),
            infrastructure: self.infrastructure.deep_view(),
            demographics: self.demographics.deep_view(),
            economy: self.economy.deep_view(),
            visual: self.visual.deep_view(),
            history: self.history.deep_view(),
            vertical_profile: self.vertical_profile.deep_view(),
            extra: view_pair_seq(self.extra@),
        }
    }
}

pub proof fn lemma_view_place_seq(s: Seq<GeonPlace>)
    ensures
        view_place_seq(s).len() == s.len(),
        forall|i: int| 0 <= i < s.len() ==> view_place_seq(s)[i] == #[trigger] s[i]@,
    decreases s,
{
    if s.len() > 0 {
        lemma_view_place_seq(s.drop_last());
        assert(view_place_seq(s) == view_place_seq(s.drop_last()).push(s.last()@));
        assert forall|i: int| 0 <= i < s.len() implies view_place_seq(s)[i] == #[trigger] s[i]@ by {
            if i < s.len() - 1 {
                assert(s.drop_last()[i] == s[i]);
            } else {
                assert(s[i] == s.last());
            }
        }
    }
}

/// The all-default place: identity strings empty, everything else unset.
pub open spec fn empty_place_v() -> PlaceV {
    PlaceV {
        place: Seq::empty(),
        type_: Seq::empty(),
        id: None,
        location: None,
        boundary: Seq::empty(),
        extent: None,
        elevation: None,
        area: None,
        purpose: Seq::empty(),
        experience: Seq::empty(),
        character: Seq::empty(),
        adjacencies: Seq::empty(),
        connectivity: Seq::empty(),
        contains: Seq::empty(),
        part_of: None,
        viewsheds: ViewshedsV::Unset,
        temporal: Seq::empty(),
        lifespan: Seq::empty(),
        source: Seq::empty(),
        confidence: Seq::empty(),
        updated: None,
        built_form: Seq::empty(),
        ecology: Seq::empty(),
        infrastructure: Seq::empty(),
        demographics: Seq::empty(),
        economy: Seq::empty(),
        visual: Seq::empty(),
        history: Seq::empty(),
        vertical_profile: Seq::empty(),
        extra: Seq::empty(),
    }
}

impl Default for GeonPlace {
    fn default() -> (r: GeonPlace)
        ensures
            r@ == empty_place_v(),
    {
        let r = GeonPlace {
            place: String::new(),
            type_: String::new(),
            id: None,
            location: None,
            boundary: Vec::new(),
            extent: None,
            elevation: None,
            area: None,
            purpose: Vec::new(),
            experience: Vec::new(),
            character: Vec::new(),
            adjacencies: Vec::new(),
            connectivity: Vec::new(),
            contains: Vec::new(),
            part_of: None,
            viewsheds: Viewsheds::Unset,
            temporal: Vec::new(),
            lifespan: Vec::new(),
            source: Vec::new(),
            confidence: Vec::new(),
            updated: None,
            built_form: Vec::new(),
            ecology: Vec::new(),
            infrastructure: Vec::new(),
            demographics: Vec::new(),
            economy: Vec::new(),
            visual: Vec::new(),
            history: Vec::new(),
            vertical_profile: Vec::new(),
            extra: Vec::new(),
        };
        proof {
            assert(r@.contains =~= Seq::<PlaceV>::empty());
            assert(r@.extra =~= Seq::<(Seq<char>, NodeV)>::empty());
            assert(r@.boundary =~= Seq::<CoordinateV>::empty());
            assert(r@.purpose =~= Seq::<Seq<char>>::empty());
            assert(r@.experience =~= Seq::<(Seq<char>, Seq<char>)>::empty());
            assert(r@.character =~= Seq::<Seq<char>>::empty());
            assert(r@.adjacencies =~= Seq::<Seq<char>>::empty());
            assert(r@.connectivity =~= Seq::<(Seq<char>, Seq<char>)>::empty());
            assert(r@.temporal =~= Seq::<(Seq<char>, Seq<char>)>::empty());
            assert(r@.lifespan =~= Seq::<(Seq<char>, Seq<char>)>::empty());
            assert(r@.source =~= Seq::<Seq<char>>::empty());
            assert(r@.confidence =~= Seq::<(Seq<char>, Seq<char>)>::empty());
            assert(r@.built_form =~= Seq::<(Seq<char>, Seq<char>)>::empty());
            assert(r@.ecology =~= Seq::<(Seq<char>, Seq<char>)>::empty());
            assert(r@.infrastructure =~= Seq::<(Seq<char>, Seq<char>)>::empty());
            assert(r@.demographics =~= Seq::<(Seq<char>, Seq<char>)>::empty());
            assert(r@.economy =~= Seq::<(Seq<char>, Seq<char>)>::empty());
            assert(r@.visual =~= Seq::<(Seq<char>, Seq<char>)>::empty());
            assert(r@.history =~= Seq::<Seq<(Seq<char>, Seq<char>)>>::empty());
            assert(r@.vertical_profile =~= Seq::<(Seq<char>, Seq<char>)>::empty());
        }
        r
    }
}

} // verus!
