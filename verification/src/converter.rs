//! Classification rules shared by the geodata adapters: mapping
//! third-party feature tags onto place types and names.
//!
//! An adapter hands the string-valued properties of one feature over
//! as ordered key-value pairs; everything else about a feature record
//! (geometry arithmetic, JSON plumbing) stays with the adapter.

use vstd::prelude::*;
use vstd::string::StringExecFns;

use crate::text::str_eq;

verus! {

/// First value bound to `k`, as a property table lookup.
pub open spec fn lookup(m: Seq<(Seq<char>, Seq<char>)>, k: Seq<char>) -> Option<Seq<char>>
    decreases m.len(),
{
    if m.len() == 0 {
        None
    } else if m.first().0 == k {
        Some(m.first().1)
    } else {
        lookup(m.drop_first(), k)
    }
}

/// First value bound to `k` in the table, if any.
pub fn lookup_value(m: &Vec<(String, String)>, k: &str) -> (r: Option<String>)
    ensures
        r.deep_view() == lookup(m.deep_view(), k@),
{
    let ghost dv = m.deep_view();
    proof {
        assert(dv.subrange(0, dv.len() as int) =~= dv);
    }
    let mut i: usize = 0;
    while i < m.len()
        invariant
            0 <= i <= m@.len(),
            dv == m.deep_view(),
            dv.len() == m@.len(),
            forall|j: int| 0 <= j < m@.len() ==> dv[j] == (#[trigger] m@[j].0@, m@[j].1@),
            lookup(dv, k@) == lookup(dv.subrange(i as int, dv.len() as int), k@),
        decreases m@.len() - i,
    {
        if str_eq(m[i].0.as_str(), k) {
            proof {
                let sfx = dv.subrange(i as int, dv.len() as int);
                assert(sfx.first() == dv[i as int]);
            }
            return Some(m[i].1.clone());
        }
        proof {
            let sfx = dv.subrange(i as int, dv.len() as int);
            assert(sfx.first() == dv[i as int]);
            assert(sfx.drop_first() =~= dv.subrange(i + 1 as int, dv.len() as int));
        }
        i = i + 1;
    }
    proof {
        assert(dv.subrange(dv.len() as int, dv.len() as int) =~= Seq::<(Seq<char>, Seq<char>)>::empty());
    }
    None
}

/// The table from common third-party feature tags to place types.
pub open spec fn spec_type_mapping() -> Seq<(Seq<char>, Seq<char>)> {
    seq![
        ("park"@, "public_space"@),
        ("garden"@, "public_space"@),
        ("playground"@, "public_space"@),
        ("plaza"@, "public_space"@),
        ("square"@, "public_space"@),
        ("marketplace"@, "public_space"@),
        ("yes"@, "building"@),
        ("house"@, "building"@),
        ("apartments"@, "building"@),
        ("commercial"@, "building"@),
        ("retail"@, "building"@),
        ("school"@, "building"@),
        ("hospital"@, "building"@),
        ("railway_station"@, "transport_hub"@),
        ("station"@, "transport_hub"@),
    ]
}

/// The tag-to-type table as a value.
pub fn get_type_mapping() -> (r: Vec<(String, String)>)
    ensures
        r.deep_view() == spec_type_mapping(),
{
    let mut m: Vec<(String, String)> = Vec::new();
    m.push((String::from_str("park"), String::from_str("public_space")));
    m.push((String::from_str("garden"), String::from_str("public_space")));
    m.push((String::from_str("playground"), String::from_str("public_space")));
    m.push((String::from_str("plaza"), String::from_str("public_space")));
    m.push((String::from_str("square"), String::from_str("public_space")));
    m.push((String::from_str("marketplace"), String::from_str("public_space")));
    m.push((String::from_str("yes"), String::from_str("building")));
    m.push((String::from_str("house"), String::from_str("building")));
    m.push((String::from_str("apartments"), String::from_str("building")));
    m.push((String::from_str("commercial"), String::from_str("building")));
    m.push((String::from_str("retail"), String::from_str("building")));
    m.push((String::from_str("school"), String::from_str("building")));
    m.push((String::from_str("hospital"), String::from_str("building")));
    m.push((String::from_str("railway_station"), String::from_str("transport_hub")));
    m.push((String::from_str("station"), String::from_str("transport_hub")));
    proof {
        assert(m.deep_view() =~= spec_type_mapping());
    }
    m
}

/// The mapped type of one tag value, if the table names it.
pub open spec fn mapped_type(v: Seq<char>) -> Option<Seq<char>> {
    lookup(spec_type_mapping(), v)
}

/// The place type a tag under `k` yields: its mapped value, if the key
/// is present and its value is in the table.
pub open spec fn try_key(props: Seq<(Seq<char>, Seq<char>)>, k: Seq<char>) -> Option<Seq<char>> {
    match lookup(props, k) {
        Some(v) => mapped_type(v),
        None => None,
    }
}

/// The inferred place type of a feature: an explicit `geon_type`
/// property wins; else the first of the usual tag keys whose value the
/// table maps; else `hybrid`.
pub open spec fn spec_infer_type(props: Seq<(Seq<char>, Seq<char>)>) -> Seq<char> {
    if lookup(props, "geon_type"@) is Some {
        lookup(props, "geon_type"@).unwrap()
    } else if try_key(props, "type"@) is Some {
        try_key(props, "type"@).unwrap()
    } else if try_key(props, "building"@) is Some {
        try_key(props, "building"@).unwrap()
    } else if try_key(props, "highway"@) is Some {
        try_key(props, "highway"@).unwrap()
    } else if try_key(props, "railway"@) is Some {
        try_key(props, "railway"@).unwrap()
    } else if try_key(props, "leisure"@) is Some {
        try_key(props, "leisure"@).unwrap()
    } else if try_key(props, "amenity"@) is Some {
        try_key(props, "amenity"@).unwrap()
    } else if try_key(props, "natural"@) is Some {
        try_key(props, "natural"@).unwrap()
    } else if try_key(props, "landuse"@) is Some {
        try_key(props, "landuse"@).unwrap()
    } else {
        "hybrid"@
    }
}

/// The mapped type of the value under `k`, if any.
fn try_key_exec(props: &Vec<(String, String)>, k: &str) -> (r: Option<String>)
    ensures
        r.deep_view() == try_key(props.deep_view(), k@),
{
    match lookup_value(props, k) {
        Some(v) => {
            let table = get_type_mapping();
            lookup_value(&table, v.as_str())
        },
        None => None,
    }
}

/// Infers the place type of a feature from its string properties.
pub fn infer_type(props: &Vec<(String, String)>) -> (r: String)
    ensures
        r@ == spec_infer_type(props.deep_view()),
{
    if let Some(v) = lookup_value(props, "geon_type") {
        return v;
    }
    if let Some(v) = try_key_exec(props, "type") {
        return v;
    }
    if let Some(v) = try_key_exec(props, "building") {
        return v;
    }
    if let Some(v) = try_key_exec(props, "highway") {
        return v;
    }
    if let Some(v) = try_key_exec(props, "railway") {
        return v;
    }
    if let Some(v) = try_key_exec(props, "leisure") {
        return v;
    }
    if let Some(v) = try_key_exec(props, "amenity") {
        return v;
    }
    if let Some(v) = try_key_exec(props, "natural") {
        return v;
    }
    if let Some(v) = try_key_exec(props, "landuse") {
        return v;
    }
    String::from_str("hybrid")
}

/// A non-empty value bound to `k`, as the name fallback chain reads it.
pub open spec fn named(props: Seq<(Seq<char>, Seq<char>)>, k: Seq<char>) -> Option<Seq<char>> {
    match lookup(props, k) {
        Some(v) => if v.len() > 0 {
            Some(v)
        } else {
            None
        },
        None => None,
    }
}

/// The inferred name of a feature: the first non-empty of the usual
/// naming keys, else `Unnamed`.
pub open spec fn spec_infer_name(props: Seq<(Seq<char>, Seq<char>)>) -> Seq<char> {
    if named(props, "name"@) is Some {
        named(props, "name"@).unwrap()
    } else if named(props, "name:en"@) is Some {
        named(props, "name:en"@).unwrap()
    } else if named(props, "official_name"@) is Some {
        named(props, "official_name"@).unwrap()
    } else if named(props, "title"@) is Some {
        named(props, "title"@).unwrap()
    } else if named(props, "label"@) is Some {
        named(props, "label"@).unwrap()
    } else {
        "Unnamed"@
    }
}

/// A non-empty value bound to `k`, if any.
fn named_exec(props: &Vec<(String, String)>, k: &str) -> (r: Option<String>)
    ensures
        r.deep_view() == named(props.deep_view(), k@),
{
    match lookup_value(props, k) {
        Some(v) => {
            if v.as_str().unicode_len() > 0 {
                Some(v)
            } else {
                None
            }
        },
        None => None,
    }
}

/// Infers the display name of a feature from its string properties.
pub fn infer_name(props: &Vec<(String, String)>) -> (r: String)
    ensures
        r@ == spec_infer_name(props.deep_view()),
{
    if let Some(v) = named_exec(props, "name") {
        return v;
    }
    if let Some(v) = named_exec(props, "name:en") {
        return v;
    }
    if let Some(v) = named_exec(props, "official_name") {
        return v;
    }
    if let Some(v) = named_exec(props, "title") {
        return v;
    }
    if let Some(v) = named_exec(props, "label") {
        return v;
    }
    String::from_str("Unnamed")
}

} // verus!
