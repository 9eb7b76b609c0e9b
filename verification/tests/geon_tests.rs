use geon_rs::converter::{get_type_mapping, infer_name, infer_type};
use geon_rs::generator::{coordinate_string, extent_string};
use geon_rs::models::{Coordinate, Extent, GeonPlace, Viewsheds};
use geon_rs::parser::{parse_coordinate, parse_extent, split_key_value, tokenize_lines};
use geon_rs::{generate, parse, GeonError, Node};

#[test]
fn test_coordinate_parsing() {
    let text = "LOCATION: 52.9548, -1.1581";
    let coord = parse(text).location.unwrap();
    assert_eq!(coord.lat.parse::<f64>().unwrap(), 52.9548);
    assert_eq!(coord.lon.parse::<f64>().unwrap(), -1.1581);
}

#[test]
fn test_simple_place() {
    let text = "PLACE: My Park\nTYPE: public_space\nLOCATION: 51.5, -0.1";
    let place = parse(text);
    assert_eq!(place.place, "My Park");
    assert_eq!(place.type_, "public_space");
    let loc = place.location.unwrap();
    assert_eq!(loc.lat.parse::<f64>().unwrap(), 51.5);
    assert_eq!(loc.lon.parse::<f64>().unwrap(), -0.1);
}

#[test]
fn test_nested_structure() {
    let text = "\nPLACE: Parent\nCONTAINS:\n  - PLACE: Child\n    TYPE: nested\n    LOCATION: 1.0, 1.0\n";
    let place = parse(text);
    assert_eq!(place.place, "Parent");
    assert_eq!(place.contains.len(), 1);
    let child = &place.contains[0];
    assert_eq!(child.place, "Child");
    assert_eq!(child.type_, "nested");
}

#[test]
fn test_nested_structure_fixed() {
    let text = "\nPLACE: Parent\nCONTAINS:\n  - PLACE: Child\n    TYPE: nested\n    LOCATION: 1.0, 1.0\n";
    let place = parse(text);
    assert_eq!(place.place, "Parent");
    assert_eq!(place.contains.len(), 1);
    let child = &place.contains[0];
    assert_eq!(child.place, "Child");
    assert_eq!(child.type_, "nested");
}

#[test]
fn test_round_trip() {
    let mut place = GeonPlace::default();
    place.place = "Test Place".to_string();
    place.type_ = "test_type".to_string();
    place.location = Some(Coordinate { lat: "10".to_string(), lon: "20".to_string() });
    place.purpose = vec!["testing".to_string(), "verification".to_string()];

    let text = generate(&place);
    println!("Generated:\n{}", text);

    let parsed = parse(&text);

    assert_eq!(place.place, parsed.place);
    assert_eq!(place.type_, parsed.type_);
    assert_eq!(place.location, parsed.location);
    assert_eq!(place.purpose, parsed.purpose);
}

#[test]
fn scalar_fields_round_trip_exactly() {
    let mut place = GeonPlace::default();
    place.place = "Spot".to_string();
    place.type_ = "landmark".to_string();
    place.id = Some("spot-1".to_string());
    place.location = Some(Coordinate { lat: "52.9548".to_string(), lon: "-1.1581".to_string() });
    place.extent = Some(Extent {
        north: "1.5".to_string(),
        south: "0.5".to_string(),
        east: "2.5".to_string(),
        west: "-2.5".to_string(),
    });
    place.elevation = Some("61 m".to_string());
    place.area = Some("12 ha".to_string());
    place.part_of = Some("City Centre".to_string());
    place.updated = Some("2021-06".to_string());

    let parsed = parse(&generate(&place));
    assert_eq!(parsed.place, place.place);
    assert_eq!(parsed.type_, place.type_);
    assert_eq!(parsed.id, place.id);
    assert_eq!(parsed.location, place.location);
    assert_eq!(parsed.extent, place.extent);
    assert_eq!(parsed.elevation, place.elevation);
    assert_eq!(parsed.area, place.area);
    assert_eq!(parsed.part_of, place.part_of);
    assert_eq!(parsed.updated, place.updated);
}

#[test]
fn map_sections_sorted_regardless_of_insertion_order() {
    let mut a = GeonPlace::default();
    a.place = "P".to_string();
    a.experience = vec![
        ("zeta".to_string(), "3".to_string()),
        ("alpha".to_string(), "1".to_string()),
        ("midway".to_string(), "2".to_string()),
    ];
    let mut b = GeonPlace::default();
    b.place = "P".to_string();
    b.experience = vec![
        ("alpha".to_string(), "1".to_string()),
        ("midway".to_string(), "2".to_string()),
        ("zeta".to_string(), "3".to_string()),
    ];
    let ta = generate(&a);
    let tb = generate(&b);
    assert_eq!(ta, tb);
    assert_eq!(ta, "PLACE: P\nEXPERIENCE:\n  alpha: 1\n  midway: 2\n  zeta: 3\n");
}

#[test]
fn single_element_list_renders_inline() {
    let mut place = GeonPlace::default();
    place.place = "P".to_string();
    place.purpose = vec!["recreation".to_string()];
    let text = generate(&place);
    assert_eq!(text, "PLACE: P\nPURPOSE: recreation\n");
    assert!(!text.contains("PURPOSE:\n"));
    assert!(!text.contains("- "));
    let parsed = parse(&text);
    assert_eq!(parsed.purpose, vec!["recreation".to_string()]);
}

#[test]
fn multi_element_list_renders_as_section() {
    let mut place = GeonPlace::default();
    place.place = "P".to_string();
    place.character = vec!["quiet".to_string(), "green".to_string()];
    let text = generate(&place);
    assert_eq!(text, "PLACE: P\nCHARACTER:\n  - quiet\n  - green\n");
    let parsed = parse(&text);
    assert_eq!(parsed.character, place.character);
}

#[test]
fn empty_fields_contribute_no_lines() {
    let mut place = GeonPlace::default();
    place.place = "Bare".to_string();
    let text = generate(&place);
    assert_eq!(text, "PLACE: Bare\n");
}

#[test]
fn coordinate_text_round_trip() {
    let c = Coordinate::new("52.9548".to_string(), "-1.1581".to_string());
    let s = coordinate_string(&c);
    assert_eq!(s, "52.9548, -1.1581");
    let back = parse_coordinate(&s).unwrap();
    assert_eq!(back, c);
    assert_eq!(back.lat.parse::<f64>().unwrap(), 52.9548);
    assert_eq!(back.lon.parse::<f64>().unwrap(), -1.1581);
}

#[test]
fn nested_place_parses_with_fields() {
    let text = "PLACE: Parent\nCONTAINS:\n  - PLACE: Child\n    TYPE: nested\n    LOCATION: 1.0, 1.0\n";
    let place = parse(text);
    assert_eq!(place.place, "Parent");
    assert_eq!(place.contains.len(), 1);
    let child = &place.contains[0];
    assert_eq!(child.place, "Child");
    assert_eq!(child.type_, "nested");
    let loc = child.location.as_ref().unwrap();
    assert_eq!(loc.lat.parse::<f64>().unwrap(), 1.0);
    assert_eq!(loc.lon.parse::<f64>().unwrap(), 1.0);
}

#[test]
fn bad_coordinate_leaves_location_unset() {
    let place = parse("LOCATION: abc, def");
    assert!(place.location.is_none());
}

#[test]
fn unknown_key_retained_in_extra() {
    let place = parse("PLACE: P\nCUSTOM_FIELD: something\n");
    assert_eq!(place.extra.len(), 1);
    assert_eq!(place.extra[0].0, "CUSTOM_FIELD");
    assert_eq!(place.extra[0].1, Node::Value("something".to_string()));
    // Re-emitting extras is a documented limitation of the generator.
    let text = generate(&place);
    assert!(!text.contains("CUSTOM_FIELD"));
}

#[test]
fn extent_all_or_nothing() {
    let good = parse("EXTENT: 1.0, 0.5, 2.0, -2.0");
    let e = good.extent.unwrap();
    assert_eq!(e.north, "1.0");
    assert_eq!(e.west, "-2.0");
    let bad = parse("EXTENT: 1.0, oops, 2.0, -2.0");
    assert!(bad.extent.is_none());
    let short = parse("EXTENT: 1.0, 0.5, 2.0");
    assert!(short.extent.is_none());
    assert_eq!(extent_string(&e), "1.0, 0.5, 2.0, -2.0");
    assert!(parse_extent("1.0, 0.5, 2.0, -2.0").is_some());
}

#[test]
fn boundary_drops_bad_entries_individually() {
    let text = "PLACE: P\nBOUNDARY:\n  - 1.0, 2.0\n  - nonsense\n  - 3.5, -4.5\n";
    let place = parse(text);
    assert_eq!(place.boundary.len(), 2);
    assert_eq!(place.boundary[0].lat, "1.0");
    assert_eq!(place.boundary[1].lon, "-4.5");
    let out = generate(&place);
    assert!(out.contains("BOUNDARY:\n  - 1.0, 2.0\n  - 3.5, -4.5\n"));
}

#[test]
fn blank_lines_carry_no_meaning() {
    let with_blanks = "PLACE: P\n\n\nTYPE: t\n\nAREA: 3 ha\n";
    let without = "PLACE: P\nTYPE: t\nAREA: 3 ha\n";
    assert_eq!(parse(with_blanks), parse(without));
}

#[test]
fn maps_parse_and_round_trip_sorted() {
    let text = "PLACE: P\nCONNECTIVITY:\n  north: road\n  east: rail\n";
    let place = parse(text);
    assert_eq!(place.connectivity.len(), 2);
    let out = generate(&place);
    assert_eq!(out, "PLACE: P\nCONNECTIVITY:\n  east: rail\n  north: road\n");
}

#[test]
fn duplicate_map_keys_last_wins() {
    let text = "PLACE: P\nTEMPORAL:\n  era: old\n  era: new\n";
    let place = parse(text);
    assert_eq!(place.temporal, vec![("era".to_string(), "new".to_string())]);
}

#[test]
fn viewsheds_list_or_map() {
    let as_list = parse("PLACE: P\nVIEWSHEDS:\n  - skyline\n  - river\n");
    assert_eq!(
        as_list.viewsheds,
        Viewsheds::Items(vec!["skyline".to_string(), "river".to_string()])
    );
    let as_map = parse("PLACE: P\nVIEWSHEDS:\n  east: skyline\n");
    assert_eq!(
        as_map.viewsheds,
        Viewsheds::Entries(vec![("east".to_string(), "skyline".to_string())])
    );
    let text = generate(&as_list);
    assert!(text.contains("VIEWSHEDS:\n  - skyline\n  - river\n"));
}

#[test]
fn history_records_round_trip() {
    let mut place = GeonPlace::default();
    place.place = "P".to_string();
    place.history = vec![
        vec![("year".to_string(), "1900".to_string()), ("event".to_string(), "built".to_string())],
        vec![("year".to_string(), "1950".to_string())],
    ];
    let text = generate(&place);
    assert_eq!(
        text,
        "PLACE: P\nHISTORY:\n  - event: built\n      year: 1900\n  - year: 1950\n"
    );
    let parsed = parse(&text);
    assert_eq!(parsed.history.len(), 2);
    assert!(parsed.history[0].contains(&("event".to_string(), "built".to_string())));
    assert!(parsed.history[0].contains(&("year".to_string(), "1900".to_string())));
    assert_eq!(parsed.history[1], vec![("year".to_string(), "1950".to_string())]);
}

#[test]
fn indentation_is_self_describing() {
    // Four-space children are accepted even though the generator uses two.
    let text = "PLACE: P\nEXPERIENCE:\n      calm: high\n      noise: low\n";
    let place = parse(text);
    assert_eq!(place.experience.len(), 2);
}

#[test]
fn stray_deep_lines_are_skipped() {
    let text = "PLACE: P\n      orphan line\nTYPE: t\n";
    let place = parse(text);
    assert_eq!(place.place, "P");
    assert_eq!(place.type_, "t");
}

#[test]
fn parse_is_total_on_junk() {
    let place = parse("::::\n  - \n\u{9}weird\nno colon here\n");
    assert_eq!(place.place, "");
    let empty = parse("");
    assert_eq!(empty, GeonPlace::default());
}

#[test]
fn number_grammar_accepts_signs_dots_exponents() {
    assert!(parse("LOCATION: +1.5, .5").location.is_some());
    assert!(parse("LOCATION: 1e5, -2.5E-3").location.is_some());
    assert!(parse("LOCATION: 5., 0").location.is_some());
    assert!(parse("LOCATION: 1.2.3, 0").location.is_none());
    assert!(parse("LOCATION: , 0").location.is_none());
    assert!(parse("LOCATION: 1.0").location.is_none());
    assert!(parse("LOCATION: 1.0, 2.0, 3.0").location.is_none());
}

#[test]
fn geojson_position_order() {
    let c = Coordinate::new("1.5".to_string(), "2.5".to_string());
    let pos = c.to_geojson_position();
    assert_eq!(pos, vec!["2.5".to_string(), "1.5".to_string()]);
    let back = Coordinate::from_geojson_position(&pos).unwrap();
    assert_eq!(back, c);
    assert!(Coordinate::from_geojson_position(&vec!["1".to_string()]).is_none());
}

#[test]
fn type_mapping_and_inference() {
    let table = get_type_mapping();
    assert!(table.contains(&("park".to_string(), "public_space".to_string())));
    let props = vec![
        ("leisure".to_string(), "park".to_string()),
        ("name".to_string(), "Greenfield".to_string()),
    ];
    assert_eq!(infer_type(&props), "public_space");
    assert_eq!(infer_name(&props), "Greenfield");

    let explicit = vec![("geon_type".to_string(), "campus".to_string())];
    assert_eq!(infer_type(&explicit), "campus");
    assert_eq!(infer_name(&explicit), "Unnamed");

    let unmapped = vec![("building".to_string(), "lighthouse".to_string())];
    assert_eq!(infer_type(&unmapped), "hybrid");

    let station = vec![("railway".to_string(), "station".to_string())];
    assert_eq!(infer_type(&station), "transport_hub");
}

#[test]
fn tokenizer_and_splitter_behave() {
    let toks = tokenize_lines("  a: 1\n\n b: 2");
    assert_eq!(toks.len(), 2);
    assert_eq!(toks[0].indent, 2);
    assert_eq!(toks[0].content, "a: 1");
    assert_eq!(toks[1].indent, 1);
    let kv = split_key_value("  KEY:  some value  ").unwrap();
    assert_eq!(kv.0, "KEY");
    assert_eq!(kv.1, "some value");
    assert!(split_key_value("no separator").is_none());
}

#[test]
fn error_values_carry_their_text() {
    let e = GeonError::ParseFloat("abc".to_string());
    assert_eq!(e, GeonError::ParseFloat("abc".to_string()));
    let s = GeonError::InvalidStructure("bad indent".to_string());
    assert_ne!(s, GeonError::InvalidStructure("other".to_string()));
}

#[test]
fn nested_children_generate_reduced_projection() {
    let mut child = GeonPlace::default();
    child.place = "Annex".to_string();
    child.type_ = "wing".to_string();
    child.location = Some(Coordinate::new("1.5".to_string(), "2.5".to_string()));
    child.area = Some("40 m2".to_string());
    child.elevation = Some("ignored by the nested projection".to_string());
    let mut parent = GeonPlace::default();
    parent.place = "Main".to_string();
    parent.contains = vec![child];
    let text = generate(&parent);
    assert_eq!(
        text,
        "PLACE: Main\nCONTAINS:\n  - PLACE: Annex\n      TYPE: wing\n      LOCATION: 1.5, 2.5\n      AREA: 40 m2\n"
    );
    let parsed = parse(&text);
    assert_eq!(parsed.contains.len(), 1);
    assert_eq!(parsed.contains[0].place, "Annex");
    assert_eq!(parsed.contains[0].type_, "wing");
    assert_eq!(parsed.contains[0].area, Some("40 m2".to_string()));
    // The nested block is a reduced projection: elevation is not kept.
    assert!(parsed.contains[0].elevation.is_none());
}

#[test]
fn bare_contains_items_become_named_children() {
    let place = parse("PLACE: Campus\nCONTAINS:\n  - North Lawn\n  - PLACE: Hall\n");
    assert_eq!(place.contains.len(), 2);
    assert_eq!(place.contains[0].place, "North Lawn");
    assert_eq!(place.contains[1].place, "Hall");
}

#[test]
fn second_round_trip_is_stable() {
    let text = "PLACE: Quarter\nTYPE: district\nPURPOSE:\n  - living\n  - trade\nEXPERIENCE:\n  noise: low\nCONTAINS:\n  - PLACE: Yard\n    TYPE: court\nCUSTOM: kept\n";
    let once = generate(&parse(text));
    let twice = generate(&parse(&once));
    assert_eq!(once, twice);
}
