use fir_boundaries::boundary::{write_to_file, FIRBoundary, Mode};
use fir_boundaries::collection::{assemble, misplaced_codes, order_records, read_file};
use fir_boundaries::errors::{ErrorCollector, FIRParsingError};
use fir_boundaries::geo_json::{
    convert_from_geojson, generate_features, to_geojson, Crs, Feature, GeoJson, Geometry,
    Properties,
};
use fir_boundaries::decimal::Decimal;
use fir_boundaries::point::Point;

fn dec(text: &str) -> Decimal {
    Decimal::parse(text).unwrap()
}

fn point(lat: &str, lon: &str) -> Point {
    Point::new(dec(lat), dec(lon)).unwrap()
}

fn lines(text: &str) -> Vec<String> {
    text.lines().map(String::from).collect()
}

fn square(icao: &str, oceanic: u8, extension: u8, at: i64) -> String {
    format!(
        "{icao}|{oceanic}|{extension}|4|{a}|{a}|{b}|{b}|0.5|0.5\n{a}|{a}\n{b}|{a}\n{b}|{b}\n{a}|{b}\n",
        icao = icao,
        oceanic = oceanic,
        extension = extension,
        a = at,
        b = at + 1
    )
}

fn file(records: &[String]) -> Vec<String> {
    lines(&records.concat())
}

#[test]
fn fir() {
    let input = file(&[
        square("ENOR", 0, 0, 0),
        square("ENOR", 0, 1, 2),
        "ENOB|1|0|5|0|0|0|0|70|10\n60|0\n60|10\n60|10\n70|10\n70|0\n".to_string(),
        square("EKDK", 0, 0, 4),
    ]);
    let data = read_file(&input, Mode::Fix);
    match data {
        Ok(Ok(all)) => assert_eq!(all.len(), 4),
        other => panic!("{:?}", other),
    }
}

#[test]
fn an_empty_file_has_no_records() {
    assert_eq!(read_file(&Vec::new(), Mode::Strict), Ok(Ok(Vec::new())));
}

#[test]
fn a_clean_file_comes_back_as_it_is() {
    let input = file(&[
        square("ENOR", 0, 0, 0),
        square("ENOR", 0, 1, 2),
        square("ENOR", 0, 1, 6),
        square("EKDK", 0, 0, 4),
        square("EKDK", 1, 0, 8),
    ]);
    let all = read_file(&input, Mode::Strict).unwrap().unwrap();
    assert_eq!(all.iter().map(|b| b.id).collect::<Vec<_>>(), vec![0, 1, 2, 3, 4]);
    assert_eq!(write_to_file(&all), input);
}

#[test]
fn trailing_blank_lines_are_fatal() {
    let mut input = file(&[square("ENOR", 0, 0, 0)]);
    input.push(String::new());
    input.push(String::new());
    match read_file(&input, Mode::Strict) {
        Err(FIRParsingError::FIRParsing(m)) => assert_eq!(m, "Expected 10 fields, found: 1"),
        other => panic!("{:?}", other),
    }
}

#[test]
fn one_trailing_blank_line_is_the_end() {
    let mut input = file(&[square("ENOR", 0, 0, 0)]);
    input.push(String::new());
    assert_eq!(read_file(&input, Mode::Strict).unwrap().unwrap().len(), 1);
}

#[test]
fn two_definitions_of_a_region_are_fatal() {
    let input = file(&[
        square("ENOR", 0, 0, 0),
        square("EKDK", 0, 0, 4),
        square("ENOR", 0, 0, 2),
    ]);
    assert_eq!(
        read_file(&input, Mode::Strict),
        Err(FIRParsingError::MultipleFirs(vec![("ENOR".to_string(), 2)]))
    );
    assert_eq!(
        read_file(&input, Mode::Fix),
        Err(FIRParsingError::MultipleFirs(vec![("ENOR".to_string(), 2)]))
    );
}

#[test]
fn every_region_defined_again_is_named_with_its_count() {
    let input = file(&[
        square("ENOR", 0, 0, 0),
        square("EKDK", 0, 0, 4),
        square("EKDK", 0, 0, 4),
        square("ENOR", 0, 0, 2),
        square("ENOR", 0, 0, 2),
        square("ESAA", 0, 0, 2),
    ]);
    assert_eq!(
        read_file(&input, Mode::Strict),
        Err(FIRParsingError::MultipleFirs(vec![
            ("EKDK".to_string(), 2),
            ("ENOR".to_string(), 3)
        ]))
    );
}

#[test]
fn the_oceanic_part_of_a_region_is_a_region_of_its_own() {
    let input = file(&[square("ENOR", 0, 0, 0), square("ENOR", 1, 0, 2)]);
    assert_eq!(read_file(&input, Mode::Strict).unwrap().unwrap().len(), 2);
}

#[test]
fn a_misplaced_extension_is_reported_in_strict_mode_only() {
    let input = file(&[
        square("ENOR", 0, 0, 0),
        square("EKDK", 0, 0, 4),
        square("ENOR", 0, 1, 2),
    ]);
    let errors = read_file(&input, Mode::Strict).unwrap().unwrap_err();
    assert_eq!(
        errors.errors(),
        &vec![FIRParsingError::ExtentionNotAfterFir(vec!["ENOR".to_string()])]
    );
    let all = read_file(&input, Mode::Fix).unwrap().unwrap();
    assert_eq!(
        all.iter().map(|b| (b.icao.as_str(), b.is_extension, b.id)).collect::<Vec<_>>(),
        vec![("ENOR", false, 0), ("ENOR", true, 2), ("EKDK", false, 1)]
    );
}

#[test]
fn every_recoverable_error_of_a_pass_is_reported() {
    let input = file(&[
        "ENOR|0|0|4|0|0|1|1|0.5|0.5\n0|1\n1|1\n1|0\n0|0\n".to_string(),
        square("EKDK", 0, 0, 4),
        "ESAA|0|0|4|0|0|1|1|0.5|0.5\n0|0\n1|0\n1|0\n0|1\n".to_string(),
    ]);
    let errors = read_file(&input, Mode::Strict).unwrap().unwrap_err();
    assert_eq!(
        errors.errors(),
        &vec![
            FIRParsingError::AirspaceDrawDirection("ENOR".to_string()),
            FIRParsingError::DuplicatePointError {
                points: vec![point("1", "0")],
                owner: "ESAA".to_string()
            },
        ]
    );
}

#[test]
fn a_fatal_error_is_reported_alone() {
    let input = file(&[
        "ENOR|0|0|4|0|0|1|1|0.5|0.5\n0|1\n1|1\n1|0\n0|0\n".to_string(),
        "EKDK|0|0|two|0|0|1|1|0.5|0.5\n".to_string(),
    ]);
    assert!(matches!(
        read_file(&input, Mode::Strict),
        Err(FIRParsingError::ParseIntError(_))
    ));
}

#[test]
fn an_extension_of_no_region_is_left_out_of_the_order() {
    let input = file(&[square("ENOR", 0, 0, 0), square("ZZZZ", 0, 1, 2)]);
    let all = read_file(&input, Mode::Fix).unwrap().unwrap();
    assert_eq!(all.len(), 1);
}

#[test]
fn order_and_places_of_records() {
    let input = file(&[
        square("ENOR", 0, 0, 0),
        square("EKDK", 0, 0, 4),
        square("ENOR", 0, 1, 2),
        square("EKDK", 0, 1, 6),
    ]);
    let mut records = Vec::new();
    let (mut count, mut linenr) = (0, 0);
    while let Ok(Ok(b)) = FIRBoundary::parse_fields(&input, &mut count, Mode::Strict, &mut linenr) {
        records.push(b);
    }
    assert_eq!(records.len(), 4);
    let all = order_records(&records);
    assert_eq!(all.iter().map(|b| b.id).collect::<Vec<_>>(), vec![0, 2, 1, 3]);
    assert_eq!(misplaced_codes(&all), vec!["ENOR".to_string()]);
    let r = assemble(&records, ErrorCollector::new(), Mode::Fix).unwrap().unwrap();
    assert_eq!(r, all);
}

#[test]
fn a_ring_is_closed_for_geojson() {
    let open = vec![point("0", "0"), point("1", "0"), point("1", "1")];
    let g = Geometry::from_ring(&open);
    assert_eq!(g.typ, "MultiPolygon");
    assert_eq!(
        g.array,
        vec![vec![point("0", "0"), point("1", "0"), point("1", "1"), point("0", "0")]]
    );
    let closed = vec![point("0", "0"), point("1", "0"), point("1", "1"), point("0.0", "0")];
    assert_eq!(Geometry::from_ring(&closed).array, vec![closed]);
}

#[test]
fn the_reference_system_is_crs84() {
    let crs = Crs::default();
    assert_eq!(crs.typ, "name");
    assert_eq!(
        crs.properties,
        vec![("name".to_string(), "urn:ogc:def:crs:OGC:1.3:CRS84".to_string())]
    );
}

#[test]
fn extensions_become_rings_of_their_region() {
    let input = file(&[
        square("ENOR", 0, 0, 0),
        square("ENOR", 0, 1, 2),
        square("EKDK", 1, 0, 4),
        square("ENOR", 0, 1, 6),
    ]);
    let all = read_file(&input, Mode::Fix).unwrap().unwrap();
    let features = generate_features(&all).unwrap();
    assert_eq!(features.len(), 2);
    assert_eq!(features[0].typ, "Feature");
    assert_eq!(features[0].properties.icao, "ENOR");
    assert!(!features[0].properties.is_oceanic);
    assert_eq!(features[0].properties.lable, point("0.5", "0.5"));
    assert_eq!(features[0].geometry.array.len(), 3);
    assert_eq!(
        features[0].geometry.array[1],
        vec![point("2", "2"), point("3", "2"), point("3", "3"), point("2", "3"), point("2", "2")]
    );
    assert_eq!(features[1].properties.icao, "EKDK");
    assert!(features[1].properties.is_oceanic);
    assert_eq!(features[1].geometry.array.len(), 1);
    let doc = to_geojson(&all).unwrap();
    assert_eq!(doc.typ, "FeatureCollection");
    assert_eq!(doc.name, "");
    assert_eq!(doc.crs, Crs::default());
    assert_eq!(doc.features, features);
}

#[test]
fn an_extension_without_region_cannot_be_converted() {
    let records: Vec<FIRBoundary> = {
        let input = file(&[square("ENOR", 0, 0, 0), square("ZZZZ", 0, 1, 2)]);
        let (mut count, mut linenr) = (0, 0);
        let mut v = Vec::new();
        while let Ok(Ok(b)) = FIRBoundary::parse_fields(&input, &mut count, Mode::Fix, &mut linenr)
        {
            v.push(b);
        }
        v
    };
    assert_eq!(records.len(), 2);
    assert_eq!(
        generate_features(&records),
        Err(FIRParsingError::OrphanExtension("ZZZZ".to_string()))
    );
}

#[test]
fn records_survive_the_way_to_geojson_and_back() {
    let input = file(&[
        square("ENOR", 0, 0, 0),
        square("ENOR", 0, 1, 2),
        "NZZO|1|0|4|10.0|170|20|-170.00|15|180\n10.0|-170.00\n20|-170\n20|170\n10|170\n"
            .to_string(),
        square("EKDK", 0, 0, 4),
        square("EKDK", 0, 1, 8),
    ]);
    let all = read_file(&input, Mode::Strict).unwrap().unwrap();
    let doc = to_geojson(&all).unwrap();
    let back = convert_from_geojson(&doc).unwrap();
    assert_eq!(back, all);
    assert_eq!(write_to_file(&back), input);
}

#[test]
fn a_feature_without_points_cannot_be_converted() {
    let input = file(&[square("ENOR", 0, 0, 0)]);
    let all = read_file(&input, Mode::Strict).unwrap().unwrap();
    let mut doc = to_geojson(&all).unwrap();
    doc.features[0].geometry.array.push(Vec::new());
    assert_eq!(convert_from_geojson(&doc), Err(FIRParsingError::DegenerateRing));
}

#[test]
fn rings_of_a_feature_become_a_region_and_its_extensions() {
    let first = vec![
        point("10", "-170"),
        point("20", "-170"),
        point("20", "170"),
        point("10", "170"),
        point("10.0", "-170.0"),
    ];
    let second = vec![point("0", "0"), point("1", "0"), point("1", "1")];
    let doc = GeoJson {
        typ: "FeatureCollection".to_string(),
        name: String::new(),
        crs: Crs::default(),
        features: vec![
            Feature {
                typ: "Feature".to_string(),
                properties: Properties {
                    icao: "NZZO".to_string(),
                    is_oceanic: true,
                    lable: point("15", "180"),
                },
                geometry: Geometry { typ: "MultiPolygon".to_string(), array: vec![first, second] },
            },
            Feature {
                typ: "Feature".to_string(),
                properties: Properties {
                    icao: "ENOR".to_string(),
                    is_oceanic: false,
                    lable: point("0.5", "0.5"),
                },
                geometry: Geometry {
                    typ: "MultiPolygon".to_string(),
                    array: vec![vec![point("5", "5")]],
                },
            },
        ],
    };
    let records = convert_from_geojson(&doc).unwrap();
    assert_eq!(
        write_to_file(&records),
        lines(
            "NZZO|1|0|4|10|170|20|-170|15|180\n10|-170\n20|-170\n20|170\n10|170\n\
             NZZO|1|1|3|0|0|1|1|15|180\n0|0\n1|0\n1|1\n\
             ENOR|0|0|1|5|5|5|5|0.5|0.5\n5|5\n"
        )
    );
    assert_eq!(records.iter().map(|b| b.id).collect::<Vec<_>>(), vec![0, 1, 2]);
    assert_eq!(
        records.iter().map(|b| b.is_extension).collect::<Vec<_>>(),
        vec![false, true, false]
    );
}
