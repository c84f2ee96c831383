use onebrc::baseline::{format_stations, parse, parse_float_str_to_int, Station, StationMap};
use onebrc::input::LineError;

/// The exact mean of `sum` tenths over `count` readings, rounded to the
/// nearest tenth with halves upward, in degrees.
fn proper_mean(sum: i64, count: u32) -> f64 {
    let (s, c) = (sum as i128, count as i128);
    (2 * s + c).div_euclid(2 * c) as f64 / 10.0
}

fn text(station: &Station) -> String {
    String::from_utf8(station.display_text()).unwrap()
}

#[test]
fn main_float_parse_pos() {
    assert_eq!(parse_float_str_to_int(b"10.20"), 1020);
}

#[test]
fn main_float_parse_neg() {
    assert_eq!(parse_float_str_to_int(b"-10.20"), -1020);
}

#[test]
fn main_float_parse_large() {
    assert_eq!(parse_float_str_to_int(b"11110.20"), 1111020);
}

#[test]
fn main_station_convertions() {
    let station = Station::new(b"Test", 600);
    assert_eq!(station.min as f64 / 10.0, 60.0);
}

#[test]
fn main_test_parse() {
    let mut stations = StationMap::new();
    let measurment_str = b"test;60.0";
    let station_name: &[u8] = b"test";

    parse(measurment_str, &mut stations).unwrap();
    {
        let station = stations.get(station_name).unwrap();
        assert_eq!("test=60.0/60.0/60.0, ", text(station));
    }

    parse(b"test;30.0", &mut stations).unwrap();
    {
        let station = stations.get(station_name).unwrap();
        assert_eq!("test=30.0/45.0/60.0, ", text(station));
    }
    parse(b"test;-45.0", &mut stations).unwrap();
    {
        let station = stations.get(station_name).unwrap();
        assert_eq!("test=-45.0/15.0/60.0, ", text(station));
    }
}

#[test]
fn baseline_new_station_fields() {
    let station = Station::new(b"Oslo", -37);
    assert_eq!(&*station.name, b"Oslo");
    assert_eq!((station.min, station.max, station.sum, station.count), (-37, -37, -37, 1));
}

#[test]
fn baseline_parse_reading_forms() {
    assert_eq!(parse_float_str_to_int(b"0.0"), 0);
    assert_eq!(parse_float_str_to_int(b"-0.1"), -1);
    assert_eq!(parse_float_str_to_int(b"9"), 9);
    assert_eq!(parse_float_str_to_int(b""), 0);
    assert_eq!(parse_float_str_to_int(b"1-2.3"), -123);
    assert_eq!(parse_float_str_to_int(b"2147483647"), 2147483647);
}

#[test]
fn baseline_parse_refusals() {
    let mut stations = StationMap::new();
    assert_eq!(parse(b"", &mut stations), Ok(()));
    assert_eq!(stations.len(), 0);
    assert_eq!(parse(b"no separator", &mut stations), Err(LineError::MissingSemicolon));
    assert_eq!(parse(b"x;2147483648", &mut stations), Err(LineError::Overflow));
    assert_eq!(stations.len(), 0);
    parse(b"a;b;1.5", &mut stations).unwrap();
    let station = stations.get(b"a").unwrap();
    assert_eq!(station.min, 15);
    assert!(stations.get(b"a;b").is_none());
}

#[test]
fn baseline_name_split_at_first_semicolon() {
    let mut stations = StationMap::new();
    parse(b"St. John's;12.3", &mut stations).unwrap();
    parse(b"Abha;-1.0", &mut stations).unwrap();
    assert_eq!(stations.len(), 2);
    let s = stations.get(b"St. John's").unwrap();
    assert_eq!((s.min, s.max, s.sum, s.count), (123, 123, 123, 1));
    assert!(stations.get(b"St. John").is_none());
}

#[test]
fn baseline_statistics_stay_ordered() {
    let mut stations = StationMap::new();
    for line in [&b"p;5.0"[..], b"p;-3.2", b"p;7.7", b"p;0.1"] {
        parse(line, &mut stations).unwrap();
    }
    let s = stations.get(b"p").unwrap();
    assert_eq!((s.min, s.max, s.sum, s.count), (-32, 77, 96, 4));
    let mean = s.sum / s.count as i64;
    assert!(s.min as i64 <= mean && mean <= s.max as i64);
}

#[test]
fn baseline_format_stations_sorted() {
    let mut stations = StationMap::new();
    parse(b"b;1.0", &mut stations).unwrap();
    parse(b"a;-2.5", &mut stations).unwrap();
    parse(b"ab;0.3", &mut stations).unwrap();
    parse(b"a;2.5", &mut stations).unwrap();
    let out = String::from_utf8(format_stations(&stations)).unwrap();
    assert_eq!(out, "{a=-2.5/0.0/2.5, ab=0.3/0.3/0.3, b=1.0/1.0/1.0, }\n");
    let empty = StationMap::new();
    assert_eq!(String::from_utf8(format_stations(&empty)).unwrap(), "{}\n");
}

#[test]
fn baseline_text_matches_float_formatting() {
    for v in -2500i32..2500 {
        let station = Station::new(b"x", v);
        assert!(station.text_is_exact());
        let expected = format!(
            "x={:.1}/{:.1}/{:.1}, ",
            v as f64 / 10.0,
            proper_mean(station.sum, station.count),
            v as f64 / 10.0
        );
        assert_eq!(text(&station), expected);
    }
    let station = Station { name: b"m".to_vec().into_boxed_slice(), min: -7, max: 9, sum: -3, count: 2 };
    assert_eq!(text(&station), "m=-0.7/-0.1/0.9, ");
    let station = Station { name: b"z".to_vec().into_boxed_slice(), min: -7, max: 9, sum: -1, count: 2 };
    assert_eq!(text(&station), "z=-0.7/0.0/0.9, ");
    let station = Station { name: b"v".to_vec().into_boxed_slice(), min: -7, max: 9, sum: -5, count: 3 };
    assert_eq!(text(&station), "v=-0.7/-0.2/0.9, ");
}

#[test]
fn baseline_text_exactness_limits() {
    let station = Station { name: b"q".to_vec().into_boxed_slice(), min: 0, max: 0, sum: 0, count: 0 };
    assert!(!station.text_is_exact());
    let station = Station { name: b"q".to_vec().into_boxed_slice(), min: 0, max: 0, sum: i64::MAX, count: 1 };
    assert!(!station.text_is_exact());
    let station = Station { name: b"q".to_vec().into_boxed_slice(), min: 0, max: 0, sum: 1_000_000_000_000_000, count: 1 };
    assert!(station.text_is_exact());
}

#[test]
fn baseline_mean_properly_rounded() {
    let mut stations = StationMap::new();
    parse(b"a;1.0", &mut stations).unwrap();
    parse(b"a;1.1", &mut stations).unwrap();
    assert_eq!(text(stations.get(b"a").unwrap()), "a=1.0/1.1/1.1, ");
    for sum in -300i64..300 {
        for count in 1u32..8 {
            let s = Station { name: b"w".to_vec().into_boxed_slice(), min: -99, max: 99, sum, count };
            assert_eq!(text(&s), format!("w=-9.9/{:.1}/9.9, ", proper_mean(sum, count)));
        }
    }
}

#[test]
fn baseline_summary_independent_of_line_order() {
    let lines: [&[u8]; 6] = [b"x;1.0", b"y;-2.0", b"x;3.5", b"z;0.0", b"y;4.0", b"x;-1.5"];
    let mut forward = StationMap::new();
    for line in lines.iter() {
        parse(line, &mut forward).unwrap();
    }
    let mut backward = StationMap::new();
    for line in lines.iter().rev() {
        parse(line, &mut backward).unwrap();
    }
    let a = String::from_utf8(format_stations(&forward)).unwrap();
    let b = String::from_utf8(format_stations(&backward)).unwrap();
    assert_eq!(a, b);
    assert_eq!(a, "{x=-1.5/1.0/3.5, y=-2.0/1.0/4.0, z=0.0/0.0/0.0, }\n");
}

#[test]
fn baseline_station_clone_copies_name() {
    let s = Station::new(b"Hamburg", 123);
    let c = s.clone();
    assert_eq!(&*c.name, b"Hamburg");
    assert_eq!((c.min, c.max, c.sum, c.count), (123, 123, 123, 1));
    assert_ne!(c.name.as_ptr(), s.name.as_ptr());
}

#[test]
fn baseline_len_counts_new_stations() {
    let mut stations = StationMap::new();
    assert_eq!(stations.len(), 0);
    parse(b"a;1.0", &mut stations).unwrap();
    parse(b"b;1.0", &mut stations).unwrap();
    parse(b"a;2.0", &mut stations).unwrap();
    assert_eq!(stations.len(), 2);
}
