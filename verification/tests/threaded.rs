use onebrc::input::LineError;
use onebrc::threaded::{
    chunk_bounds, merge_partial_maps, merge_station_maps, parse, parse_chunk, parse_float_str_to_int,
    print_string, round_to_1decimal, Station, StationMap,
};

fn text(station: &Station) -> String {
    String::from_utf8(station.display_text()).unwrap()
}

/// The exact mean of `sum` hundredths over `count` readings, rounded to the
/// nearest tenth with halves upward, in degrees.
fn proper_mean(sum: i64, count: u32) -> f64 {
    let (s, c) = (sum as i128, count as i128);
    (s + 5 * c).div_euclid(10 * c) as f64 / 10.0
}

fn fields(s: &Station) -> (Vec<u8>, i32, i32, i64, u32) {
    (s.name.to_vec(), s.min, s.max, s.sum, s.count)
}

fn all_fields(m: &StationMap) -> Vec<(Vec<u8>, i32, i32, i64, u32)> {
    m.as_slice().iter().map(fields).collect()
}

#[test]
fn lib_float_parse_pos() {
    assert_eq!(parse_float_str_to_int(b"10.20"), 10200);
}

#[test]
fn lib_float_parse_neg() {
    assert_eq!(parse_float_str_to_int(b"-10.20"), -10200);
}

#[test]
fn lib_float_parse_large() {
    assert_eq!(parse_float_str_to_int(b"11110.20"), 11110200);
}

#[test]
fn lib_station_convertions() {
    let station = Station::new(b"Test", 6000);
    assert_eq!(station.min as f64 / 100.0, 60.0);
}

#[test]
fn lib_test_parse() {
    let mut stations = StationMap::new();
    let measurment_str = b"test;60.0";
    let station_name: &[u8] = b"test";

    parse(measurment_str, &mut stations).unwrap();
    {
        let station = stations.get(station_name).unwrap();
        assert_eq!("test=60.0/60.0/60.0", text(station));
    }

    parse(b"test;30.0", &mut stations).unwrap();
    {
        let station = stations.get(station_name).unwrap();
        assert_eq!("test=30.0/45.0/60.0", text(station));
    }
    parse(b"test;-45.0", &mut stations).unwrap();
    {
        let station = stations.get(station_name).unwrap();
        assert_eq!("test=-45.0/15.0/60.0", text(station));
    }
}

#[test]
fn threaded_round_to_1decimal_values() {
    assert_eq!(round_to_1decimal(14), 1);
    assert_eq!(round_to_1decimal(15), 2);
    assert_eq!(round_to_1decimal(-15), -1);
    assert_eq!(round_to_1decimal(-16), -2);
    assert_eq!(round_to_1decimal(-1506), -151);
    assert_eq!(round_to_1decimal(-1505), -150);
    assert_eq!(round_to_1decimal(4500), 450);
    assert_eq!(round_to_1decimal(i64::MIN), -922337203685477581);
    assert_eq!(round_to_1decimal(i64::MAX), 922337203685477581);
    for n in -3000i64..3000 {
        assert_eq!(round_to_1decimal(n) as f64 / 10.0, proper_mean(n, 1));
        assert_eq!(round_to_1decimal(n), ((n as f64) / 10.0 + 0.5).floor() as i64);
    }
}

#[test]
fn threaded_text_matches_float_formatting() {
    for m in -3000i32..3000 {
        if m.rem_euclid(10) == 5 {
            assert!(!Station::new(b"x", m).text_is_exact());
            continue;
        }
        let station = Station::new(b"x", m);
        assert!(station.text_is_exact());
        let expected = format!(
            "x={:.1}/{:.1}/{:.1}",
            m as f64 / 100.0,
            proper_mean(station.sum, station.count),
            m as f64 / 100.0
        );
        assert_eq!(text(&station), expected);
    }
}

#[test]
fn threaded_text_negative_rounding_to_zero() {
    let station = Station { name: b"n", min: -3, max: 4, sum: -7, count: 2 };
    assert_eq!(text(&station), "n=-0.0/0.0/0.0");
    let station = Station { name: b"n", min: -16, max: 26, sum: -16, count: 1 };
    assert_eq!(text(&station), "n=-0.2/-0.2/0.3");
}

#[test]
fn threaded_parse_refusals() {
    let mut stations = StationMap::new();
    assert_eq!(parse(b"", &mut stations), Ok(()));
    assert_eq!(parse(b"missing", &mut stations), Err(LineError::MissingSemicolon));
    assert_eq!(parse(b"x;214748365", &mut stations), Err(LineError::Overflow));
    assert_eq!(stations.len(), 0);
    assert_eq!(parse(b"x;214748364", &mut stations), Ok(()));
    assert_eq!(stations.get(b"x").unwrap().min, 2147483640);
}

#[test]
fn threaded_chunk_bounds_newline_aligned() {
    let file = b"a;1.0\nb;2.0\nc;3.0\n";
    assert_eq!(chunk_bounds(file, 2), Some(vec![(0, 12), (12, 18)]));
    assert_eq!(chunk_bounds(file, 1), Some(vec![(0, 18)]));
    assert_eq!(chunk_bounds(file, 100), Some(vec![(0, 6), (6, 12), (12, 18)]));
    assert_eq!(chunk_bounds(b"", 4), Some(vec![]));
    assert_eq!(chunk_bounds(b"a;1.0", 2), None);
    assert_eq!(chunk_bounds(b"a;1.0\nb;2", 2), Some(vec![(0, 6), (6, 9)]));
    assert_eq!(chunk_bounds(b"x\nyyyyyyyy", 5), None);
}

#[test]
fn threaded_parse_chunk_lines() {
    let chunk = b"b;1.5\n\na;-2.0\nb;2.5\ntrailing;9";
    let m = parse_chunk(chunk).unwrap();
    assert_eq!(
        all_fields(&m),
        vec![(b"a".to_vec(), -200, -200, -200, 1), (b"b".to_vec(), 150, 250, 400, 2)]
    );
    assert!(matches!(parse_chunk(b"a;1.0\nbad\n"), Err(LineError::MissingSemicolon)));
}

#[test]
fn threaded_chunked_equals_sequential() {
    let file: &[u8] = b"Oslo;-3.4\nRome;21.0\nOslo;4.1\nLima;18.9\nRome;-0.5\nLima;20.0\nOslo;0.0\nCairo;35.2\n";
    let whole = parse_chunk(file).unwrap();
    for threads in 1..12usize {
        let bounds = chunk_bounds(file, threads).unwrap();
        let partials: Vec<StationMap> = bounds.iter().map(|&(s, e)| parse_chunk(&file[s..e]).unwrap()).collect();
        let merged = merge_partial_maps(partials).unwrap();
        assert_eq!(all_fields(&merged), all_fields(&whole));
    }
}

#[test]
fn threaded_merge_commutes() {
    let a = parse_chunk(b"x;1.0\ny;2.0\n").unwrap();
    let b = parse_chunk(b"y;-4.0\nz;3.3\n").unwrap();
    let ab = merge_station_maps(a, &b).unwrap();
    let a = parse_chunk(b"x;1.0\ny;2.0\n").unwrap();
    let ba = merge_station_maps(b, &a).unwrap();
    assert_eq!(all_fields(&ab), all_fields(&ba));
    assert_eq!(
        all_fields(&ab),
        vec![
            (b"x".to_vec(), 100, 100, 100, 1),
            (b"y".to_vec(), -400, 200, -200, 2),
            (b"z".to_vec(), 330, 330, 330, 1)
        ]
    );
}

#[test]
fn threaded_print_string_sorted() {
    let m = parse_chunk(b"b;1.0\na;-2.5\nab;0.3\na;2.5\n").unwrap();
    let out = String::from_utf8(print_string(&m)).unwrap();
    assert_eq!(out, "{a=-2.5/0.0/2.5, ab=0.3/0.3/0.3, b=1.0/1.0/1.0}\n");
}

#[test]
fn threaded_statistics_stay_ordered() {
    let m = parse_chunk(b"p;5.0\np;-3.2\np;7.7\np;0.1\n").unwrap();
    let s = m.get(b"p").unwrap();
    assert_eq!((s.min, s.max, s.sum, s.count), (-320, 770, 960, 4));
    let mean = s.sum / s.count as i64;
    assert!(s.min as i64 <= mean && mean <= s.max as i64);
}

#[test]
fn threaded_merge_associates() {
    let parts: [&[u8]; 3] = [b"x;1.0\ny;2.0\n", b"y;-4.0\nz;3.3\n", b"z;9.9\nx;-1.1\n"];
    let a = || parse_chunk(parts[0]).unwrap();
    let b = || parse_chunk(parts[1]).unwrap();
    let c = || parse_chunk(parts[2]).unwrap();
    let left = merge_station_maps(merge_station_maps(a(), &b()).unwrap(), &c()).unwrap();
    let bc = merge_station_maps(b(), &c()).unwrap();
    let right = merge_station_maps(a(), &bc).unwrap();
    assert_eq!(all_fields(&left), all_fields(&right));
}

#[test]
fn threaded_chunks_partition_file() {
    let mut file = Vec::new();
    for i in 0..200 {
        file.extend_from_slice(format!("s{};{}.{}\n", i % 17, i, i % 10).as_bytes());
    }
    for threads in 1..40usize {
        let bounds = chunk_bounds(&file, threads).unwrap();
        assert_eq!(bounds[0].0, 0);
        assert_eq!(bounds[bounds.len() - 1].1, file.len());
        for w in bounds.windows(2) {
            assert_eq!(w[0].1, w[1].0);
            assert_eq!(file[w[0].1 - 1], b'\n');
        }
        for &(s, e) in &bounds {
            assert!(s < e);
        }
    }
}

#[test]
fn threaded_mean_properly_rounded() {
    let m = parse_chunk(b"x;-1.0\nx;-1.0\nx;-1.0\nx;-1.0\nx;-1.3\n").unwrap();
    let s = m.get(b"x").unwrap();
    assert_eq!((s.min, s.max, s.sum, s.count), (-130, -100, -530, 5));
    assert_eq!(text(s), "x=-1.3/-1.1/-1.0");
    let s = Station { name: b"y", min: -1506, max: -1506, sum: -1506, count: 1 };
    assert_eq!(text(&s), "y=-15.1/-15.1/-15.1");
    let s = Station { name: b"z", min: 100, max: 110, sum: 210, count: 2 };
    assert_eq!(text(&s), "z=1.0/1.1/1.1");
    for sum in -200i64..200 {
        for count in 1u32..7 {
            let s = Station { name: b"w", min: -2000, max: 2000, sum, count };
            let expected = format!("w=-20.0/{:.1}/20.0", proper_mean(sum, count));
            assert_eq!(text(&s), expected);
        }
    }
}

fn summary(file: &[u8], threads: usize) -> String {
    let bounds = chunk_bounds(file, threads).unwrap();
    let partials: Vec<StationMap> = bounds.iter().map(|&(s, e)| parse_chunk(&file[s..e]).unwrap()).collect();
    String::from_utf8(print_string(&merge_partial_maps(partials).unwrap())).unwrap()
}

#[test]
fn threaded_summary_independent_of_threads_and_order() {
    let file: &[u8] = b"Oslo;-3.4\nRome;21.0\nOslo;4.1\nLima;18.9\nRome;-0.5\nLima;20.0\nOslo;0.0\nCairo;35.2\n";
    let reordered: &[u8] = b"Cairo;35.2\nOslo;0.0\nLima;20.0\nRome;-0.5\nLima;18.9\nOslo;4.1\nRome;21.0\nOslo;-3.4\n";
    let expected = "{Cairo=35.2/35.2/35.2, Lima=18.9/19.5/20.0, Oslo=-3.4/0.2/4.1, Rome=-0.5/10.3/21.0}\n";
    for threads in 1..12usize {
        assert_eq!(summary(file, threads), expected);
        assert_eq!(summary(reordered, threads), expected);
    }
}

#[test]
fn threaded_equal_maps_print_alike() {
    let a = parse_chunk(b"b;1.0\na;2.0\nc;3.0\n").unwrap();
    let b = parse_chunk(b"c;3.0\na;2.0\nb;1.0\n").unwrap();
    assert_eq!(all_fields(&a), all_fields(&b));
    assert_eq!(print_string(&a), print_string(&b));
}

#[test]
fn threaded_len_counts_new_stations() {
    let mut stations = StationMap::new();
    assert_eq!(stations.len(), 0);
    parse(b"a;1.0", &mut stations).unwrap();
    parse(b"b;1.0", &mut stations).unwrap();
    parse(b"a;2.0", &mut stations).unwrap();
    assert_eq!(stations.len(), 2);
}
