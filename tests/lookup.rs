use ip_check::address::{decimal_to_dotted, ip_string_to_decimal, ip_to_decimal, LookupError};
use ip_check::digits::parse_u32;
use ip_check::range::{find_ip_range, IpRange};
use ip_check::table::{build_table, read_rows};
use ip_check::{look_up, IpLookup, Looker};
use std::path::PathBuf;

const DATA: &str = "start,end,country,code,region,city\n\
1000,2000,US,x,CA,LA\n\
2001,3000,CA,x,ON,Toronto\n\
5000,6000,US,x,NY,New York\n";

fn range(start: u32, end: u32, country: &str, region: &str, city: &str) -> IpRange {
    IpRange::new(start, end, country.to_string(), region.to_string(), city.to_string())
}

fn example_table() -> Vec<IpRange> {
    vec![range(1000, 2000, "US", "CA", "LA"), range(2001, 3000, "CA", "ON", "Toronto")]
}

fn place(r: &Option<IpRange>) -> Option<(String, String, String)> {
    r.as_ref().map(|x| (x.country.clone(), x.region.clone(), x.city.clone()))
}

fn owned(a: &str, b: &str, c: &str) -> Option<(String, String, String)> {
    Some((a.to_string(), b.to_string(), c.to_string()))
}

fn looker(data: &str, countries: Option<&Vec<String>>) -> Looker {
    Looker::new(PathBuf::from("locationv4.csv"), data.as_bytes(), countries)
}

#[test]
fn example_table_lookups() {
    let t = example_table();
    assert_eq!(place(&find_ip_range(1500, &t)), owned("US", "CA", "LA"));
    assert_eq!(place(&find_ip_range(2001, &t)), owned("CA", "ON", "Toronto"));
    assert_eq!(place(&find_ip_range(2000, &t)), owned("US", "CA", "LA"));
    assert!(find_ip_range(5000, &t).is_none());
}

#[test]
fn every_address_of_a_range_is_found() {
    let t = example_table();
    for ip in 1000..=2000u32 {
        let r = find_ip_range(ip, &t).unwrap();
        assert_eq!((r.start, r.end), (1000, 2000));
    }
    for ip in (2001..=3000u32).step_by(7) {
        assert_eq!(find_ip_range(ip, &t).unwrap().city, "Toronto");
    }
}

#[test]
fn range_bounds_are_inclusive() {
    let t = vec![range(10, 20, "A", "r", "c"), range(40, 50, "B", "r", "c")];
    assert_eq!(find_ip_range(10, &t).unwrap().country, "A");
    assert_eq!(find_ip_range(20, &t).unwrap().country, "A");
    assert!(find_ip_range(9, &t).is_none());
    assert!(find_ip_range(21, &t).is_none());
    assert_eq!(find_ip_range(40, &t).unwrap().country, "B");
    assert_eq!(find_ip_range(50, &t).unwrap().country, "B");
    assert!(find_ip_range(51, &t).is_none());
}

#[test]
fn gaps_between_ranges_match_nothing() {
    let t = vec![range(10, 20, "A", "r", "c"), range(40, 50, "B", "r", "c")];
    for ip in 21..40u32 {
        assert!(find_ip_range(ip, &t).is_none());
    }
}

#[test]
fn extreme_addresses() {
    let t = vec![range(0, 0, "A", "r", "c"), range(u32::MAX, u32::MAX, "B", "r", "c")];
    assert_eq!(find_ip_range(0, &t).unwrap().country, "A");
    assert_eq!(find_ip_range(u32::MAX, &t).unwrap().country, "B");
    assert!(find_ip_range(1, &t).is_none());
}

#[test]
fn empty_table_matches_nothing() {
    let t: Vec<IpRange> = Vec::new();
    assert!(find_ip_range(0, &t).is_none());
    assert!(find_ip_range(u32::MAX, &t).is_none());
    let l = looker("start,end,country,code,region,city\n", None);
    assert!(l.ip_ranges.is_empty());
    assert!(l.failure.is_none());
    assert!(l.look_up("1.2.3.4").is_none());
    assert!(l.look_up_ipv4(&[0, 0, 0, 0]).is_none());
}

#[test]
fn found_range_is_an_independent_copy() {
    let t = example_table();
    let mut r = find_ip_range(1500, &t).unwrap();
    r.city.push_str("X");
    assert_eq!(t[0].city, "LA");
}

#[test]
fn dotted_quad_to_decimal() {
    assert_eq!(ip_string_to_decimal("12.22.104.13"), Ok(202795021));
    assert_eq!(ip_string_to_decimal("0.0.0.0"), Ok(0));
    assert_eq!(ip_string_to_decimal("255.255.255.255"), Ok(u32::MAX));
    assert_eq!(ip_string_to_decimal("1.0.0.0"), Ok(16777216));
}

#[test]
fn malformed_addresses_are_parse_errors() {
    for s in [
        "999.1.1.1", "256.0.0.1", "1.2.3", "1.2.3.4.5", "01.2.3.4", "1..2.3", "", "1.2.3.4 ",
        "+1.2.3.4", "a.b.c.d", "1.2.3.", "1000.1.1.1", "1.2.3.04",
    ] {
        assert_eq!(ip_string_to_decimal(s), Err(LookupError::Parse), "{}", s);
    }
}

#[test]
fn decimal_to_dotted_examples() {
    assert_eq!(decimal_to_dotted(202795021), "12.22.104.13");
    assert_eq!(decimal_to_dotted(0), "0.0.0.0");
    assert_eq!(decimal_to_dotted(u32::MAX), "255.255.255.255");
    assert_eq!(decimal_to_dotted(0x0a00_6401), "10.0.100.1");
}

#[test]
fn dotted_round_trip() {
    for s in ["12.22.104.13", "0.0.0.0", "255.255.255.255", "10.0.100.1", "1.23.0.199"] {
        let v = ip_string_to_decimal(s).unwrap();
        assert_eq!(decimal_to_dotted(v), s);
    }
    for v in [0u32, 1, 255, 256, 65535, 16777215, 202795021, u32::MAX] {
        assert_eq!(ip_string_to_decimal(&decimal_to_dotted(v)), Ok(v));
    }
}

#[test]
fn octets_to_decimal() {
    assert_eq!(ip_to_decimal(&[12, 22, 104, 13]), 202795021);
    assert_eq!(ip_to_decimal(&[255, 255, 255, 255]), u32::MAX);
    assert_eq!(ip_to_decimal(&[0, 0, 1, 0]), 256);
}

#[test]
fn bounds_are_read_as_u32() {
    assert_eq!(parse_u32("0"), Some(0));
    assert_eq!(parse_u32("+5"), Some(5));
    assert_eq!(parse_u32("007"), Some(7));
    assert_eq!(parse_u32("4294967295"), Some(u32::MAX));
    assert_eq!(parse_u32("4294967296"), None);
    assert_eq!(parse_u32("99999999999999999999"), None);
    assert_eq!(parse_u32(""), None);
    assert_eq!(parse_u32("+"), None);
    assert_eq!(parse_u32("-1"), None);
    assert_eq!(parse_u32(" 5"), None);
    assert_eq!(parse_u32("12a"), None);
}

#[test]
fn csv_rows_skip_the_header() {
    let rows = read_rows(DATA.as_bytes()).unwrap();
    assert_eq!(rows.len(), 3);
    assert_eq!(rows[0], vec!["1000", "2000", "US", "x", "CA", "LA"]);
    assert_eq!(rows[2][5], "New York");
}

#[test]
fn csv_rows_of_unequal_length_fail() {
    assert_eq!(read_rows(b"a,b,c\n1,2,3\n4,5\n"), Err(LookupError::Data));
}

#[test]
fn looker_loads_and_looks_up() {
    let l = looker(DATA, None);
    assert!(l.failure.is_none());
    assert!(!l.filter_ignored);
    assert_eq!(l.ip_ranges.len(), 3);
    assert_eq!(l.file_path, PathBuf::from("locationv4.csv"));
    assert_eq!(place(&l.look_up("0.0.7.209")), owned("CA", "ON", "Toronto"));
    assert_eq!(place(&l.look_up("0.0.3.232")), owned("US", "CA", "LA"));
    assert_eq!(place(&l.look_up_ipv4(&[0, 0, 19, 136])), owned("US", "NY", "New York"));
    assert!(l.look_up("0.0.15.160").is_none());
    assert!(l.look_up("999.1.1.1").is_none());
}

#[test]
fn country_filter_keeps_named_countries() {
    let only_us = vec!["US".to_string()];
    let l = looker(DATA, Some(&only_us));
    assert_eq!(l.ip_ranges.len(), 2);
    assert!(l.look_up("0.0.7.209").is_none());
    assert_eq!(l.look_up("0.0.3.232").unwrap().city, "LA");
}

#[test]
fn filter_by_all_countries_keeps_everything() {
    let all = vec!["US".to_string(), "CA".to_string()];
    let filtered = looker(DATA, Some(&all));
    let plain = looker(DATA, None);
    let cities = |l: &Looker| l.ip_ranges.iter().map(|r| r.city.clone()).collect::<Vec<_>>();
    assert_eq!(cities(&filtered), cities(&plain));
    assert!(!filtered.filter_ignored);
}

#[test]
fn empty_filter_is_ignored() {
    let none: Vec<String> = Vec::new();
    let l = looker(DATA, Some(&none));
    assert!(l.filter_ignored);
    assert_eq!(l.ip_ranges.len(), 3);
}

#[test]
fn malformed_rows_fail_the_whole_build() {
    let header = "start,end,country,code,region,city\n";
    for body in [
        "1000,abc,US,x,CA,LA\n",
        "1000,4294967296,US,x,CA,LA\n",
        "2000,1000,US,x,CA,LA\n",
        "1000,2000,US,x,CA,LA\n1500,3000,CA,x,ON,Toronto\n",
        "2001,3000,CA,x,ON,Toronto\n1000,2000,US,x,CA,LA\n",
    ] {
        let data = format!("{}{}", header, body);
        let l = looker(&data, None);
        assert_eq!(l.failure, Some(LookupError::Data), "{}", body);
        assert!(l.ip_ranges.is_empty());
        assert!(l.look_up("0.0.7.209").is_none());
    }
}

#[test]
fn short_rows_are_data_errors() {
    let rows = vec![vec!["1".to_string(), "2".to_string(), "US".to_string()]];
    assert_eq!(build_table(&rows, None).unwrap_err(), LookupError::Data);
}

#[test]
fn filtered_out_rows_are_not_checked_for_order() {
    let header = "start,end,country,code,region,city\n";
    let data = format!("{}{}", header, "5000,6000,US,x,NY,NYC\n1000,2000,CA,x,ON,Ottawa\n");
    let only_us = vec!["US".to_string()];
    let l = looker(&data, Some(&only_us));
    assert!(l.failure.is_none());
    assert_eq!(l.ip_ranges.len(), 1);
}

#[test]
fn one_shot_look_up() {
    assert_eq!(place(&look_up("0.0.7.209", DATA.as_bytes())), owned("CA", "ON", "Toronto"));
    assert!(look_up("0.0.0.1", DATA.as_bytes()).is_none());
    assert!(look_up("999.1.1.1", DATA.as_bytes()).is_none());
    assert!(look_up("0.0.7.209", b"a,b\n1,2,3\n").is_none());
}
