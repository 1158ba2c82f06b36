use dotted_quad::address::IPv4;
use dotted_quad::batch::{parse_ips_as, Converted, Representation};
use dotted_quad::ordering::max;
use dotted_quad::outcome::{dangerous_outcome, do_something_dangerous};
use dotted_quad::parse::{parse_address, parse_addresses, parse_ips, parse_octet, split_chars};

const SAMPLE: &str = "256.0.0.0 0.0.0.0 127.0.0.1 192.168.0.1 1.1.1.1";

fn chars(s: &str) -> Vec<char> {
    s.chars().collect()
}

#[test]
fn test() {
    let byte = 1u32;
    let shifted = byte << 24;
    assert_eq!(shifted, 16777216);
}

#[test]
fn sample_as_packed_integers() {
    let parsed: Vec<u32> = parse_ips(SAMPLE);
    assert_eq!(parsed, vec![0, 2130706433, 3232235521, 16843009]);
}

#[test]
fn sample_as_packed_batch() {
    match parse_ips_as(SAMPLE, Representation::Packed) {
        Converted::Packed(v) => assert_eq!(v, vec![0, 2130706433, 3232235521, 16843009]),
        other => panic!("wrong representation: {:?}", other),
    }
}

#[test]
fn sample_as_canonical_strings() {
    let parsed: Vec<String> = parse_ips(SAMPLE);
    assert_eq!(parsed, vec!["0.0.0.0", "127.0.0.1", "192.168.0.1", "1.1.1.1"]);
    match parse_ips_as(SAMPLE, Representation::Canonical) {
        Converted::Canonical(v) => assert_eq!(v, parsed),
        other => panic!("wrong representation: {:?}", other),
    }
}

#[test]
fn sample_as_component_tuples() {
    let parsed: Vec<(u8, u8, u8, u8)> = parse_ips(SAMPLE);
    let expected = vec![(0, 0, 0, 0), (127, 0, 0, 1), (192, 168, 0, 1), (1, 1, 1, 1)];
    assert_eq!(parsed, expected);
    match parse_ips_as(SAMPLE, Representation::Components) {
        Converted::Components(v) => assert_eq!(v, expected),
        other => panic!("wrong representation: {:?}", other),
    }
}

#[test]
fn empty_input_yields_nothing() {
    assert!(parse_ips::<u32>("").is_empty());
    assert!(parse_ips::<String>("").is_empty());
    assert!(parse_ips::<(u8, u8, u8, u8)>("").is_empty());
    assert!(matches!(parse_ips_as("", Representation::Packed), Converted::Packed(v) if v.is_empty()));
    assert!(matches!(parse_ips_as("", Representation::Canonical), Converted::Canonical(v) if v.is_empty()));
    assert!(matches!(parse_ips_as("", Representation::Components), Converted::Components(v) if v.is_empty()));
}

#[test]
fn canonical_text_of_address() {
    let ip = IPv4(192, 168, 0, 1);
    assert_eq!(ip.to_canonical(), "192.168.0.1");
    assert_eq!(String::from(ip), "192.168.0.1");
    assert_eq!(IPv4(0, 10, 100, 255).to_canonical(), "0.10.100.255");
}

#[test]
fn canonical_text_parses_back() {
    for ip in [IPv4(192, 168, 0, 1), IPv4(0, 0, 0, 0), IPv4(255, 9, 10, 99), IPv4(1, 100, 200, 255)] {
        assert_eq!(parse_address(&ip.to_canonical()), Some(ip));
        assert_eq!(parse_addresses(&ip.to_canonical()), vec![ip]);
    }
}

#[test]
fn packed_value_decodes_to_components() {
    let ip = IPv4(192, 168, 0, 1);
    let v = ip.to_packed();
    assert_eq!(v, 3232235521);
    assert_eq!(((v >> 24) & 0xff, (v >> 16) & 0xff, (v >> 8) & 0xff, v & 0xff), (192, 168, 0, 1));
    assert_eq!(u32::from(IPv4(255, 255, 255, 255)), u32::MAX);
    assert_ne!(IPv4(1, 0, 0, 0).to_packed(), IPv4(0, 0, 0, 1).to_packed());
    assert_eq!(IPv4(1, 2, 3, 4).to_components(), (1, 2, 3, 4));
}

#[test]
fn well_formed_tokens_are_all_kept_in_order() {
    let parsed: Vec<u32> = parse_ips("10.0.0.1 10.0.0.2 10.0.0.3");
    assert_eq!(parsed, vec![167772161, 167772162, 167772163]);
}

#[test]
fn malformed_tokens_are_dropped() {
    let parsed = parse_addresses("1.2.3 a.b.c.d 9.9.9.9 300.1.1.1 1.2.x.4 5.6.7.8");
    assert_eq!(parsed, vec![IPv4(9, 9, 9, 9), IPv4(5, 6, 7, 8)]);
}

#[test]
fn first_four_parsing_groups_are_taken() {
    assert_eq!(parse_address("1.2.3.4.5"), Some(IPv4(1, 2, 3, 4)));
    assert_eq!(parse_address("1.x.2.3.4"), Some(IPv4(1, 2, 3, 4)));
    assert_eq!(parse_address("1.999.2.3.4"), Some(IPv4(1, 2, 3, 4)));
    assert_eq!(parse_address("1.2.3"), None);
}

#[test]
fn groups_are_plain_decimal_digits() {
    assert_eq!(parse_address("+1.2.3.4"), None);
    assert_eq!("+1.2.3.4".parse::<IPv4>(), Err(()));
    assert_eq!(parse_address("+1.2.3.4.5"), Some(IPv4(2, 3, 4, 5)));
    assert_eq!(parse_octet(&chars("+1")), None);
    assert_eq!(parse_address("001.002.003.004"), Some(IPv4(1, 2, 3, 4)));
    assert_eq!(parse_address("-1.2.3.4"), None);
    assert_eq!(parse_address("+.2.3.4"), None);
    assert_eq!(parse_address(" 1.2.3.4"), None);
    assert_eq!(parse_octet(&chars("255")), Some(255));
    assert_eq!(parse_octet(&chars("256")), None);
    assert_eq!(parse_octet(&chars("2561")), None);
    assert_eq!(parse_octet(&chars("")), None);
    assert_eq!(parse_octet(&chars("1a")), None);
    assert_eq!(parse_octet(&chars("０")), None);
}

#[test]
fn empty_pieces_between_delimiters() {
    let pieces = split_chars(&chars("a..b."), '.');
    assert_eq!(pieces, vec![chars("a"), vec![], chars("b"), vec![]]);
    assert_eq!(parse_addresses("1.2.3.4  5.6.7.8 "), vec![IPv4(1, 2, 3, 4), IPv4(5, 6, 7, 8)]);
}

#[test]
fn from_str_parses_one_token() {
    assert_eq!("10.0.0.1".parse::<IPv4>(), Ok(IPv4(10, 0, 0, 1)));
    assert_eq!("10.0.0".parse::<IPv4>(), Err(()));
}

#[test]
fn max_picks_the_larger() {
    let (a, b) = (5, 10);
    assert_eq!(*max(&a, &b), 10);
    assert_eq!(*max(&b, &a), 10);
    let (c, d) = (7, 7);
    assert!(std::ptr::eq(max(&c, &d), &c));
}

#[test]
fn dangerous_outcome_by_success() {
    assert_eq!(dangerous_outcome(Some(7)), Ok(7));
    assert_eq!(dangerous_outcome(None), Err(String::from("SYSTEM FAILURE")));
    for _ in 0..20 {
        match do_something_dangerous() {
            Ok(_) => {}
            Err(e) => assert_eq!(e, "SYSTEM FAILURE"),
        }
    }
}

#[test]
fn from_str_rejects_malformed_tokens() {
    assert_eq!("256.0.0.0".parse::<IPv4>(), Err(()));
    assert_eq!("1.a.3.4".parse::<IPv4>(), Err(()));
    assert_eq!("1.2.3".parse::<IPv4>(), Err(()));
}

#[test]
fn from_str_takes_first_four_surviving_groups() {
    assert_eq!("1.2.x.3.4".parse::<IPv4>(), Ok(IPv4(1, 2, 3, 4)));
    assert_eq!("256.1.2.3.4".parse::<IPv4>(), Ok(IPv4(1, 2, 3, 4)));
    assert_eq!("1.2.3.4.5".parse::<IPv4>(), Ok(IPv4(1, 2, 3, 4)));
    assert_eq!("010.0.0.1".parse::<IPv4>(), Ok(IPv4(10, 0, 0, 1)));
}

#[test]
fn from_str_reads_canonical_text_back() {
    for ip in [IPv4(192, 168, 0, 1), IPv4(0, 0, 0, 0), IPv4(255, 255, 255, 255)] {
        assert_eq!(String::from(ip).parse::<IPv4>(), Ok(ip));
    }
}

#[test]
fn malformed_tokens_dropped_from_string_output() {
    let parsed: Vec<String> = parse_ips("1.2.3.4 300.1.1.1 abc 1.2 5.6.7.8");
    assert_eq!(parsed, vec![String::from("1.2.3.4"), String::from("5.6.7.8")]);
}

#[test]
fn joined_inputs_join_outputs() {
    let (s1, s2) = ("1.2.3.4 x.1", "9.8.7.6 10.0.0.1");
    let joined: Vec<String> = parse_ips(&format!("{} {}", s1, s2));
    let mut expected: Vec<String> = parse_ips(s1);
    expected.extend(parse_ips::<String>(s2));
    assert_eq!(joined, expected);
    let tuples: Vec<(u8, u8, u8, u8)> = parse_ips(&format!("{} {}", s1, s2));
    let rendered: Vec<String> =
        tuples.iter().map(|(a, b, c, d)| format!("{}.{}.{}.{}", a, b, c, d)).collect();
    assert_eq!(joined, rendered);
}
