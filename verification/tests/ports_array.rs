use itertools::Itertools;

use hptp::ports_array::PortsArray;

#[test]
fn test_valid_ports_array() {
    // Test valid input strings and expected PortsArray values
    assert_eq!(
        "[80, 443, 20..24, 8080]"
            .parse::<PortsArray>()
            .unwrap()
            .into_ports_vec(),
        [80u16, 443]
            .into_iter()
            .chain(20..=24)
            .chain([8080])
            .unique()
            .sorted()
            .collect::<Vec<u16>>()
    );
    assert_eq!(
        format!("[1..{}]", u16::MAX)
            .parse::<PortsArray>()
            .unwrap()
            .into_ports_vec(),
        (1..=u16::MAX).collect::<Vec<u16>>()
    );
    assert_eq!(
        format!("[1..!={}]", u16::MAX)
            .parse::<PortsArray>()
            .unwrap()
            .into_ports_vec(),
        (1..u16::MAX).collect::<Vec<u16>>()
    );
}

#[test]
fn test_invalid_ports_array() {
    // Test invalid input strings
    assert!("[]".parse::<PortsArray>().is_err());
    assert!("[80, 443, abc]".parse::<PortsArray>().is_err());
    assert!("[80..=abc]".parse::<PortsArray>().is_err());
    assert!("[80..!=100..=200]".parse::<PortsArray>().is_err());
}

#[test]
fn test_ports_array_display() {
    assert_eq!(
        format!("[1..{}]", u16::MAX)
            .parse::<PortsArray>()
            .unwrap()
            .to_display_string(),
        format!("[1..{}]", u16::MAX)
    );

    assert_eq!(
        "[80, 81, 82, 443, 8080, 8081, 8082, 8083]"
            .parse::<PortsArray>()
            .unwrap()
            .to_display_string(),
        "[80..82, 443, 8080..8083]"
    );

    assert_eq!(
        "[80, 81, 443, 444, 8080, 8081, 8082, 8083]"
            .parse::<PortsArray>()
            .unwrap()
            .to_display_string(),
        "[80, 81, 443, 444, 8080..8083]"
    )
}

#[test]
fn ports_parse_is_sorted_and_deduplicated() {
    let v = "[8080, 80, 443, 80, 20..24, 22]"
        .parse::<PortsArray>()
        .unwrap()
        .into_ports_vec();
    assert_eq!(v, vec![20, 21, 22, 23, 24, 80, 443, 8080]);
}

#[test]
fn ports_parse_round_trip_is_idempotent() {
    for input in ["[80, 443, 20..24, 8080]", "[1..9]", "[5, 7, 9..!=12]"] {
        let first = input.parse::<PortsArray>().unwrap();
        let rendered = first.to_display_string();
        let second = rendered.parse::<PortsArray>().unwrap();
        let rendered_again = second.to_display_string();
        assert_eq!(rendered, rendered_again);
        assert_eq!(
            input.parse::<PortsArray>().unwrap().into_ports_vec(),
            second.into_ports_vec()
        );
    }
}

#[test]
fn ports_full_range_counts() {
    assert_eq!(
        "[1..65535]".parse::<PortsArray>().unwrap().into_ports_vec().len(),
        65535
    );
    assert_eq!(
        "[1..!=65535]".parse::<PortsArray>().unwrap().into_ports_vec().len(),
        65534
    );
}

#[test]
fn ports_bare_number_form() {
    assert_eq!("8080".parse::<PortsArray>().unwrap().into_ports_vec(), vec![8080]);
    assert!("0".parse::<PortsArray>().is_err());
    assert!("65536".parse::<PortsArray>().is_err());
    assert!("[0]".parse::<PortsArray>().is_err());
}

#[test]
fn ports_empty_ranges_fall_back() {
    // a bracketed list whose ranges are all empty denotes no ports
    assert!("[9..5]".parse::<PortsArray>().is_err());
    assert!("[5..!=5]".parse::<PortsArray>().is_err());
    // an inclusive one-element range is fine
    assert_eq!("[5..5]".parse::<PortsArray>().unwrap().into_ports_vec(), vec![5]);
}
