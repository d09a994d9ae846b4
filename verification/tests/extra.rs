use http_ip::filter::{or, Cidr, Filter};
use http_ip::find_next_ip_after_filter;
use http_ip::forwarded::{
    parse_forwarded_for, parse_forwarded_for_rev, parse_x_forwarded_for, parse_x_forwarded_for_rev,
    ForwardedEntryIter, ForwardedNode, ForwardedValue,
};
use http_ip::headers::{
    extract_filtered_forwarded_ip, extract_leftmost_forwarded_ip, extract_rightmost_forwarded_ip,
    format_header_values,
};
use http_ip::ip::IpAddress;

fn occurrences(values: &[&str]) -> Vec<Option<String>> {
    values.iter().map(|v| Some(v.to_string())).collect()
}

#[test]
fn parses_bracketed_v6_with_port() {
    let node = ForwardedNode::parse_node("[2001:db8:cafe::17]:4711");
    let expected = IpAddress::v6(0x2001, 0xdb8, 0xcafe, 0, 0, 0, 0, 0x17);
    assert_eq!(node, ForwardedNode::Ip(expected));
}

#[test]
fn parses_quoted_v4_with_port() {
    let node = ForwardedNode::parse_node("\"127.0.0.1:8080\"");
    assert_eq!(node, ForwardedNode::Ip(IpAddress::v4(127, 0, 0, 1)));
}

#[test]
fn parses_unknown_case_insensitively() {
    assert_eq!(ForwardedNode::parse_node("UNKNOWN"), ForwardedNode::Unknown);
    assert_eq!(ForwardedNode::parse_node("\"Unknown\""), ForwardedNode::Unknown);
}

#[test]
fn keeps_unterminated_bracket_as_name() {
    let node = ForwardedNode::parse_node("[2001:db8::17");
    assert_eq!(node, ForwardedNode::Name("2001:db8::17"));
}

#[test]
fn bare_v6_in_forwarded_node_is_not_an_ip() {
    // Without brackets the port split takes the text before the last colon,
    // which is not a whole address here.
    let node = ForwardedNode::parse_node("2001:db8::17");
    assert_eq!(node, ForwardedNode::Name("2001:db8:"));
}

#[test]
fn bare_v6_with_port_takes_text_before_last_colon() {
    let node = ForwardedNode::parse_node("2001:db8::17:4711");
    let expected = IpAddress::v6(0x2001, 0xdb8, 0, 0, 0, 0, 0, 0x17);
    assert_eq!(node, ForwardedNode::Ip(expected));
}

#[test]
fn x_node_trims_whitespace() {
    let node = ForwardedNode::parse_x_node(" 203.0.113.195 ");
    assert_eq!(node, ForwardedNode::Ip(IpAddress::v4(203, 0, 113, 195)));
}

#[test]
fn x_node_accepts_bare_v6() {
    let node = ForwardedNode::parse_x_node("2001:db8::17");
    let expected = IpAddress::v6(0x2001, 0xdb8, 0, 0, 0, 0, 0, 0x17);
    assert_eq!(node, ForwardedNode::Ip(expected));
}

#[test]
fn rejects_v4_octet_with_leading_zero() {
    let node = ForwardedNode::parse_x_node("01.2.3.4");
    assert_eq!(node, ForwardedNode::Name("01.2.3.4"));
}

#[test]
fn parses_v6_abbreviations() {
    let cases: Vec<(&str, IpAddress)> = vec![
        ("::", IpAddress::v6(0, 0, 0, 0, 0, 0, 0, 0)),
        ("::1", IpAddress::v6(0, 0, 0, 0, 0, 0, 0, 1)),
        ("1::", IpAddress::v6(1, 0, 0, 0, 0, 0, 0, 0)),
        ("1:2:3:4:5:6:7:8", IpAddress::v6(1, 2, 3, 4, 5, 6, 7, 8)),
        ("::ffff:10.0.0.1", IpAddress::v6(0, 0, 0, 0, 0, 0xffff, 0x0a00, 0x0001)),
        ("1:2:3:4:5:6:10.0.0.1", IpAddress::v6(1, 2, 3, 4, 5, 6, 0x0a00, 0x0001)),
    ];
    for (text, expected) in cases {
        let node = ForwardedNode::parse_x_node(text);
        assert_eq!(node, ForwardedNode::Ip(expected), "for input {:?}", text);
    }
}

#[test]
fn rejects_malformed_v6() {
    let cases = vec![
        ":::",
        "1::2::3",
        "1:2:3:4:5:6:7:8:9",
        "::1:2:3:4:5:6:7:8",
        ":1:2:3:4:5:6:7",
        "1:2:3:4:5:6:7:",
        "12345::",
        "1:2:3:4:5:6:7:8::",
        "g::1",
    ];
    for text in cases {
        let node = ForwardedNode::parse_x_node(text);
        assert_eq!(node, ForwardedNode::Name(text), "for input {:?}", text);
    }
}

#[test]
fn entry_parser_reads_host_and_proto() {
    let mut entry = ForwardedEntryIter::parse_entry("host=example.com;proto=https;secret=1;by");
    assert_eq!(entry.next(), Some(ForwardedValue::Host("example.com")));
    assert_eq!(entry.next(), Some(ForwardedValue::Protocol("https")));
    assert_eq!(entry.next(), None);
}

#[test]
fn entry_parser_reads_keys_case_insensitively() {
    let mut entry = ForwardedEntryIter::parse_entry("FOR=10.0.0.1;PROTO=http");
    assert_eq!(entry.next(), Some(ForwardedValue::For(ForwardedNode::Ip(IpAddress::v4(10, 0, 0, 1)))));
    assert_eq!(entry.next(), Some(ForwardedValue::Protocol("http")));
    assert_eq!(entry.next(), None);
}

#[test]
fn empty_header_yields_no_for_nodes() {
    let mut ips = parse_forwarded_for("");
    assert!(ips.next().is_none());
    let mut ips = parse_forwarded_for_rev("");
    assert!(ips.next().is_none());
}

#[test]
fn chain_order_forward_and_reverse() {
    let header = "for=1.1.1.1,for=2.2.2.2,for=3.3.3.3";
    let a = IpAddress::v4(1, 1, 1, 1);
    let b = IpAddress::v4(2, 2, 2, 2);
    let c = IpAddress::v4(3, 3, 3, 3);

    let mut fwd = parse_forwarded_for(header);
    assert_eq!(fwd.next(), Some(ForwardedNode::Ip(a)));
    assert_eq!(fwd.next(), Some(ForwardedNode::Ip(b)));
    assert_eq!(fwd.next(), Some(ForwardedNode::Ip(c)));
    assert_eq!(fwd.next(), None);

    let mut rev = parse_forwarded_for_rev(header);
    assert_eq!(rev.next(), Some(ForwardedNode::Ip(c)));
    assert_eq!(rev.next(), Some(ForwardedNode::Ip(b)));
    assert_eq!(rev.next(), Some(ForwardedNode::Ip(a)));
    assert_eq!(rev.next(), None);
}

#[test]
fn finds_next_ip_after_cidr_over_x_forwarded_for() {
    let ips = parse_x_forwarded_for_rev(
        "203.0.113.195,2001:db8:85a3:8d3:1319:8a2e:370:7348,198.51.100.178",
    );
    let cidr = Cidr::from_text("198.51.100.0/24").expect("to parse");
    let client_ip = find_next_ip_after_filter(ips, &cidr).expect("to find ip");
    let expected = IpAddress::v6(0x2001, 0xdb8, 0x85a3, 0x8d3, 0x1319, 0x8a2e, 0x370, 0x7348);
    assert_eq!(client_ip, expected);
}

#[test]
fn aborts_on_name_before_reaching_valid_ip() {
    let ips = parse_x_forwarded_for_rev("10.0.0.1,_hidden");
    let filter = IpAddress::v4(192, 0, 2, 1);
    assert_eq!(find_next_ip_after_filter(ips, &filter), None);
}

#[test]
fn exhausted_chain_yields_nothing() {
    let ips = parse_x_forwarded_for("10.0.0.1,10.0.0.2");
    let cidr = Cidr::from_text("10.0.0.0/8").expect("to parse");
    assert_eq!(find_next_ip_after_filter(ips, &cidr), None);
}

#[test]
fn cidr_rejects_malformed_text() {
    let err = Cidr::from_text("not-a-cidr").expect_err("to fail");
    assert!(!err.is_invalid_prefix());
    assert_eq!(err.message(), "Invalid CIDR expression");

    let err = Cidr::from_text("10.0.0.1").expect_err("to fail");
    assert!(!err.is_invalid_prefix());

    let err = Cidr::from_text("10.0.0.1/").expect_err("to fail");
    assert!(!err.is_invalid_prefix());

    let err = Cidr::from_text("10.0.0.1/abc").expect_err("to fail");
    assert!(!err.is_invalid_prefix());
}

#[test]
fn cidr_rejects_prefix_out_of_range() {
    let err = Cidr::from_text("10.0.0.0/33").expect_err("to fail");
    assert!(err.is_invalid_prefix());
    assert_eq!(err.message(), "Invalid CIDR prefix");

    let err = Cidr::from_text("2001:db8::/129").expect_err("to fail");
    assert!(err.is_invalid_prefix());

    assert!(Cidr::from_text("10.0.0.0/32").is_ok());
    assert!(Cidr::from_text("2001:db8::/128").is_ok());
}

#[test]
fn cidr_new_validates_prefix() {
    assert!(Cidr::new(IpAddress::v4(10, 0, 0, 0), 32).is_ok());
    let err = Cidr::new(IpAddress::v4(10, 0, 0, 0), 33).expect_err("to fail");
    assert!(err.is_invalid_prefix());
    assert!(Cidr::new(IpAddress::v6(0, 0, 0, 0, 0, 0, 0, 0), 128).is_ok());
    assert!(Cidr::new(IpAddress::v6(0, 0, 0, 0, 0, 0, 0, 0), 129).is_err());
}

#[test]
fn cidr_matches_by_range() {
    let cidr = Cidr::from_text("198.51.100.0/24").expect("to parse");
    assert!(cidr.is_match(IpAddress::v4(198, 51, 100, 178)));
    assert!(!cidr.is_match(IpAddress::v4(198, 51, 101, 1)));

    let zero = Cidr::from_text("0.0.0.0/0").expect("to parse");
    assert!(zero.is_match(IpAddress::v4(255, 255, 255, 255)));

    let v6 = Cidr::from_text("2001:db8::/32").expect("to parse");
    assert!(v6.is_match(IpAddress::v6(0x2001, 0xdb8, 0xcafe, 0, 0, 0, 0, 0x17)));
    assert!(!v6.is_match(IpAddress::v6(0x2001, 0xdb9, 0, 0, 0, 0, 0, 1)));
}

#[test]
fn cidr_never_matches_the_other_family() {
    let v4 = Cidr::from_text("0.0.0.0/0").expect("to parse");
    assert!(!v4.is_match(IpAddress::v6(0, 0, 0, 0, 0, 0, 0, 1)));

    let v6 = Cidr::from_text("::/0").expect("to parse");
    assert!(!v6.is_match(IpAddress::v4(127, 0, 0, 1)));
}

#[test]
fn or_filter_matches_either_side() {
    let filter = or(IpAddress::v4(10, 0, 0, 1), Cidr::from_text("192.168.0.0/16").expect("to parse"));
    assert!(filter.is_match(IpAddress::v4(10, 0, 0, 1)));
    assert!(filter.is_match(IpAddress::v4(192, 168, 5, 5)));
    assert!(!filter.is_match(IpAddress::v4(10, 0, 0, 2)));
}

#[test]
fn filtered_extraction_falls_back_only_without_forwarded_nodes() {
    let no_filter_hit = IpAddress::v4(203, 0, 113, 7);

    // No Forwarded occurrence at all: X-Forwarded-For is consulted.
    let empty: Vec<Option<String>> = Vec::new();
    let x = occurrences(&["10.0.0.1"]);
    let result = extract_filtered_forwarded_ip(&empty, &x, &no_filter_hit);
    assert_eq!(result, Some(IpAddress::v4(10, 0, 0, 1)));

    // A Forwarded occurrence without any `for` pair yields no node:
    // X-Forwarded-For is still consulted.
    let headers = occurrences(&["host=example.com"]);
    let result = extract_filtered_forwarded_ip(&headers, &x, &no_filter_hit);
    assert_eq!(result, Some(IpAddress::v4(10, 0, 0, 1)));

    // A Forwarded occurrence whose scan aborts on an opaque name yields
    // nothing, and the fallback is not consulted.
    let headers = occurrences(&["For=_hidden"]);
    let result = extract_filtered_forwarded_ip(&headers, &x, &no_filter_hit);
    assert_eq!(result, None);
}

#[test]
fn leftmost_and_rightmost_fall_back_to_x_forwarded_for() {
    let empty: Vec<Option<String>> = Vec::new();
    let x = occurrences(&["203.0.113.195,198.51.100.178"]);

    let left = extract_leftmost_forwarded_ip(&empty, &x);
    assert_eq!(left, Some(IpAddress::v4(203, 0, 113, 195)));

    let right = extract_rightmost_forwarded_ip(&empty, &x);
    assert_eq!(right, Some(IpAddress::v4(198, 51, 100, 178)));
}

#[test]
fn leftmost_ignores_fallback_when_first_occurrence_is_not_text() {
    let headers: Vec<Option<String>> = vec![None];
    let x = occurrences(&["10.0.0.1"]);
    assert_eq!(extract_leftmost_forwarded_ip(&headers, &x), None);
    assert_eq!(extract_rightmost_forwarded_ip(&headers, &x), None);
}

#[test]
fn formats_empty_and_invalid_occurrences() {
    let empty: Vec<Option<String>> = Vec::new();
    assert_eq!(format_header_values(&empty), "");

    let headers: Vec<Option<String>> = vec![None, Some("For=10.0.0.1".to_string())];
    assert_eq!(format_header_values(&headers), "<non-utf8> ,For=10.0.0.1");
}

#[test]
fn x_forwarded_parser_handles_single_token() {
    let mut ips = parse_x_forwarded_for("203.0.113.195");
    assert_eq!(ips.next(), Some(ForwardedNode::Ip(IpAddress::v4(203, 0, 113, 195))));
    assert_eq!(ips.next(), None);
}

#[test]
fn x_forwarded_list_tolerates_spaces() {
    let mut ips = parse_x_forwarded_for("10.0.0.1, 10.0.0.2 ,10.0.0.3");
    assert_eq!(ips.next(), Some(ForwardedNode::Ip(IpAddress::v4(10, 0, 0, 1))));
    assert_eq!(ips.next(), Some(ForwardedNode::Ip(IpAddress::v4(10, 0, 0, 2))));
    assert_eq!(ips.next(), Some(ForwardedNode::Ip(IpAddress::v4(10, 0, 0, 3))));
    assert_eq!(ips.next(), None);
}

#[test]
fn entry_values_trim_host_and_proto() {
    let mut entry = ForwardedEntryIter::parse_entry("proto= https ;host= example.com ");
    assert_eq!(entry.next(), Some(ForwardedValue::Protocol("https")));
    assert_eq!(entry.next(), Some(ForwardedValue::Host("example.com")));
    assert_eq!(entry.next(), None);
}

#[test]
fn cidr_rejects_signs_and_spaces_in_prefix() {
    assert!(Cidr::from_text("10.0.0.0/+1").is_err());
    assert!(Cidr::from_text("10.0.0.0/ 1").is_err());
    assert!(Cidr::from_text("10.0.0.0/1/2").is_err());
}

#[test]
fn forwarded_chain_keeps_semicolon_boundaries() {
    // `for` pairs are found inside entries split on `;` as well as on `,`.
    let mut ips = parse_forwarded_for("by=10.0.0.2;for=10.0.0.1;proto=https,for=10.0.0.3");
    assert_eq!(ips.next(), Some(ForwardedNode::Ip(IpAddress::v4(10, 0, 0, 1))));
    assert_eq!(ips.next(), Some(ForwardedNode::Ip(IpAddress::v4(10, 0, 0, 3))));
    assert_eq!(ips.next(), None);
}
