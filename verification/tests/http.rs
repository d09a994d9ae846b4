use http_ip::filter::{or, Cidr};
use http_ip::headers::{
    extract_filtered_forwarded_ip, extract_leftmost_forwarded_ip, extract_rightmost_forwarded_ip,
    format_header_values,
};
use http_ip::ip::IpAddress;

fn occurrences(values: &[&str]) -> Vec<Option<String>> {
    values.iter().map(|v| Some(v.to_string())).collect()
}

#[test]
fn should_format_header_map() {
    let headers = occurrences(&[
        "By=\"[2001:db8:cafe::17]:4711\",For=127.0.0.1",
        "For=unknown,For=_hidden",
    ]);

    let display = format_header_values(&headers);
    assert_eq!(display, "By=\"[2001:db8:cafe::17]:4711\",For=127.0.0.1 ,For=unknown,For=_hidden");
}

#[test]
fn should_extract_left_most_ip_from_header_map() {
    let headers = occurrences(&[
        "By=\"[2001:db8:cafe::17]:4711\",For=127.0.0.1",
        "For=unknown,For=_hidden",
    ]);
    let no_x: Vec<Option<String>> = Vec::new();

    let ip = extract_leftmost_forwarded_ip(&headers, &no_x).expect("to have IP");
    let expected_ip = IpAddress::v4(127, 0, 0, 1);
    assert_eq!(expected_ip, ip);
}

#[test]
fn should_not_extract_left_most_ip_from_header_map() {
    let headers = occurrences(&[
        "By=\"[2001:db8:cafe::17]:4711\",For=_hidden",
        "For=unknown,For=127.0.0.1",
    ]);
    let no_x: Vec<Option<String>> = Vec::new();

    let result = extract_leftmost_forwarded_ip(&headers, &no_x);
    assert!(result.is_none(), "Unexpected IP={:?}", result);
}

#[test]
fn should_extract_right_most_ip_from_header_map() {
    let headers = occurrences(&[
        "By=\"[2001:db8:cafe::17]:4711\",For=_hidden",
        "For=unknown,For=127.0.0.1",
    ]);
    let no_x: Vec<Option<String>> = Vec::new();

    let ip = extract_rightmost_forwarded_ip(&headers, &no_x).expect("to have IP");
    let expected_ip = IpAddress::v4(127, 0, 0, 1);
    assert_eq!(expected_ip, ip);
}

#[test]
fn should_not_extract_right_most_ip_from_header_map() {
    let headers = occurrences(&[
        "By=\"[2001:db8:cafe::17]:4711\",For=127.0.0.1",
        "For=unknown,For=_hidden",
    ]);
    let no_x: Vec<Option<String>> = Vec::new();

    let result = extract_rightmost_forwarded_ip(&headers, &no_x);
    assert!(result.is_none(), "Unexpected IP={:?}", result);
}

#[test]
fn should_extract_filtered_by_ip_from_header_map() {
    let headers = occurrences(&[
        "By=\"[2001:db8:cafe::17]:4711\",For=127.0.0.1",
        "For=192.168.0.1,For=10.0.0.1",
    ]);
    let no_x: Vec<Option<String>> = Vec::new();

    let filtered_ip = IpAddress::v4(10, 0, 0, 1);
    let expected_ip = IpAddress::v4(192, 168, 0, 1);
    let result = extract_filtered_forwarded_ip(&headers, &no_x, &filtered_ip).expect("to get ip");
    assert_eq!(result, expected_ip);
}

#[test]
fn should_extract_filtered_by_cidr_from_header_map() {
    let headers = occurrences(&[
        "By=\"[2001:db8:cafe::17]:4711\",For=127.0.0.1",
        "For=192.168.0.1,For=10.0.0.1",
    ]);
    let no_x: Vec<Option<String>> = Vec::new();

    let filtered_ip = Cidr::from_text("10.0.0.0/31").expect("to parse");
    let expected_ip = IpAddress::v4(192, 168, 0, 1);
    let result = extract_filtered_forwarded_ip(&headers, &no_x, &filtered_ip).expect("to get ip");
    assert_eq!(result, expected_ip);

    let filtered_ip = Cidr::from_text("10.0.0.0/1").expect("to parse");
    let expected_ip = IpAddress::v4(192, 168, 0, 1);
    let result = extract_filtered_forwarded_ip(&headers, &no_x, &filtered_ip).expect("to get ip");
    assert_eq!(result, expected_ip);
}

#[test]
fn should_not_extract_filtered_by_cidr_from_header_map() {
    let headers = occurrences(&[
        "By=\"[2001:db8:cafe::17]:4711\",For=127.0.0.1",
        "For=192.168.0.1,For=10.0.0.1",
    ]);
    let no_x: Vec<Option<String>> = Vec::new();

    let filtered_ip = Cidr::from_text("10.0.0.0/32").expect("to parse");
    let expected_ip = IpAddress::v4(10, 0, 0, 1);
    let result = extract_filtered_forwarded_ip(&headers, &no_x, &filtered_ip).expect("to get ip");
    assert_eq!(result, expected_ip);
}

#[test]
fn should_extract_filtered_by_cidr_from_header_map_with_or() {
    let headers = occurrences(&[
        "By=\"[2001:db8:cafe::17]:4711\",For=127.0.0.1",
        "For=192.168.0.1,For=10.0.0.1",
    ]);
    let no_x: Vec<Option<String>> = Vec::new();

    let filtered_ip = Cidr::from_text("10.0.0.0/32").expect("to parse");
    let filtered_ip2 = IpAddress::v4(10, 0, 0, 1);
    let filter = or(filtered_ip, filtered_ip2);
    let expected_ip = IpAddress::v4(192, 168, 0, 1);
    let result = extract_filtered_forwarded_ip(&headers, &no_x, &filter).expect("to get ip");
    assert_eq!(result, expected_ip);
}
