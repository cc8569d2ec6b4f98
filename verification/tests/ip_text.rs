use hetu::util::ip_text::{parse_ip, parse_ipv4, parse_ipv6, parse_ipv6_dotted, split_text};

#[test]
fn ipv4_dotted_quad_is_read() {
    assert_eq!(parse_ipv4("10.0.0.1"), Some(vec![10, 0, 0, 1]));
    assert_eq!(parse_ipv4("255.255.255.255"), Some(vec![255, 255, 255, 255]));
    assert_eq!(parse_ipv4("0.0.0.0"), Some(vec![0, 0, 0, 0]));
}

#[test]
fn ipv4_rejects_what_is_no_address() {
    assert_eq!(parse_ipv4(""), None);
    assert_eq!(parse_ipv4("10.0.0"), None);
    assert_eq!(parse_ipv4("10.0.0.0.1"), None);
    assert_eq!(parse_ipv4("256.0.0.1"), None);
    assert_eq!(parse_ipv4("01.0.0.1"), None);
    assert_eq!(parse_ipv4("1..0.1"), None);
    assert_eq!(parse_ipv4("a.b.c.d"), None);
    assert_eq!(parse_ipv4("1.2.3.4 "), None);
}

#[test]
fn ipv6_full_form_is_read() {
    assert_eq!(
        parse_ipv6("2001:db8:0:0:0:0:0:1"),
        Some(vec![0x20, 0x01, 0x0d, 0xb8, 0, 0, 0, 0, 0, 0, 0, 0, 0, 0, 0, 1])
    );
    assert_eq!(
        parse_ipv6("FFFF:ffff:0:0:0:0:0:0"),
        Some(vec![0xff, 0xff, 0xff, 0xff, 0, 0, 0, 0, 0, 0, 0, 0, 0, 0, 0, 0])
    );
}

#[test]
fn ipv6_compressed_forms_are_read() {
    assert_eq!(parse_ipv6("::"), Some(vec![0; 16]));
    let mut one = vec![0u8; 16];
    one[15] = 1;
    assert_eq!(parse_ipv6("::1"), Some(one));
    let mut head = vec![0u8; 16];
    head[0] = 0xfe;
    head[1] = 0x80;
    assert_eq!(parse_ipv6("fe80::"), Some(head));
    assert_eq!(
        parse_ipv6("2001:db8::8:800:200c:417a"),
        Some(vec![0x20, 0x01, 0x0d, 0xb8, 0, 0, 0, 0, 0, 0x08, 0x08, 0, 0x20, 0x0c, 0x41, 0x7a])
    );
    assert_eq!(
        parse_ipv6("1:2:3:4:5:6:7::"),
        Some(vec![0, 1, 0, 2, 0, 3, 0, 4, 0, 5, 0, 6, 0, 7, 0, 0])
    );
}

#[test]
fn ipv6_rejects_what_is_no_address() {
    assert_eq!(parse_ipv6(""), None);
    assert_eq!(parse_ipv6(":"), None);
    assert_eq!(parse_ipv6(":::"), None);
    assert_eq!(parse_ipv6(":1"), None);
    assert_eq!(parse_ipv6("1:"), None);
    assert_eq!(parse_ipv6("1::2::3"), None);
    assert_eq!(parse_ipv6("1:2:3:4:5:6:7"), None);
    assert_eq!(parse_ipv6("1:2:3:4:5:6:7:8:9"), None);
    assert_eq!(parse_ipv6("1:2:3:4:5:6:7:8::"), None);
    assert_eq!(parse_ipv6("12345::"), None);
    assert_eq!(parse_ipv6("g::"), None);
}

#[test]
fn either_notation_is_read() {
    assert_eq!(parse_ip("10.0.1.0"), Some(vec![10, 0, 1, 0]));
    assert_eq!(parse_ip("::"), Some(vec![0; 16]));
    assert_eq!(parse_ip("not an address"), None);
}

#[test]
fn text_is_split_at_every_separator() {
    let parts = split_text("a..b", '.');
    let texts: Vec<String> = parts.iter().map(|p| p.iter().collect()).collect();
    assert_eq!(texts, vec!["a", "", "b"]);
    assert_eq!(split_text("", '.').len(), 1);
}

#[test]
fn ipv6_with_a_dotted_tail_is_read() {
    assert_eq!(
        parse_ipv6_dotted("::ffff:10.0.0.1"),
        Some(vec![0, 0, 0, 0, 0, 0, 0, 0, 0, 0, 0xff, 0xff, 10, 0, 0, 1])
    );
    assert_eq!(
        parse_ipv6_dotted("::1.2.3.4"),
        Some(vec![0, 0, 0, 0, 0, 0, 0, 0, 0, 0, 0, 0, 1, 2, 3, 4])
    );
    assert_eq!(
        parse_ipv6_dotted("1:2:3:4:5:6:1.2.3.4"),
        Some(vec![0, 1, 0, 2, 0, 3, 0, 4, 0, 5, 0, 6, 1, 2, 3, 4])
    );
    assert_eq!(
        parse_ipv6_dotted("64:ff9b::192.0.2.33"),
        Some(vec![0, 0x64, 0xff, 0x9b, 0, 0, 0, 0, 0, 0, 0, 0, 192, 0, 2, 33])
    );
    assert_eq!(
        parse_ipv6_dotted("1::2:1.2.3.4"),
        Some(vec![0, 1, 0, 0, 0, 0, 0, 0, 0, 0, 0, 2, 1, 2, 3, 4])
    );
    // The other readers do not take this form; the general one does.
    assert_eq!(parse_ipv6("::ffff:10.0.0.1"), None);
    assert_eq!(
        parse_ip("::ffff:10.0.0.1"),
        Some(vec![0, 0, 0, 0, 0, 0, 0, 0, 0, 0, 0xff, 0xff, 10, 0, 0, 1])
    );
}

#[test]
fn dotted_tail_must_stand_where_two_groups_are_left() {
    assert_eq!(parse_ipv6_dotted("10.0.0.1"), None);
    assert_eq!(parse_ipv6_dotted(":10.0.0.1"), None);
    assert_eq!(parse_ipv6_dotted("::ffff:10.0.0.256"), None);
    assert_eq!(parse_ipv6_dotted("::ffff:10.0.0"), None);
    assert_eq!(parse_ipv6_dotted("1:2:3:4:5:10.0.0.1"), None);
    assert_eq!(parse_ipv6_dotted("1:2:3:4:5:6:7:10.0.0.1"), None);
    assert_eq!(parse_ipv6_dotted("1:2:3:4:5:6::10.0.0.1"), None);
    assert_eq!(parse_ipv6_dotted("1:::10.0.0.1"), None);
    assert_eq!(parse_ipv6_dotted("::10.0.0.1:1"), None);
    assert_eq!(parse_ipv6_dotted("::1"), None);
}
