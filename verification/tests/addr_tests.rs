use auth_tickets::addr::{parse_sock_addr, SockAddr, SockAddrV4, SockAddrV6};

fn v4(a: u8, b: u8, c: u8, d: u8, port: u16) -> Option<SockAddr> {
    Some(SockAddr::V4(SockAddrV4 { a, b, c, d, port }))
}

fn v6(gs: [u16; 8], port: u16) -> Option<SockAddr> {
    v6s(gs, port, 0)
}

fn v6s(gs: [u16; 8], port: u16, scope: u32) -> Option<SockAddr> {
    Some(SockAddr::V6(SockAddrV6 {
        g1: gs[0],
        g2: gs[1],
        g3: gs[2],
        g4: gs[3],
        g5: gs[4],
        g6: gs[5],
        g7: gs[6],
        g8: gs[7],
        port,
        scope,
    }))
}

#[test]
fn parses_plain_address() {
    assert_eq!(parse_sock_addr("127.0.0.1:8080"), v4(127, 0, 0, 1, 8080));
}

#[test]
fn parses_extreme_values() {
    assert_eq!(parse_sock_addr("0.0.0.0:0"), v4(0, 0, 0, 0, 0));
    assert_eq!(
        parse_sock_addr("255.255.255.255:65535"),
        v4(255, 255, 255, 255, 65535)
    );
}

#[test]
fn accepts_zero_prefixed_port() {
    assert_eq!(parse_sock_addr("1.2.3.4:080"), v4(1, 2, 3, 4, 80));
    assert_eq!(parse_sock_addr("1.2.3.4:0000000080"), v4(1, 2, 3, 4, 80));
}

#[test]
fn rejects_octet_out_of_range() {
    assert_eq!(parse_sock_addr("256.1.1.1:80"), None);
    assert_eq!(parse_sock_addr("1.1.1.999:80"), None);
}

#[test]
fn rejects_port_out_of_range() {
    assert_eq!(parse_sock_addr("1.2.3.4:65536"), None);
    assert_eq!(parse_sock_addr("1.2.3.4:99999"), None);
    assert_eq!(parse_sock_addr("1.2.3.4:000065536"), None);
}

#[test]
fn rejects_malformed_shapes() {
    assert_eq!(parse_sock_addr(""), None);
    assert_eq!(parse_sock_addr("not-an-address"), None);
    assert_eq!(parse_sock_addr("1.2.3.4"), None);
    assert_eq!(parse_sock_addr("1.2.3:80"), None);
    assert_eq!(parse_sock_addr("1.2.3.4.5:80"), None);
    assert_eq!(parse_sock_addr("1.2.3.4:"), None);
    assert_eq!(parse_sock_addr(":80"), None);
    assert_eq!(parse_sock_addr("1..3.4:80"), None);
    assert_eq!(parse_sock_addr("1.2.3.4:80x"), None);
    assert_eq!(parse_sock_addr("a.b.c.d:80"), None);
}

#[test]
fn rejects_leading_zero_octets() {
    assert_eq!(parse_sock_addr("01.2.3.4:80"), None);
    assert_eq!(parse_sock_addr("1.2.003.4:80"), None);
}

#[test]
fn parses_loopback_bracketed() {
    assert_eq!(parse_sock_addr("[::1]:8080"), v6([0, 0, 0, 0, 0, 0, 0, 1], 8080));
}

#[test]
fn parses_full_bracketed() {
    assert_eq!(
        parse_sock_addr("[1:2:3:4:5:6:7:8]:80"),
        v6([1, 2, 3, 4, 5, 6, 7, 8], 80)
    );
    assert_eq!(
        parse_sock_addr("[fe80:0:0:0:0:0:0:1]:443"),
        v6([0xfe80, 0, 0, 0, 0, 0, 0, 1], 443)
    );
}

#[test]
fn parses_compressed_forms() {
    assert_eq!(parse_sock_addr("[::]:0"), v6([0, 0, 0, 0, 0, 0, 0, 0], 0));
    assert_eq!(parse_sock_addr("[1::]:80"), v6([1, 0, 0, 0, 0, 0, 0, 0], 80));
    assert_eq!(parse_sock_addr("[1::8]:80"), v6([1, 0, 0, 0, 0, 0, 0, 8], 80));
    assert_eq!(
        parse_sock_addr("[2001:db8::ff00:42:8329]:443"),
        v6([0x2001, 0xdb8, 0, 0, 0, 0xff00, 0x42, 0x8329], 443)
    );
    assert_eq!(
        parse_sock_addr("[1:2:3:4:5:6:7::]:80"),
        v6([1, 2, 3, 4, 5, 6, 7, 0], 80)
    );
}

#[test]
fn accepts_hex_case_and_leading_zeros_in_groups() {
    assert_eq!(
        parse_sock_addr("[ABCD:ef01::]:1"),
        v6([0xabcd, 0xef01, 0, 0, 0, 0, 0, 0], 1)
    );
    assert_eq!(parse_sock_addr("[0001::]:1"), v6([1, 0, 0, 0, 0, 0, 0, 0], 1));
}

#[test]
fn rejects_malformed_bracketed() {
    assert_eq!(parse_sock_addr("[::1]"), None);
    assert_eq!(parse_sock_addr("[::1]:"), None);
    assert_eq!(parse_sock_addr("[]:80"), None);
    assert_eq!(parse_sock_addr("[1:2:3]:80"), None);
    assert_eq!(parse_sock_addr("[1:2:3:4:5:6:7:8:9]:80"), None);
    assert_eq!(parse_sock_addr("[1::2::3]:80"), None);
    assert_eq!(parse_sock_addr("[:1:2:3:4:5:6:7]:80"), None);
    assert_eq!(parse_sock_addr("[1:2:3:4:5:6:7:]:80"), None);
    assert_eq!(parse_sock_addr("[12345::]:80"), None);
    assert_eq!(parse_sock_addr("[g::1]:80"), None);
    assert_eq!(parse_sock_addr("[1:2:3:4:5:6:7:8::]:80"), None);
    assert_eq!(parse_sock_addr("[::1]x:80"), None);
}

#[test]
fn parses_embedded_dotted_tail() {
    assert_eq!(
        parse_sock_addr("[::ffff:127.0.0.1]:8080"),
        v6([0, 0, 0, 0, 0, 0xffff, 0x7f00, 0x0001], 8080)
    );
    assert_eq!(
        parse_sock_addr("[1:2:3:4:5:6:1.2.3.4]:80"),
        v6([1, 2, 3, 4, 5, 6, 0x0102, 0x0304], 80)
    );
    assert_eq!(
        parse_sock_addr("[::1.2.3.4]:80"),
        v6([0, 0, 0, 0, 0, 0, 0x0102, 0x0304], 80)
    );
    assert_eq!(
        parse_sock_addr("[1::2:255.255.255.255]:80"),
        v6([1, 0, 0, 0, 0, 2, 0xffff, 0xffff], 80)
    );
}

#[test]
fn rejects_malformed_embedded_tails() {
    assert_eq!(parse_sock_addr("[1.2.3.4]:80"), None);
    assert_eq!(parse_sock_addr("[::256.1.1.1]:80"), None);
    assert_eq!(parse_sock_addr("[::1.2.3]:80"), None);
    assert_eq!(parse_sock_addr("[::01.2.3.4]:80"), None);
    assert_eq!(parse_sock_addr("[1.2.3.4::]:80"), None);
    assert_eq!(parse_sock_addr("[1:2:3:4:5:6:7:1.2.3.4]:80"), None);
}

#[test]
fn parses_numeric_scope_id() {
    assert_eq!(parse_sock_addr("[fe80::1%1]:80"), v6s([0xfe80, 0, 0, 0, 0, 0, 0, 1], 80, 1));
    assert_eq!(parse_sock_addr("[::1%0]:80"), v6s([0, 0, 0, 0, 0, 0, 0, 1], 80, 0));
    assert_eq!(
        parse_sock_addr("[fe80::1%4294967295]:80"),
        v6s([0xfe80, 0, 0, 0, 0, 0, 0, 1], 80, 4294967295)
    );
    assert_eq!(
        parse_sock_addr("[fe80::1%0042]:443"),
        v6s([0xfe80, 0, 0, 0, 0, 0, 0, 1], 443, 42)
    );
}

#[test]
fn rejects_malformed_scope_ids() {
    assert_eq!(parse_sock_addr("[fe80::1%]:80"), None);
    assert_eq!(parse_sock_addr("[fe80::1%eth0]:80"), None);
    assert_eq!(parse_sock_addr("[fe80::1%4294967296]:80"), None);
    assert_eq!(parse_sock_addr("[%1]:80"), None);
}
