//! Connection-string parsing: hosts, addresses, whole descriptors, and
//! the canonical host form round trip.

use rmmm::dsn::{canonical_host, parse_address, parse_dsn, parse_host, Address, HostName};

fn bv(s: &str) -> Vec<u8> {
    s.as_bytes().to_vec()
}

#[test]
fn test_address_name_parser() {
    assert_eq!(parse_host(&bv("127.0.0.1")), HostName::V4(127, 0, 0, 1));
    assert_eq!(parse_host(&bv("::1")), HostName::V6(vec![0, 0, 0, 0, 0, 0, 0, 1]));
}

#[test]
fn test_address_parser() {
    assert_eq!(
        parse_address(&bv("127.0.0.1")).unwrap(),
        Address { name: HostName::V4(127, 0, 0, 1), port: 3306 }
    );
    assert_eq!(
        parse_address(&bv("127.0.0.1:6603")).unwrap(),
        Address { name: HostName::V4(127, 0, 0, 1), port: 6603 }
    );
    assert_eq!(
        parse_address(&bv("[::2]")).unwrap(),
        Address { name: HostName::V6(vec![0, 0, 0, 0, 0, 0, 0, 2]), port: 3306 }
    );
    assert_eq!(
        parse_address(&bv("[::4]:3307")).unwrap(),
        Address { name: HostName::V6(vec![0, 0, 0, 0, 0, 0, 0, 4]), port: 3307 }
    );
}

#[test]
fn test_parse() {
    let parsed = parse_dsn(&bv("foo:bar@tcp(127.0.0.1:33606)/foodb?ignored=true"))
        .expect("should parse");
    assert_eq!(
        parsed.address,
        Address { name: HostName::V4(127, 0, 0, 1), port: 33606 }
    );
    assert_eq!(parsed.username, Some(bv("foo")));
    assert_eq!(parsed.password, Some(bv("bar")));
    assert_eq!(parsed.database, bv("foodb"));
    for s in &[
        "foo:bar@tcp([::1])/foo",
        "foo:bar@tcp([::1]:3300)/foo",
        "foo@tcp([::1])/foo",
        "tcp(127.0.0.1)/baz",
        "usps:sekret@tcp(dblb.local.easypo.net:36060)/usps",
    ] {
        assert!(parse_dsn(&bv(s)).is_ok(), "attempting to parse {}", s);
    }
}

#[test]
fn test_parse_rejects_bad_input() {
    // No parenthesized address, no database segment, bad IPv6 literal,
    // bad port, unsupported protocol: all the same parse-failure kind.
    for s in &[
        "no-address-here",
        "tcp(host)",
        "tcp(host)/",
        "udp(host)/db",
        "tcp([::1)/db",
        "tcp([zz])/db",
        "tcp(host:notaport)/db",
        "tcp(host:65536)/db",
        "tcp()/db",
    ] {
        let e = parse_dsn(&bv(s)).expect_err("should fail");
        assert_eq!(e.offending, bv(s));
    }
}

#[test]
fn test_default_port_applies() {
    let d = parse_dsn(&bv("tcp(dbhost)/db")).unwrap();
    assert_eq!(d.address.port, 3306);
    assert_eq!(d.address.name, HostName::Name(bv("dbhost")));
    assert_eq!(d.username, None);
    assert_eq!(d.password, None);
    let d6 = parse_dsn(&bv("tcp([::1])/foo")).unwrap();
    assert_eq!(d6.address.port, 3306);
}

#[test]
fn test_port_bounds() {
    // 65535 is the largest port; 65536 is out of sixteen-bit range.
    let d = parse_dsn(&bv("tcp(h:65535)/db")).unwrap();
    assert_eq!(d.address.port, 65535);
    assert!(parse_dsn(&bv("tcp(h:65536)/db")).is_err());
    let z = parse_dsn(&bv("tcp(h:0)/db")).unwrap();
    assert_eq!(z.address.port, 0);
}

#[test]
fn test_canonical_host_forms() {
    assert_eq!(canonical_host(&HostName::V4(127, 0, 0, 1)), bv("127.0.0.1"));
    assert_eq!(
        canonical_host(&HostName::V6(vec![0, 0, 0, 0, 0, 0, 0, 1])),
        bv("::1")
    );
    assert_eq!(
        canonical_host(&HostName::V6(vec![0x2001, 0xdb8, 0, 0, 0, 0, 0, 1])),
        bv("2001:db8::1")
    );
    assert_eq!(canonical_host(&HostName::V6(vec![0, 0, 0, 0, 0, 0, 0, 0])), bv("::"));
    assert_eq!(
        canonical_host(&HostName::V6(vec![1, 2, 3, 4, 5, 6, 7, 8])),
        bv("1:2:3:4:5:6:7:8")
    );
    assert_eq!(
        canonical_host(&HostName::V6(vec![1, 0, 0, 0, 0, 0, 0, 0])),
        bv("1::")
    );
    assert_eq!(canonical_host(&HostName::Name(bv("dblb.local.easypo.net"))), bv("dblb.local.easypo.net"));
}

#[test]
fn test_canonical_host_round_trip() {
    // Parsing the canonical text of a parsed host gives the host back,
    // with and without explicit ports.
    for s in &[
        "tcp(127.0.0.1:33606)/db",
        "tcp(10.0.0.7)/db",
        "tcp([::1])/db",
        "tcp([2001:db8:0:0:0:0:0:1]:443)/db",
        "tcp(some.host.name:9999)/db",
    ] {
        let d = parse_dsn(&bv(s)).unwrap();
        let canon = canonical_host(&d.address.name);
        assert_eq!(parse_host(&canon), d.address.name, "round trip of {}", s);
    }
}
