//! Names for ports.

use throughline::services::{Proto, ServiceNames};

const SAMPLE: &str = "\
# Network services, Internet style
ssh             22/tcp                          # SSH Remote Login Protocol
ssh             22/udp
domain          53/tcp
domain          53/udp
http            80/tcp          www             # WorldWideWeb HTTP
https          443/tcp
nntp           119/tcp         readnews untp    # USENET
tor-socks     9050/tcp
discard          9/sctp
malformed
noport         abc/tcp
";

#[test]
fn the_system_supplies_the_name_for_a_port() {
    let s = ServiceNames::parse(SAMPLE);
    assert_eq!(s.name(22, Proto::Tcp), Some("ssh"));
    assert_eq!(s.name(443, Proto::Tcp), Some("https"));
    assert_eq!(s.name(9050, Proto::Tcp), Some("tor-socks"));
}

#[test]
fn tcp_and_udp_are_separate_namespaces() {
    let s = ServiceNames::parse("domain 53/udp\nsomethingelse 53/tcp\n");
    assert_eq!(s.name(53, Proto::Udp), Some("domain"));
    assert_eq!(s.name(53, Proto::Tcp), Some("somethingelse"));
}

#[test]
fn an_alias_line_does_not_displace_the_canonical_name() {
    let s = ServiceNames::parse(SAMPLE);
    assert_eq!(s.name(80, Proto::Tcp), Some("http"), "not the 'www' alias");
    assert_eq!(s.name(119, Proto::Tcp), Some("nntp"));
}

#[test]
fn junk_lines_are_skipped_rather_than_poisoning_the_table() {
    let s = ServiceNames::parse(SAMPLE);
    assert_eq!(s.name(9, Proto::Tcp), None, "sctp entry is not a socket");
    assert_eq!(s.name(0, Proto::Tcp), None);
    assert!(s.len() >= 7, "{} entries", s.len());
}

#[test]
fn an_unknown_port_has_no_name_rather_than_a_guess() {
    let s = ServiceNames::parse(SAMPLE);
    assert_eq!(s.name(48123, Proto::Tcp), None);
}

#[test]
fn a_missing_services_file_is_an_empty_table_not_a_failure() {
    let s = ServiceNames::load(None);
    assert!(s.is_empty());
    assert_eq!(s.name(22, Proto::Tcp), None);
}
