//! The range the kernel hands out.

use throughline::ports::EphemeralPorts;

#[test]
fn the_kernels_range_is_read_not_assumed() {
    let p = EphemeralPorts::parse("32768\t60999\n").unwrap();
    assert_eq!(p, EphemeralPorts { low: 32768, high: 60999 });
    assert!(p.is_ephemeral(41000));
    assert!(!p.is_ephemeral(443));
}

#[test]
fn a_host_that_tuned_its_range_is_judged_by_that_range() {
    let p = EphemeralPorts::parse("10000 65535").unwrap();
    assert!(p.is_ephemeral(15000));
    assert!(!p.is_service_port(15000));
    assert!(p.is_service_port(9050));
}

#[test]
fn a_service_port_is_outside_the_range_and_is_not_zero() {
    let p = EphemeralPorts::default();
    assert!(p.is_service_port(53));
    assert!(p.is_service_port(9050));
    assert!(!p.is_service_port(0), "port 0 is not a port");
    assert!(!p.is_service_port(45123));
}

#[test]
fn junk_falls_back_rather_than_adopting_nonsense() {
    for bad in ["", "32768", "abc def", "60999 32768", "x\ty"] {
        assert_eq!(EphemeralPorts::parse(bad), None, "{bad:?}");
    }
    let p = EphemeralPorts::load(None);
    assert_eq!(p, EphemeralPorts::default());
}

#[test]
fn three_numbers_are_no_range() {
    assert_eq!(EphemeralPorts::parse("10000 65535 7"), None);
    assert_eq!(EphemeralPorts::parse("10000 65535 x"), None);
    assert_eq!(EphemeralPorts::load(Some("1 2 3")), EphemeralPorts::default());
}
