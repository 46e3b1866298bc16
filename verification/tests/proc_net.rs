//! The kernel's socket tables.

use throughline::addr::IpAddr;
use throughline::proc_net::{parse_table, parse_table_in, ByteOrder, Proto, State};

const TCP: &str = "\
  sl  local_address rem_address   st tx_queue rx_queue tr tm->when retrnsmt   uid  timeout inode
   0: 3500007F:0035 00000000:0000 0A 00000000:00000000 00:00000000 00000000   101        0 24503 1 0000000000000000 100 0 0 10 0
   1: 077100CB:0016 2A6433C6:D8E6 01 00000000:00000000 02:000AFB4C 00000000     0        0 3459124 4 0000000000000000 20 4 31 10 -1
";

const TCP6: &str = "\
  sl  local_address                         remote_address                        st tx_queue rx_queue tr tm->when retrnsmt   uid  timeout inode
   0: 00000000000000000000000000000000:01BB 00000000000000000000000000000000:0000 0A 00000000:00000000 00:00000000 00000000     0        0 27061 1 0000000000000000 100 0 0 10 0
";

#[test]
fn a_listener_and_an_established_connection_are_both_read() {
    let rows = parse_table(Proto::Tcp, TCP);
    assert_eq!(rows.len(), 2, "header must not become a row: {rows:?}");

    let listener = &rows[0];
    assert_eq!(listener.state, State::Listen);
    assert_eq!(listener.local_port, 0x35, "port 53");
    assert_eq!(
        listener.local_addr.to_text(),
        "127.0.0.53",
        "the kernel writes each word little-endian; reading it big-endian \
         yields 53.0.0.127, which is a real-looking and wrong address"
    );
    assert!(!listener.has_peer());
    assert_eq!(listener.uid, 101);
    assert_eq!(listener.inode, 24503);

    let conn = &rows[1];
    assert_eq!(conn.state, State::Established);
    assert_eq!(conn.local_addr.to_text(), "203.0.113.7");
    assert_eq!(conn.local_port, 22);
    assert_eq!(conn.remote_addr.to_text(), "198.51.100.42");
    assert_eq!(conn.remote_port, 55526);
    assert!(conn.has_peer());
}

#[test]
fn v6_addresses_round_trip_through_the_word_swap() {
    let rows = parse_table(Proto::Tcp6, TCP6);
    assert_eq!(rows.len(), 1);
    assert_eq!(rows[0].local_addr.to_text(), "::");
    assert_eq!(rows[0].local_port, 443);
}

#[test]
fn a_real_v6_address_is_not_byte_swapped_wholesale() {
    let good = "   3: B80D0120AB1670300000000002000000:01BB \
                00000000000000000000000000000000:0000 01 00000000:00000000 \
                00:00000000 00000000     0        0 42 1 0 100 0 0 10 0";
    let rows = parse_table(Proto::Tcp6, good);
    assert_eq!(rows.len(), 1, "{rows:?}");
    assert_eq!(rows[0].local_addr.to_text(), "2001:db8:3070:16ab::2");
    assert_eq!(rows[0].local_port, 443);
    assert_eq!(rows[0].inode, 42);

    let short = good.replace("B80D0120AB1670300000000002000000", "80D0120AB1670300000000002000000");
    assert!(parse_table(Proto::Tcp6, &short).is_empty());
}

#[test]
fn the_header_line_is_never_a_row() {
    for (p, t) in [(Proto::Tcp, TCP), (Proto::Tcp6, TCP6)] {
        let header = t.lines().next().unwrap();
        assert!(
            parse_table(p, header).is_empty(),
            "{} header parsed as data",
            p.label()
        );
    }
}

#[test]
fn a_truncated_or_alien_row_is_skipped_not_guessed() {
    for junk in [
        "",
        "garbage",
        "   0: 3500007F:0035",                      
        "   0: ZZZZZZZZ:0035 00000000:0000 0A 0 0 0 0 0 1",
        "   0: 3500007F:0035 00000000:0000 0A 0 0 0 notauid 0 1",
    ] {
        assert!(
            parse_table(Proto::Tcp, junk).is_empty(),
            "junk parsed into a row: {junk:?}"
        );
    }
}

#[test]
fn one_bad_row_does_not_cost_the_whole_table() {
    let mixed = format!("{TCP}   2: nonsense\n");
    assert_eq!(parse_table(Proto::Tcp, &mixed).len(), 2);
}

#[test]
fn listeners_are_not_counted_as_active_traffic() {
    assert!(!State::Listen.is_active());
    assert!(!State::Close.is_active());
    assert!(State::Established.is_active());
    assert!(State::TimeWait.is_active());
}

#[test]
fn the_order_of_bytes_decides_the_address() {
    let row = "   0: 0100007F:0035 00000000:0000 0A 0 0 0 5 0 9";
    let little = parse_table_in(ByteOrder::Little, Proto::Tcp, row);
    assert_eq!(little[0].local_addr, IpAddr::V4(127, 0, 0, 1));
    let big = parse_table_in(ByteOrder::Big, Proto::Tcp, row);
    assert_eq!(big[0].local_addr, IpAddr::V4(1, 0, 0, 127));
    let here = parse_table(Proto::Tcp, row);
    let native = 0x0100_007F_u32.to_ne_bytes();
    assert_eq!(here[0].local_addr, IpAddr::V4(native[0], native[1], native[2], native[3]));
    assert_eq!(here[0].uid, 5);
    assert_eq!(here[0].inode, 9);
}

#[test]
fn tables_and_states_have_names() {
    assert_eq!(Proto::Udp6.proc_file(), "/proc/net/udp6");
    assert_eq!(Proto::Udp6.label(), "udp6");
    assert!(Proto::Tcp6.is_v6() && !Proto::Udp.is_v6());
    assert_eq!(State::from_hex(1), State::Established);
    assert_eq!(State::from_hex(0x0a), State::Listen);
    assert_eq!(State::from_hex(0x0a).to_text(), "LISTEN");
    assert_eq!(State::from_hex(3).to_text(), "SYN-RECV");
    assert_eq!(State::from_hex(0x77), State::Unknown(0x77));
}
