use torrent_client::peer_id::{generate_peer_id, peer_id_from_digits};
use torrent_client::text::{push_decimal, push_latin1, push_signed_decimal};

fn decimal_string(n: u64) -> String {
    let mut s = String::new();
    push_decimal(&mut s, n);
    s
}

#[test]
fn decimal_of_zero_and_large_numbers() {
    assert_eq!(decimal_string(0), "0");
    assert_eq!(decimal_string(7), "7");
    assert_eq!(decimal_string(6881), "6881");
    assert_eq!(decimal_string(u64::MAX), "18446744073709551615");
}

#[test]
fn signed_decimal_matches_to_string() {
    for v in [0i64, 1, -1, 42, -42, 16384, i64::MAX, i64::MIN] {
        let mut s = String::from("x=");
        push_signed_decimal(&mut s, v);
        assert_eq!(s, format!("x={}", v));
    }
}

#[test]
fn push_decimal_appends() {
    let mut s = String::from("port ");
    push_decimal(&mut s, 51413);
    assert_eq!(s, "port 51413");
}

#[test]
fn latin1_bytes_become_chars() {
    let mut s = String::new();
    push_latin1(&mut s, &[49, 50, 55, 46, 48, 46, 48, 46, 49, 0xe9]);
    assert_eq!(s, "127.0.0.1\u{e9}");
}

#[test]
fn peer_id_has_prefix_and_digits() {
    let id = peer_id_from_digits(&vec![0, 1, 2, 3, 4, 5, 6, 7, 8, 9, 0, 1]);
    assert_eq!(id, "-qB5000-012345678901");
    let fresh = generate_peer_id();
    assert_eq!(fresh.len(), 20);
    assert!(fresh.starts_with("-qB5000-"));
    assert!(fresh[8..].chars().all(|c| c.is_ascii_digit()));
}
