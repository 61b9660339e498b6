use ipcalc::{Address, IPError};

#[test]
fn parses_dotted_quad() {
    let a = Address::new("192.168.1.10").unwrap();
    assert_eq!(a.0, 0xc0a8_010a);
    assert_eq!(a.as_str(), "192.168.1.10");
}

#[test]
fn round_trip_of_canonical_text() {
    for s in ["0.0.0.0", "255.255.255.255", "10.0.0.1", "172.16.254.3", "1.22.133.4"] {
        assert_eq!(Address::new(s).unwrap().as_str(), s);
    }
}

#[test]
fn leading_plus_and_zeros_are_read() {
    assert_eq!(Address::new("+1.2.3.4").unwrap().0, 0x0102_0304);
    assert_eq!(Address::new("010.0.0.1").unwrap().as_str(), "10.0.0.1");
}

#[test]
fn rejects_malformed_addresses() {
    for s in ["", "1.2.3", "1.2.3.4.5", "1..3.4", "1.2.3.", "256.0.0.0", "a.b.c.d", "1.2.3.-4", "+.1.1.1", " 1.2.3.4"] {
        assert!(matches!(Address::new(s), Err(IPError::InvalidAddress)), "{}", s);
    }
}

#[test]
fn from_keeps_the_value() {
    assert_eq!(Address::from(0x0a00_0001).as_str(), "10.0.0.1");
    assert_eq!(Address::from(u32::MAX).as_str(), "255.255.255.255");
}

#[test]
fn bits_are_most_significant_first() {
    let a = Address::new("128.0.0.1").unwrap();
    assert_eq!(a.bits(), "10000000000000000000000000000001");
    assert_eq!(Address::from(0).bits(), "0".repeat(32));
}

#[test]
fn from_radix_reads_binary() {
    assert_eq!(Address::from_radix("101".to_string()).0, 5);
    assert_eq!(Address::from_radix("+11".to_string()).0, 3);
    assert_eq!(Address::from_radix("1".repeat(32)).0, u32::MAX);
    assert_eq!(Address::from_radix(Address::from(0xdead_beef).bits()).0, 0xdead_beef);
}

#[test]
fn from_radix_falls_back_to_zero() {
    assert_eq!(Address::from_radix(String::new()).0, 0);
    assert_eq!(Address::from_radix("102".to_string()).0, 0);
    assert_eq!(Address::from_radix("1".repeat(33)).0, 0);
    assert_eq!(Address::from_radix("+".to_string()).0, 0);
}

#[test]
fn order_follows_the_value() {
    let a = Address::new("10.0.0.1").unwrap();
    let b = Address::new("9.255.255.255").unwrap();
    assert!(b < a);
    assert_eq!(a, Address::from(0x0a00_0001));
}

#[test]
fn error_messages() {
    assert_eq!(IPError::InvalidPrefix.message(), "Se esperaba un prefijo entre 0 y 32");
    assert_eq!(IPError::InvalidSubnetPrefix.message(), "El prefijo de subneteo es incorrecto");
}
