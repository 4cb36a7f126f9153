use orion_chat::commands::{port_in_range, PORT_MAX, PORT_MIN};

#[test]
fn accepts_ordinary_port() {
    assert_eq!(port_in_range("3333"), Ok(3333));
}

#[test]
fn accepts_range_bounds() {
    assert_eq!(port_in_range("1"), Ok(PORT_MIN));
    assert_eq!(port_in_range("65535"), Ok(PORT_MAX));
}

#[test]
fn accepts_plus_sign() {
    assert_eq!(port_in_range("+80"), Ok(80));
}

#[test]
fn rejects_zero_as_out_of_range() {
    assert_eq!(
        port_in_range("0"),
        Err("port not in range 1 : 65535".to_string())
    );
}

#[test]
fn rejects_above_range() {
    assert_eq!(
        port_in_range("65536"),
        Err("port not in range 1 : 65535".to_string())
    );
}

#[test]
fn rejects_negative_as_out_of_range() {
    assert_eq!(
        port_in_range("-22"),
        Err("port not in range 1 : 65535".to_string())
    );
}

#[test]
fn rejects_text() {
    assert_eq!(port_in_range("abc"), Err("abc is not a port".to_string()));
}

#[test]
fn rejects_empty_text() {
    assert_eq!(port_in_range(""), Err(" is not a port".to_string()));
}

#[test]
fn rejects_whitespace() {
    assert_eq!(port_in_range(" 80"), Err(" 80 is not a port".to_string()));
}

#[test]
fn rejects_lone_sign() {
    assert_eq!(port_in_range("-"), Err("- is not a port".to_string()));
}

#[test]
fn rejects_number_beyond_i32() {
    assert_eq!(
        port_in_range("2147483648"),
        Err("2147483648 is not a port".to_string())
    );
}

#[test]
fn every_port_text_is_accepted() {
    for p in PORT_MIN..=PORT_MAX {
        assert_eq!(port_in_range(&p.to_string()), Ok(p));
    }
}
