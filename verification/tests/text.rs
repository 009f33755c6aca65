use oxygn::text::{address_string, push_decimal, same_text};

#[test]
fn decimal_of_small_and_large_numbers() {
    let cases: Vec<(u128, &str)> = vec![
        (0, "0"),
        (7, "7"),
        (10, "10"),
        (65535, "65535"),
        (1_000_000, "1000000"),
        (u128::MAX, "340282366920938463463374607431768211455"),
    ];
    for (n, text) in cases {
        let mut s = String::from("x=");
        push_decimal(&mut s, n);
        assert_eq!(s, format!("x={}", text));
    }
}

#[test]
fn address_is_host_colon_port() {
    assert_eq!(address_string("127.0.0.1", 8080), "127.0.0.1:8080");
    assert_eq!(address_string("backend.local", 0), "backend.local:0");
    assert_eq!(address_string("::1", 65535), "::1:65535");
}

#[test]
fn same_text_compares_contents() {
    assert!(same_text("round_robin", "round_robin"));
    assert!(!same_text("round_robin", "round_robin "));
    assert!(!same_text("", "x"));
    assert!(same_text("", ""));
}
