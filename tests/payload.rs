use rendezvous::{decode_user, encode_user, IpAddress, User};

fn user(name: &str, ip: IpAddress, delta: &str) -> User {
    User::new(name.to_string(), ip, delta.to_string())
}

#[test]
fn encode_writes_fields_in_fixed_layout() {
    let u = user("alice", IpAddress::V4(192, 168, 0, 1), "0.5");
    assert_eq!(
        encode_user(&u).unwrap(),
        "\n{\n    \"name\" : \"alice\",\n    \"ip\" : [192, 168, 0, 1],\n    \"delta_seconds\" : 0.5 \n}"
    );
}

#[test]
fn encode_refuses_ipv6() {
    let u = user("x", IpAddress::V6([0, 0, 0, 0, 0, 0, 0, 1]), "0");
    assert_eq!(encode_user(&u), None);
}

#[test]
fn round_trip_gives_back_the_user() {
    let cases = vec![
        user("alice", IpAddress::V4(192, 168, 0, 1), "0.5"),
        user("", IpAddress::V4(0, 0, 0, 0), ""),
        user("名前 with spaces", IpAddress::V4(255, 255, 255, 255), "-0.000125"),
        user("b,o]b", IpAddress::V4(9, 10, 99, 100), "1e-7"),
    ];
    for u in cases {
        let text = encode_user(&u).unwrap();
        assert_eq!(decode_user(&text), Some(u));
    }
}

#[test]
fn decode_refuses_other_text() {
    assert_eq!(decode_user(""), None);
    assert_eq!(decode_user("hello"), None);
    let bad_octet = "\n{\n    \"name\" : \"a\",\n    \"ip\" : [007, 0, 0, 1],\n    \"delta_seconds\" : 1 \n}";
    assert_eq!(decode_user(bad_octet), None);
    let too_big = "\n{\n    \"name\" : \"a\",\n    \"ip\" : [256, 0, 0, 1],\n    \"delta_seconds\" : 1 \n}";
    assert_eq!(decode_user(too_big), None);
    let no_close = "\n{\n    \"name\" : \"a\",\n    \"ip\" : [1, 0, 0, 1],\n    \"delta_seconds\" : 1";
    assert_eq!(decode_user(no_close), None);
}

#[test]
fn decode_reads_a_given_text() {
    let text = "\n{\n    \"name\" : \"zed\",\n    \"ip\" : [10, 20, 30, 40],\n    \"delta_seconds\" : 2.75 \n}";
    assert_eq!(decode_user(text), Some(user("zed", IpAddress::V4(10, 20, 30, 40), "2.75")));
}

#[test]
fn name_with_quote_comes_back() {
    let u = user("say \"hi\"", IpAddress::V4(10, 0, 0, 1), "0.25");
    let text = encode_user(&u).unwrap();
    assert_eq!(
        text,
        "\n{\n    \"name\" : \"say \\\"hi\\\"\",\n    \"ip\" : [10, 0, 0, 1],\n    \"delta_seconds\" : 0.25 \n}"
    );
    assert_eq!(decode_user(&text), Some(u));
}

#[test]
fn name_with_backslash_comes_back() {
    let u = user("a\\b\\\"", IpAddress::V4(1, 1, 1, 1), "0");
    let text = encode_user(&u).unwrap();
    assert_eq!(
        text,
        "\n{\n    \"name\" : \"a\\\\b\\\\\\\"\",\n    \"ip\" : [1, 1, 1, 1],\n    \"delta_seconds\" : 0 \n}"
    );
    assert_eq!(decode_user(&text), Some(u));
}

#[test]
fn decode_refuses_unescaped_quote_in_name() {
    let text = "\n{\n    \"name\" : \"a\"b\",\n    \"ip\" : [1, 1, 1, 1],\n    \"delta_seconds\" : 0 \n}";
    assert_eq!(decode_user(text), None);
    let dangling = "\n{\n    \"name\" : \"a\\";
    assert_eq!(decode_user(dangling), None);
}
