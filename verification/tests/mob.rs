use protohackers::mob::{is_boguscoin_address, rewrite_address};

fn chars(s: &str) -> Vec<char> {
    s.chars().collect()
}

const TONY: &str = "7YWHMfk9JZe0LM0g1ZauHuiSxhI";

#[test]
fn address_in_the_middle() {
    let msg = "Hi alice, please send payment to 7iKDZEwPZSqIvDnHvVN2r0hUWXD5rHX";
    let want = format!("Hi alice, please send payment to {}", TONY);
    assert_eq!(rewrite_address(msg), chars(&want));
}

#[test]
fn address_with_newline_and_start() {
    let msg = "7F1u3wSD5RbOHQmupo9nx4TnhQ please\n";
    let want = format!("{} please\n", TONY);
    assert_eq!(rewrite_address(msg), chars(&want));
    let msg = "send to 7adNeSwJkMakpEcln9HEtthSRtxdmEHOT8T\n";
    let want = format!("send to {}\n", TONY);
    assert_eq!(rewrite_address(msg), chars(&want));
}

#[test]
fn not_addresses() {
    let msg = "7short and 8iKDZEwPZSqIvDnHvVN2r0hUWXD5rHX and 7iKDZEwPZSqIvDnHvVN2r0hUWXD5rHX-x\n";
    assert_eq!(rewrite_address(msg), chars(msg));
    assert!(!is_boguscoin_address(&chars("7abc")));
    assert!(!is_boguscoin_address(&chars("7iKDZEwPZSqIvDnHvVN2r0hUWXD5rHXabcdefgh")));
    assert!(is_boguscoin_address(&chars("7iKDZEwPZSqIvDnHvVN2r0hUWXD5rHX")));
    assert!(!is_boguscoin_address(&chars("")));
}
