use protohackers::mob_in_the_middle::{hack_boguscoin_message, BoguscoinRewriter};

const TARGET: &str = "7YWHMfk9JZe0LM0g1ZauHuiSxhI";

fn hack(message: &str) -> String {
    hack_boguscoin_message(&message.to_string()).unwrap()
}

#[test]
fn an_address_is_replaced_wherever_it_stands() {
    assert_eq!(hack("7F1u3wSD5RbOHQmupo9nx4TnhQ"), TARGET);
    assert_eq!(
        hack("Hi alice, please send payment to 7iKDZEwPZSqIvDnHvVN2r0hUWXD5rHX"),
        format!("Hi alice, please send payment to {}", TARGET)
    );
    assert_eq!(
        hack("7LOrwbDlS8NujgjddyogWgIM93MV5N2VR is my address"),
        format!("{} is my address", TARGET)
    );
    assert_eq!(
        hack("send to 7adNeSwJkMakpEcln9HEtthSRtxdmEHOT8T now"),
        format!("send to {} now", TARGET)
    );
}

#[test]
fn every_address_of_a_message_is_replaced() {
    assert_eq!(
        hack("7F1u3wSD5RbOHQmupo9nx4TnhQ 7iKDZEwPZSqIvDnHvVN2r0hUWXD5rHX"),
        format!("{} {}", TARGET, TARGET)
    );
}

#[test]
fn what_is_no_address_is_left_alone() {
    assert_eq!(hack("hello there"), "hello there");
    assert_eq!(hack(""), "");
    // Too short: 25 characters in all.
    assert_eq!(hack("7F1u3wSD5RbOHQmupo9nx4Tnh"), "7F1u3wSD5RbOHQmupo9nx4Tnh");
    // Too long: 36 characters in all.
    assert_eq!(
        hack("7F1u3wSD5RbOHQmupo9nx4TnhQabcdefghij"),
        "7F1u3wSD5RbOHQmupo9nx4TnhQabcdefghij"
    );
    // Does not start with a seven.
    assert_eq!(hack("8F1u3wSD5RbOHQmupo9nx4TnhQ"), "8F1u3wSD5RbOHQmupo9nx4TnhQ");
    // Part of a longer word.
    assert_eq!(
        hack("x7F1u3wSD5RbOHQmupo9nx4TnhQ"),
        "x7F1u3wSD5RbOHQmupo9nx4TnhQ"
    );
    assert_eq!(
        hack("7F1u3wSD5RbOHQmupo9nx4TnhQ-1234"),
        "7F1u3wSD5RbOHQmupo9nx4TnhQ-1234"
    );
}

#[test]
fn the_shortest_and_the_longest_address_are_replaced() {
    let shortest = format!("7{}", "a".repeat(25));
    let longest = format!("7{}", "a".repeat(34));
    assert_eq!(hack(&shortest), TARGET);
    assert_eq!(hack(&longest), TARGET);
}

#[test]
fn a_rewriter_rewrites_message_after_message() {
    let rewriter = BoguscoinRewriter::new().unwrap();
    assert_eq!(
        rewriter.rewrite(&"pay 7F1u3wSD5RbOHQmupo9nx4TnhQ".to_string()),
        Ok(format!("pay {}", TARGET))
    );
    assert_eq!(rewriter.rewrite(&"no address".to_string()), Ok("no address".to_string()));
    assert_eq!(
        rewriter.rewrite(&"7iKDZEwPZSqIvDnHvVN2r0hUWXD5rHX thanks".to_string()),
        Ok(format!("{} thanks", TARGET))
    );
}
