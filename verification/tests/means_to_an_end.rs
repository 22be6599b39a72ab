use byteorder::{BigEndian, ByteOrder};
use protohackers::means_to_an_end::{handle_request, mean_price, parse_request, Price, Request};

fn request(letter: char, first: i32, second: i32) -> [u8; 9] {
    let mut buffer = [0u8; 9];
    buffer[0] = letter as u8;
    BigEndian::write_i32(&mut buffer[1..5], first);
    BigEndian::write_i32(&mut buffer[5..9], second);
    buffer
}

fn price(timestamp: i32, price: i32) -> Price {
    Price { timestamp, price }
}

#[test]
fn main_test_of_means_to_an_end() {
    let mut prices = Vec::new();
    assert_eq!(handle_request(&mut prices, &request('I', 1, 100)), None);
    assert_eq!(handle_request(&mut prices, &request('I', 2, 200)), None);
    let answer = handle_request(&mut prices, &request('Q', 1, 2)).unwrap();
    assert_eq!(i32::from_be_bytes(answer), 150);
    let answer = handle_request(&mut prices, &request('Q', 3, 4)).unwrap();
    assert_eq!(i32::from_be_bytes(answer), 0);
}

#[test]
fn a_request_is_a_letter_and_two_integers() {
    assert_eq!(
        parse_request(&[0x49, 0x00, 0x00, 0x30, 0x39, 0x00, 0x00, 0x00, 0x65]),
        Request::Insert { timestamp: 12345, price: 101 }
    );
    assert_eq!(
        parse_request(&[0x51, 0x00, 0x00, 0x03, 0xe8, 0x00, 0x01, 0x86, 0xa0]),
        Request::Query { mintime: 1000, maxtime: 100000 }
    );
    assert_eq!(
        parse_request(&[0x49, 0xff, 0xff, 0xff, 0xff, 0x80, 0x00, 0x00, 0x00]),
        Request::Insert { timestamp: -1, price: i32::MIN }
    );
    assert_eq!(
        parse_request(&[0x51, 0x7f, 0xff, 0xff, 0xff, 0xff, 0xff, 0xff, 0xfe]),
        Request::Query { mintime: i32::MAX, maxtime: -2 }
    );
    assert_eq!(parse_request(&[0x58, 0, 0, 0, 1, 0, 0, 0, 2]), Request::Unknown);
    assert_eq!(parse_request(&[0x69, 0, 0, 0, 1, 0, 0, 0, 2]), Request::Unknown);
}

#[test]
fn the_mean_is_over_the_prices_of_the_period_with_both_ends() {
    let prices =
        vec![price(12345, 101), price(12346, 102), price(12347, 100), price(40960, 5)];
    assert_eq!(mean_price(&prices, 12288, 16384), 101);
    assert_eq!(mean_price(&prices, 12345, 12345), 101);
    assert_eq!(mean_price(&prices, 12346, 40960), 69);
    assert_eq!(mean_price(&prices, 12348, 40959), 0);
    assert_eq!(mean_price(&prices, i32::MIN, i32::MAX), 77);
}

#[test]
fn a_period_that_ends_before_it_begins_has_no_prices() {
    let prices = vec![price(5, 100)];
    assert_eq!(mean_price(&prices, 6, 4), 0);
    assert_eq!(mean_price(&prices, 5, 5), 100);
}

#[test]
fn the_mean_is_rounded_towards_zero() {
    assert_eq!(mean_price(&vec![price(1, 1), price(2, 2)], 0, 10), 1);
    assert_eq!(mean_price(&vec![price(1, -1), price(2, -2)], 0, 10), -1);
    assert_eq!(mean_price(&vec![price(1, -7), price(2, 2)], 0, 10), -2);
    assert_eq!(mean_price(&vec![price(1, -1), price(2, 0), price(3, 0)], 0, 10), 0);
}

#[test]
fn the_mean_of_extreme_prices_is_exact() {
    let high = vec![price(1, i32::MAX), price(2, i32::MAX), price(3, i32::MAX)];
    assert_eq!(mean_price(&high, 0, 10), i32::MAX);
    let low = vec![price(1, i32::MIN), price(2, i32::MIN), price(3, i32::MIN)];
    assert_eq!(mean_price(&low, 0, 10), i32::MIN);
    let mixed = vec![price(1, i32::MIN), price(2, i32::MAX)];
    assert_eq!(mean_price(&mixed, 0, 10), 0);
}

#[test]
fn an_answer_is_four_bytes_in_network_order() {
    let mut prices = vec![price(1, 5107), price(2, -3)];
    assert_eq!(
        handle_request(&mut prices, &request('Q', 1, 1)),
        Some([0x00, 0x00, 0x13, 0xf3])
    );
    assert_eq!(
        handle_request(&mut prices, &request('Q', 2, 2)),
        Some([0xff, 0xff, 0xff, 0xfd])
    );
}

#[test]
fn an_unknown_request_is_passed_over() {
    let mut prices = vec![price(1, 5)];
    assert_eq!(handle_request(&mut prices, &request('X', 1, 1)), None);
    assert_eq!(prices, vec![price(1, 5)]);
}

#[test]
fn an_insert_is_recorded_and_not_answered() {
    let mut prices = Vec::new();
    assert_eq!(handle_request(&mut prices, &request('I', -5, -50)), None);
    assert_eq!(handle_request(&mut prices, &request('I', -5, 70)), None);
    assert_eq!(prices, vec![price(-5, -50), price(-5, 70)]);
    assert_eq!(mean_price(&prices, -5, -5), 10);
}
