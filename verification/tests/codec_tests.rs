use algobench::codec::parse_vec;
use algobench::codec::render_i32;
use algobench::codec::render_vec;
use algobench::fixtures::fixture_sizes;
use algobench::fixtures::get_rand_vector;
use algobench::timing::elapsed_millis;

#[test]
fn render_concrete_scenario() {
    let v = vec![3, -5, 0, 42];
    let bytes = render_vec(&v);
    assert_eq!(bytes, b"[3, -5, 0, 42]".to_vec());
}

#[test]
fn parse_concrete_scenario() {
    let bytes = b"[3, -5, 0, 42]".to_vec();
    assert_eq!(parse_vec(&bytes), Some(vec![3, -5, 0, 42]));
}

#[test]
fn render_matches_debug_form() {
    let v = vec![12, -7, 100];
    assert_eq!(render_vec(&v), format!("{:?}", v).into_bytes());
    let single = vec![-99];
    assert_eq!(render_vec(&single), format!("{:?}", single).into_bytes());
    let empty: Vec<i32> = vec![];
    assert_eq!(render_vec(&empty), b"[]".to_vec());
}

#[test]
fn render_single_values() {
    assert_eq!(render_i32(0), b"0".to_vec());
    assert_eq!(render_i32(-1), b"-1".to_vec());
    assert_eq!(render_i32(2147483647), b"2147483647".to_vec());
    assert_eq!(render_i32(-2147483648), b"-2147483648".to_vec());
}

#[test]
fn round_trip_various() {
    let cases = vec![
        vec![1],
        vec![0, 0, 0],
        vec![i32::MIN, i32::MAX],
        vec![-99, 99, 12345, -54321],
        vec![7; 20],
    ];
    for v in cases {
        let bytes = render_vec(&v);
        assert_eq!(parse_vec(&bytes), Some(v));
    }
}

#[test]
fn parse_rejects_malformed() {
    // Too short for even the positional strip.
    assert_eq!(parse_vec(&b"".to_vec()), None);
    assert_eq!(parse_vec(&b"[".to_vec()), None);
    // A bare bracket pair leaves one empty piece, which is no integer.
    assert_eq!(parse_vec(&b"[]".to_vec()), None);
    // A comma without the following space is part of the piece.
    assert_eq!(parse_vec(&b"[1,2]".to_vec()), None);
    // Trailing separator leaves an empty last piece.
    assert_eq!(parse_vec(&b"[1, ]".to_vec()), None);
    // Not a number.
    assert_eq!(parse_vec(&b"[abc]".to_vec()), None);
    assert_eq!(parse_vec(&b"[1, x]".to_vec()), None);
    // Out of 32-bit range.
    assert_eq!(parse_vec(&b"[2147483648]".to_vec()), None);
    assert_eq!(parse_vec(&b"[-2147483649]".to_vec()), None);
    assert_eq!(parse_vec(&b"[99999999999999999999]".to_vec()), None);
}

#[test]
fn parse_accepts_edge_numbers() {
    assert_eq!(parse_vec(&b"[2147483647]".to_vec()), Some(vec![2147483647]));
    assert_eq!(parse_vec(&b"[-2147483648]".to_vec()), Some(vec![-2147483648]));
    assert_eq!(parse_vec(&b"[+5, -0]".to_vec()), Some(vec![5, 0]));
}

#[test]
fn parse_is_positional_not_bracket_aware() {
    // Exactly one leading and one trailing byte are stripped, whatever
    // they are.
    assert_eq!(parse_vec(&b"(1, 2)".to_vec()), Some(vec![1, 2]));
    assert_eq!(parse_vec(&b"x7y".to_vec()), Some(vec![7]));
}

#[test]
fn elapsed_millis_truncates() {
    assert_eq!(elapsed_millis(0, 0), 0);
    assert_eq!(elapsed_millis(0, 999_999), 0);
    assert_eq!(elapsed_millis(0, 1_000_000), 1);
    assert_eq!(elapsed_millis(2, 3_456_789), 2003);
    assert_eq!(elapsed_millis(1, 999_999_999), 1999);
}

#[test]
fn fixture_sizes_progression() {
    assert_eq!(fixture_sizes(10, 10000), vec![10, 100, 1000, 10000]);
    assert_eq!(fixture_sizes(10, 9999), vec![10, 100, 1000]);
    assert_eq!(fixture_sizes(3, 3), vec![3]);
    assert_eq!(fixture_sizes(5, 4), Vec::<i32>::new());
}

#[test]
fn rand_vector_within_bounds() {
    let v = get_rand_vector(500);
    assert_eq!(v.len(), 500);
    for x in v {
        assert!((-99..=99).contains(&x));
    }
    let empty = get_rand_vector(0);
    assert!(empty.is_empty());
}
