use mandelbrot::parse::{parse_pair, split_pair};

#[test]
fn do_parse() {
    assert_eq!(Some((100, 200)), parse_pair::<i32>("100x200", 'x'));
}

#[test]
fn do_not_parse() {
    assert_eq!(None, parse_pair::<i32>("100x200", '%'));
}

#[test]
fn parse_pair_of_sizes() {
    assert_eq!(Some((1000usize, 750usize)), parse_pair::<usize>("1000x750", 'x'));
}

#[test]
fn parse_pair_signed_halves() {
    assert_eq!(Some((-3, 7)), parse_pair::<i32>("-3,7", ','));
    assert_eq!(Some((3, -7)), parse_pair::<i32>("+3,-7", ','));
}

#[test]
fn parse_pair_splits_at_first_separator() {
    assert_eq!(None, parse_pair::<i32>("1x2x3", 'x'));
    assert_eq!(Some(("1", "2x3")), split_pair("1x2x3", 'x'));
}

#[test]
fn parse_pair_rejects_bad_halves() {
    assert_eq!(None, parse_pair::<i32>("x200", 'x'));
    assert_eq!(None, parse_pair::<i32>("100x", 'x'));
    assert_eq!(None, parse_pair::<i32>("10 0x200", 'x'));
    assert_eq!(None, parse_pair::<i32>("100x2147483648", 'x'));
    assert_eq!(None, parse_pair::<usize>("-1x2", 'x'));
}

#[test]
fn split_complex_halves() {
    assert_eq!(Some(("500", "600")), split_pair("500,600", ','));
}

#[test]
fn split_complex_wrong_separator() {
    assert_eq!(None, split_pair("500x600", ','));
}
