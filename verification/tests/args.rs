use lib::args::parse_args;

fn args(v: &[&str]) -> Vec<String> {
    v.iter().map(|s| s.to_string()).collect()
}

#[test]
fn reads_counts_in_ascending_order() {
    // As in the benchmark: `prog 8 500` gives 8 threads and 500 loops.
    let a = args(&["prog", "8", "500"]);
    let mut consumed = 0;
    assert_eq!(parse_args(&a, &mut consumed, 1, 4), 8);
    assert_eq!(consumed, 2);
    assert_eq!(parse_args(&a, &mut consumed, 2, 1000000), 500);
    assert_eq!(consumed, 3);
}

#[test]
fn missing_argument_gives_default() {
    let a = args(&["prog"]);
    let mut consumed = 0;
    assert_eq!(parse_args(&a, &mut consumed, 1, 4), 4);
    assert_eq!(consumed, 1);
    assert_eq!(parse_args(&a, &mut consumed, 2, 1000000), 1000000);
    assert_eq!(consumed, 1);
}

#[test]
fn argument_read_already_gives_default() {
    let a = args(&["prog", "8", "500"]);
    let mut consumed = 0;
    assert_eq!(parse_args(&a, &mut consumed, 2, 1000000), 500);
    assert_eq!(parse_args(&a, &mut consumed, 1, 4), 4);
    assert_eq!(consumed, 3);
}

#[test]
fn malformed_argument_gives_default() {
    let a = args(&["prog", "-3", "+7", "12a", "", "99999999999999999999999"]);
    let mut consumed = 0;
    assert_eq!(parse_args(&a, &mut consumed, 1, 4), 4);
    assert_eq!(parse_args(&a, &mut consumed, 2, 4), 7);
    assert_eq!(parse_args(&a, &mut consumed, 3, 4), 4);
    assert_eq!(parse_args(&a, &mut consumed, 4, 4), 4);
    assert_eq!(parse_args(&a, &mut consumed, 5, 4), 4);
    assert_eq!(consumed, 6);
}
