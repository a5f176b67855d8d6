use overviewer::region_name::{parse_i64, parse_region_name};

#[test]
fn region_names_parse() {
    assert_eq!(parse_region_name("r.0.0.mca"), Some((0, 0)));
    assert_eq!(parse_region_name("r.-1.12.mca"), Some((-1, 12)));
    assert_eq!(parse_region_name("r.+3.-0.mca"), Some((3, 0)));
    assert_eq!(
        parse_region_name("r.9223372036854775807.-9223372036854775808.mca"),
        Some((i64::MAX, i64::MIN))
    );
}

#[test]
fn other_names_do_not_parse() {
    for n in [
        "r.0.0.mcr",
        "r.0.mca",
        "r.0.0.0.mca",
        "r..0.mca",
        "r.0..mca",
        "r.-.0.mca",
        "r.a.0.mca",
        "x.0.0.mca",
        "r.0.0.mca.bak",
        "r.9223372036854775808.0.mca",
        "r.1 .0.mca",
        "",
        "r.mca",
        "r..mca",
    ] {
        assert_eq!(parse_region_name(n), None, "{}", n);
    }
}

#[test]
fn numerals_parse_within_range() {
    assert_eq!(parse_i64("x-42y", 1, 4), Some(-42));
    assert_eq!(parse_i64("007", 0, 3), Some(7));
    assert_eq!(parse_i64("+", 0, 1), None);
    assert_eq!(parse_i64("", 0, 0), None);
    assert_eq!(parse_i64("-9223372036854775809", 0, 20), None);
    assert_eq!(parse_i64("99999999999999999999999", 0, 23), None);
}
