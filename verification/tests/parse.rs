use save_parser::config::Config;
use save_parser::numbers::{parse_scaled, render_scaled, ParseError};
use save_parser::province::Province;
use save_parser::scanner::parse_save;

fn lines(strs: &[&str]) -> Vec<Vec<u8>> {
    strs.iter().map(|s| s.as_bytes().to_vec()).collect()
}

#[test]
fn two_provinces_same_owner() {
    let input = lines(&[
        "-100={",
        "\t\tvariables={",
        "\t\towner=\"FRA\"",
        "\t\t\trural_population=2.0",
        "\t\t\turban_population=1.0",
        "\t\tinstitutions={",
        "-101={",
        "\t\tvariables={",
        "\t\towner=\"FRA\"",
        "\t\t\trural_population=3.0",
        "\t\tinstitutions={",
    ]);
    let map = parse_save(&input).unwrap();
    assert_eq!(map.len(), 1);
    let c = map.get(b"FRA").unwrap();
    assert_eq!(c.tag, b"FRA".to_vec());
    assert_eq!(c.total_rural_pop, 50000);
    assert_eq!(c.total_urban_pop, 10000);
    assert_eq!(c.provinces.len(), 2);
    assert_eq!(c.provinces[0].rural_pop, 20000);
    assert_eq!(c.provinces[0].urban_pop, 10000);
    assert_eq!(c.provinces[1].rural_pop, 30000);
    assert_eq!(c.provinces[1].urban_pop, 0);
}

#[test]
fn population_scaling_one_and_a_half() {
    let mut p = Province::new();
    Province::adjust_rural_pop(b"1.5", &mut p).unwrap();
    assert_eq!(p.rural_pop, 15000);
}

#[test]
fn population_scaling_truncates_toward_zero() {
    let mut p = Province::new();
    Province::adjust_rural_pop(b"1.23456", &mut p).unwrap();
    assert_eq!(p.rural_pop, 12345);
    Province::adjust_rural_pop(b"0.00009", &mut p).unwrap();
    assert_eq!(p.rural_pop, 12345);
    Province::adjust_urban_pop(b"-0.5", &mut p).unwrap();
    assert_eq!(p.urban_pop, -5000);
}

#[test]
fn growing_keys_accumulate_too() {
    let input = lines(&[
        "-1={",
        "\t\tvariables={",
        "\t\towner=\"SWE\"",
        "\t\t\trural_population=1.0",
        "\t\t\trural_population_growing=0.25",
        "\t\t\turban_population_growing=0.5",
        "\t\tinstitutions={",
    ]);
    let map = parse_save(&input).unwrap();
    let c = map.get(b"SWE").unwrap();
    assert_eq!(c.total_rural_pop, 12500);
    assert_eq!(c.total_urban_pop, 5000);
}

#[test]
fn wealth_growth_is_exact() {
    let input = lines(&[
        "-1={",
        "\t\tvariables={",
        "\t\towner=\"MNG\"",
        "\t\t\twealth_total_growth=0.5",
        "\t\t\twealth_urban_growth=-0.25",
        "\t\tinstitutions={",
    ]);
    let map = parse_save(&input).unwrap();
    let c = map.get(b"MNG").unwrap();
    assert_eq!(c.total_wealth_growth, 50000);
    assert_eq!(c.total_urban_wealth_growth, -25000);
}

#[test]
fn name_and_owner_quotes_stripped() {
    let input = lines(&[
        "-1={",
        "\t\tvariables={",
        "\t\tname=\"Paris\"",
        "\t\towner=\"FRA\"",
        "\t\tinstitutions={",
    ]);
    let map = parse_save(&input).unwrap();
    let c = map.get(b"FRA").unwrap();
    assert_eq!(c.provinces[0].name, b"Paris".to_vec());
    assert_eq!(c.provinces[0].owner, b"FRA".to_vec());
}

#[test]
fn terminal_marker_stops_scan() {
    let input = lines(&[
        "-100={",
        "\t\tvariables={",
        "\t\towner=\"FRA\"",
        "\t\t\trural_population=1.0",
        "\t\tinstitutions={",
        "-5510",
        "-200={",
        "\t\tvariables={",
        "\t\towner=\"SWE\"",
        "\t\t\trural_population=4.0",
        "\t\tinstitutions={",
    ]);
    let map = parse_save(&input).unwrap();
    assert_eq!(map.len(), 1);
    let c = map.get(b"FRA").unwrap();
    assert_eq!(c.total_rural_pop, 10000);
    assert!(map.get(b"SWE").is_none());
}

#[test]
fn exit_keys_end_block_after_unknown_keys() {
    let input = lines(&[
        "-1={",
        "\t\tvariables={",
        "\t\towner=\"FRA\"",
        "\t\tsomething_unknown=7",
        "\t\thistory={",
        "\t\t\trural_population=9.0",
    ]);
    let map = parse_save(&input).unwrap();
    let c = map.get(b"FRA").unwrap();
    // The line after the exit key is outside the block and is ignored.
    assert_eq!(c.total_rural_pop, 0);
}

#[test]
fn sentinel_owner_never_attributed() {
    let input = lines(&[
        "-1={",
        "\t\tvariables={",
        "\t\t\trural_population=2.0",
        "\t\tinstitutions={",
    ]);
    let map = parse_save(&input).unwrap();
    assert_eq!(map.len(), 0);
}

#[test]
fn malformed_number_is_fatal() {
    let input = lines(&["-1={", "\t\tvariables={", "\t\t\trural_population=abc"]);
    match parse_save(&input) {
        Err(e) => assert_eq!(e, ParseError::InvalidNumber),
        Ok(_) => panic!("expected a number-format error"),
    }
}

#[test]
fn huge_number_overflows() {
    let input = lines(&[
        "-1={",
        "\t\tvariables={",
        "\t\t\trural_population=99999999999999999999999",
    ]);
    match parse_save(&input) {
        Err(e) => assert_eq!(e, ParseError::Overflow),
        Ok(_) => panic!("expected an overflow error"),
    }
}

#[test]
fn noise_lines_are_ignored() {
    let input = lines(&[
        "header",
        "-1={",
        "\t\tvariables={",
        "\t\towner=\"FRA\"",
        "   =  ",
        "\t\t\trural_population=1.0",
        "\t\tinstitutions={",
        "trailing text",
    ]);
    let map = parse_save(&input).unwrap();
    assert_eq!(map.get(b"FRA").unwrap().total_rural_pop, 10000);
}

#[test]
fn empty_input_gives_empty_map() {
    let input: Vec<Vec<u8>> = Vec::new();
    let map = parse_save(&input).unwrap();
    assert_eq!(map.len(), 0);
}

#[test]
fn config_requires_filename() {
    let args: Vec<String> = vec!["prog".to_string()];
    assert!(Config::new(&args).is_err());
}

#[test]
fn config_defaults_output() {
    let args: Vec<String> = vec!["prog".to_string(), "save.txt".to_string()];
    let c = Config::new(&args).unwrap();
    assert_eq!(c.filename, "save.txt");
    assert_eq!(c.output_file, "output.json");
}

#[test]
fn config_takes_output() {
    let args: Vec<String> =
        vec!["prog".to_string(), "save.txt".to_string(), "out.json".to_string()];
    let c = Config::new(&args).unwrap();
    assert_eq!(c.output_file, "out.json");
}

#[test]
fn value_text_round_trips() {
    for &v in &[0i64, 1, -1, 15000, -15000, 123456789, i64::MAX, i64::MIN] {
        let txt = render_scaled(v, 4);
        let back = parse_scaled(&txt, 4);
        if v == i64::MIN {
            // The magnitude of this one value exceeds the symmetric stored range.
            assert_eq!(back, Err(ParseError::Overflow));
        } else {
            assert_eq!(back, Ok(v));
        }
    }
}

#[test]
fn rendered_text_is_canonical() {
    assert_eq!(render_scaled(15000, 4), b"1.5000".to_vec());
    assert_eq!(render_scaled(-5000, 4), b"-0.5000".to_vec());
    assert_eq!(render_scaled(7, 0), b"7".to_vec());
    assert_eq!(render_scaled(50000, 5), b"0.50000".to_vec());
}

#[test]
fn interleaved_owners_keep_order() {
    let input = lines(&[
        "-1={",
        "\t\tvariables={",
        "\t\tname=\"A\"",
        "\t\towner=\"FRA\"",
        "\t\tinstitutions={",
        "-2={",
        "\t\tvariables={",
        "\t\tname=\"B\"",
        "\t\towner=\"SWE\"",
        "\t\tinstitutions={",
        "-3={",
        "\t\tvariables={",
        "\t\tname=\"C\"",
        "\t\towner=\"FRA\"",
        "\t\tinstitutions={",
    ]);
    let map = parse_save(&input).unwrap();
    assert_eq!(map.len(), 2);
    // Countries appear in order of first appearance.
    assert_eq!(map.countries[0].tag, b"FRA".to_vec());
    assert_eq!(map.countries[1].tag, b"SWE".to_vec());
    let fra = map.get(b"FRA").unwrap();
    assert_eq!(fra.provinces.len(), 2);
    assert_eq!(fra.provinces[0].name, b"A".to_vec());
    assert_eq!(fra.provinces[1].name, b"C".to_vec());
    assert_eq!(map.get(b"SWE").unwrap().provinces[0].name, b"B".to_vec());
}

#[test]
fn interior_quotes_are_kept() {
    let input = lines(&[
        "-1={",
        "\t\tvariables={",
        "\t\tname=a\"b",
        "\t\tname=\"x\"y\"",
        "\t\towner=\"FRA\"",
        "\t\tinstitutions={",
    ]);
    let map = parse_save(&input).unwrap();
    let c = map.get(b"FRA").unwrap();
    // Only the surrounding quotes go; the interior one stays.  The second
    // name line overwrote the first.
    assert_eq!(c.provinces[0].name, b"x\"y".to_vec());
    let mut p = save_parser::Province::new();
    save_parser::Province::set_name(b"a\"b", &mut p);
    assert_eq!(p.name, b"a\"b".to_vec());
}

#[test]
fn leading_plus_sign_accepted() {
    let mut p = Province::new();
    Province::adjust_rural_pop(b"+0.5", &mut p).unwrap();
    assert_eq!(p.rural_pop, 5000);
    assert_eq!(parse_scaled(b"+", 4), Err(ParseError::InvalidNumber));
    assert_eq!(parse_scaled(b"1e-05", 4), Err(ParseError::InvalidNumber));
}
