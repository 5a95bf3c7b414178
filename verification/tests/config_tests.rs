use clonehunter::config::{
    Args, Command, ConfigError, Delete, DeleteOptions, HunterOptions, OrderBy, OutputStyle,
    SizeBounds, SortBy, SortOrder, parse_size_checked, resolve_size_bounds, trim_newline,
    validate_output_options, validate_sort_order,
};

fn hunter_options() -> HunterOptions {
    HunterOptions {
        source_dir: String::from("/tmp/data"),
        max_depth: 10,
        no_max_depth: false,
        checksum: false,
        extension: None,
        sort_by: SortBy::FileType,
        order_by: None,
        max: None,
        min: None,
        output_style: None,
        output_file: None,
    }
}

#[test]
fn sort_by_file_type_rejects_order() {
    let s = SortOrder(SortBy::FileType, Some(OrderBy::Asc));
    assert_eq!(validate_sort_order(&s), Err(ConfigError::OrderByNotAllowed));
    let s = SortOrder(SortBy::FileType, Some(OrderBy::Desc));
    assert_eq!(validate_sort_order(&s), Err(ConfigError::OrderByNotAllowed));
}

#[test]
fn sort_by_file_type_without_order_is_valid() {
    let s = SortOrder(SortBy::FileType, None);
    assert_eq!(validate_sort_order(&s), Ok(()));
}

#[test]
fn size_sorts_require_an_order() {
    assert_eq!(
        validate_sort_order(&SortOrder(SortBy::FileSize, None)),
        Err(ConfigError::OrderByRequired)
    );
    assert_eq!(
        validate_sort_order(&SortOrder(SortBy::Both, None)),
        Err(ConfigError::OrderByRequired)
    );
    assert_eq!(validate_sort_order(&SortOrder(SortBy::FileSize, Some(OrderBy::Asc))), Ok(()));
    assert_eq!(validate_sort_order(&SortOrder(SortBy::Both, Some(OrderBy::Desc))), Ok(()));
}

#[test]
fn min_and_max_together_are_rejected() {
    let r = resolve_size_bounds(&Some(String::from("10")), &Some(String::from("20")));
    assert!(matches!(r, Err(ConfigError::MinWithMax)));
}

#[test]
fn unit_suffixed_sizes_parse() {
    assert_eq!(parse_size_checked("150 KiB"), Some(153600));
    assert_eq!(parse_size_checked("2048"), Some(2048));
    assert_eq!(parse_size_checked("^_^"), None);
}

#[test]
fn sizes_with_too_many_digits_give_no_bound() {
    assert_eq!(parse_size_checked("9999999999999999999"), Some(9999999999999999999));
    assert_eq!(parse_size_checked("18446744073709551615"), None);
    assert_eq!(parse_size_checked("184467440737095516155"), None);
    assert_eq!(parse_size_checked("18446744073709551615.5"), None);
    let r = resolve_size_bounds(&Some(String::from("184467440737095516155")), &None).unwrap();
    assert_eq!(r.min_file_size, None);
}

#[test]
fn console_answers_lose_their_line_ending() {
    assert_eq!(trim_newline("Y\n"), "Y");
    assert_eq!(trim_newline("Y\r\n"), "Y");
    assert_eq!(trim_newline("Y"), "Y");
    assert_eq!(trim_newline(""), "");
    assert_eq!(trim_newline("\n"), "");
}

#[test]
fn bounds_resolve_from_their_options() {
    let r = resolve_size_bounds(&Some(String::from("1 KiB")), &None).unwrap();
    assert_eq!(r.min_file_size, Some(1024));
    assert_eq!(r.max_file_size, None);
    let r = resolve_size_bounds(&None, &Some(String::from("2 KiB"))).unwrap();
    assert_eq!(r.min_file_size, None);
    assert_eq!(r.max_file_size, Some(2048));
    let r: SizeBounds = resolve_size_bounds(&None, &None).unwrap();
    assert_eq!(r.min_file_size, None);
    assert_eq!(r.max_file_size, None);
}

#[test]
fn output_options_come_in_pairs() {
    assert_eq!(
        validate_output_options(&Some(OutputStyle::JSON), &None),
        Err(ConfigError::OutputStyleWithoutFile)
    );
    assert_eq!(
        validate_output_options(&None, &Some(String::from("out.json"))),
        Err(ConfigError::OutputFileWithoutStyle)
    );
    assert_eq!(
        validate_output_options(&Some(OutputStyle::Default), &Some(String::from("o.txt"))),
        Ok(())
    );
    assert_eq!(validate_output_options(&None, &None), Ok(()));
}

#[test]
fn labels_match_variants() {
    assert_eq!(OrderBy::Asc.label(), "Asc");
    assert_eq!(OrderBy::Desc.label(), "Desc");
    assert_eq!(OutputStyle::Default.label(), "Default");
    assert_eq!(OutputStyle::JSON.label(), "JSON");
}

#[test]
fn command_line_shapes_construct() {
    let args = Args { command: Command::Hunt(hunter_options()), threads: 8, verbose: false };
    assert_eq!(args.threads, 8);
    let del = Args {
        command: Command::Delete(DeleteOptions {
            input_file: String::from("report.json"),
            dry_run: true,
        }),
        threads: 1,
        verbose: true,
    };
    match del.command {
        Command::Delete(o) => assert!(o.dry_run),
        Command::Hunt(_) => panic!("wrong command"),
    }
    let _marker = Delete {};
}
