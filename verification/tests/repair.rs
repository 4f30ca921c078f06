use profiles_ini_repair::RepairError;
use profiles_ini_repair::lines::{join_lines, split_lines};
use profiles_ini_repair::locate::first_profile_path;
use profiles_ini_repair::normalize::normalize_default_markers;
use profiles_ini_repair::number::parse_u64;
use profiles_ini_repair::rewrite::write_profiles_ini;
use profiles_ini_repair::scan::{classify_line, is_header_line, SectionKind};

#[test]
fn one_profile() {
    let input = r#"[Install0123456789ABCDEF]
Default=abcdefgh.default
Locked=1

[Profile0]
Name=default
IsRelative=1
Path=abcdefgh.default
Default=1
"#;
    let output = write_profiles_ini(input).unwrap();
    assert_eq!(input, output);
}

#[test]
fn two_profiles_first_default() {
    let input = r#"[Install0123456789ABCDEF]
Default=abcdefgh.default
Locked=1

[Profile0]
Name=default
Path=abcdefgh.default
Default=1

[Profile1]
Name=other
Path=zyxwvuts.other
"#;
    let output = write_profiles_ini(input).unwrap();
    let expected = r#"[Install0123456789ABCDEF]
Default=abcdefgh.default
Locked=1

[Profile0]
Name=default
Path=abcdefgh.default
Default=1

[Profile1]
Name=other
Path=zyxwvuts.other
"#;
    assert_eq!(expected, output);
}

#[test]
fn two_profiles_second_default() {
    let input = r#"[Install0123456789ABCDEF]
Default=zyxwvuts.other
Locked=1

[Profile0]
Name=default
Path=abcdefgh.default

[Profile1]
Name=other
Path=zyxwvuts.other
# we don’t touch this line – it appears to have no effect
Default=1
"#;
    let output = write_profiles_ini(input).unwrap();
    let expected = r#"[Install0123456789ABCDEF]
Default=abcdefgh.default
Locked=1

[Profile0]
Name=default
Path=abcdefgh.default

[Profile1]
Name=other
Path=zyxwvuts.other
# we don’t touch this line – it appears to have no effect
Default=1
"#;
    assert_eq!(expected, output);
}

#[test]
fn rewrite_prefers_lower_profile_number() {
    let input = "[InstallCAFE]\nDefault=wrong\n[Profile0]\nPath=abcdefgh.default\n[Profile1]\nPath=zyxwvuts.other\n";
    let expected = "[InstallCAFE]\nDefault=abcdefgh.default\n[Profile0]\nPath=abcdefgh.default\n[Profile1]\nPath=zyxwvuts.other\n";
    assert_eq!(expected, write_profiles_ini(input).unwrap());
}

#[test]
fn rewrite_appends_missing_trailing_newline_only() {
    let input = "[InstallCAFE]\nDefault=old\n[Profile0]\nPath=p";
    let expected = "[InstallCAFE]\nDefault=p\n[Profile0]\nPath=p\n";
    assert_eq!(expected, write_profiles_ini(input).unwrap());
}

#[test]
fn rewrite_leaves_default_lines_outside_install_sections() {
    let input = "Default=loose\n[General]\nDefault=other\n[Profile0]\nPath=p\n[InstallX]\nDefault=old\n";
    let expected = "Default=loose\n[General]\nDefault=other\n[Profile0]\nPath=p\n[InstallX]\nDefault=p\n";
    assert_eq!(expected, write_profiles_ini(input).unwrap());
}

#[test]
fn rewrite_twice_equals_rewrite_once() {
    let input = "[InstallCAFE]\nDefault=wrong\n[Profile0]\nPath=abcdefgh.default\n[Profile1]\nPath=zyxwvuts.other\n";
    let once = write_profiles_ini(input).unwrap();
    let twice = write_profiles_ini(&once).unwrap();
    assert_eq!(once, twice);
}

#[test]
fn locator_picks_lowest_number_regardless_of_order() {
    let input = "[Profile5]\nPath=five\n[Profile0]\nPath=zero\n[Profile3]\nPath=three\n";
    assert_eq!("zero", first_profile_path(input).unwrap());
}

#[test]
fn locator_takes_first_path_line_of_winning_section() {
    let input = "[Profile0]\nPath=first\nPath=second\n";
    assert_eq!("first", first_profile_path(input).unwrap());
}

#[test]
fn locator_stops_capturing_at_next_header() {
    let input = "[Profile0]\nName=a\n[Profile1]\nPath=elsewhere\n";
    assert_eq!(
        RepairError::NoPathInProfile,
        first_profile_path(input).unwrap_err()
    );
}

#[test]
fn locator_rejects_non_numeric_profile_suffix() {
    let input = "[ProfileX]\nPath=p\n";
    assert_eq!(
        RepairError::MalformedProfileNumber,
        first_profile_path(input).unwrap_err()
    );
    assert_eq!(
        RepairError::MalformedProfileNumber,
        write_profiles_ini(input).unwrap_err()
    );
}

#[test]
fn malformed_header_after_valid_winner_still_fails() {
    let input = "[Profile0]\nPath=p\n[ProfileX]\nPath=q\n";
    assert_eq!(
        RepairError::MalformedProfileNumber,
        first_profile_path(input).unwrap_err()
    );
}

#[test]
fn locator_rejects_empty_profile_suffix() {
    let input = "[Profile]\nPath=p\n";
    assert_eq!(
        RepairError::MalformedProfileNumber,
        first_profile_path(input).unwrap_err()
    );
}

#[test]
fn locator_rejects_oversized_profile_number() {
    let input = "[Profile99999999999999999999]\nPath=p\n";
    assert_eq!(
        RepairError::MalformedProfileNumber,
        first_profile_path(input).unwrap_err()
    );
}

#[test]
fn locator_reports_missing_profile_section() {
    assert_eq!(
        RepairError::NoProfileSection,
        first_profile_path("[General]\nkey=1\n").unwrap_err()
    );
    assert_eq!(
        RepairError::NoProfileSection,
        first_profile_path("").unwrap_err()
    );
    assert_eq!(
        RepairError::NoProfileSection,
        write_profiles_ini("[General]\nx=1\n").unwrap_err()
    );
}

#[test]
fn header_without_closing_bracket_is_not_a_profile() {
    let input = "[Profile0oops\nPath=p\n";
    assert_eq!(
        RepairError::NoProfileSection,
        first_profile_path(input).unwrap_err()
    );
}

#[test]
fn normalize_appends_marker_when_missing() {
    let input = "[Profile0]\nPath=abcdefgh.default\n";
    let expected = "[Profile0]\nPath=abcdefgh.default\nDefault=1\n";
    assert_eq!(expected, normalize_default_markers(input));
}

#[test]
fn normalize_relocates_early_marker_to_section_end() {
    let input = "[Profile0]\nDefault=1\nName=default\nPath=p\n[General]\nVersion=2\n";
    let expected = "[Profile0]\nName=default\nPath=p\nDefault=1\n[General]\nVersion=2\n";
    assert_eq!(expected, normalize_default_markers(input));
}

#[test]
fn normalize_collapses_repeated_markers() {
    let input = "[Profile0]\nDefault=1\nName=a\nDefault=1\nPath=p\nDefault=1\n";
    let expected = "[Profile0]\nName=a\nPath=p\nDefault=1\n";
    assert_eq!(expected, normalize_default_markers(input));
}

#[test]
fn normalize_keeps_already_normalized_input() {
    let input = "[Profile0]\nName=a\nDefault=1\n[Profile1]\nPath=q\nDefault=1\n";
    assert_eq!(input, normalize_default_markers(input));
}

#[test]
fn normalize_is_idempotent_on_messy_input() {
    let input = "Stray=1\n[Profile0]\nDefault=1\nPath=p\nDefault=1\n[Other]\nDefault=1\n[Profile2]\nName=n\n";
    let once = normalize_default_markers(input);
    let twice = normalize_default_markers(&once);
    assert_eq!(once, twice);
}

#[test]
fn normalize_leaves_markers_outside_profile_sections() {
    let input = "Default=1\n[General]\nDefault=1\n";
    assert_eq!(input, normalize_default_markers(input));
}

#[test]
fn classifier_tracks_section_kinds() {
    let k = classify_line("[Install0123]", SectionKind::Preamble);
    assert_eq!(SectionKind::Install, k);
    let k = classify_line("Default=x", k);
    assert_eq!(SectionKind::Install, k);
    let k = classify_line("[Profile0]", k);
    assert_eq!(SectionKind::Profile, k);
    let k = classify_line("[General]", k);
    assert_eq!(SectionKind::Other, k);
    let k = classify_line("data", SectionKind::Preamble);
    assert_eq!(SectionKind::Preamble, k);
    assert!(is_header_line("[x]"));
    assert!(!is_header_line("x"));
    assert!(!is_header_line(""));
}

#[test]
fn parse_accepts_plain_decimals_only() {
    assert_eq!(Some(0), parse_u64("0"));
    assert_eq!(Some(7), parse_u64("007"));
    assert_eq!(Some(18446744073709551615), parse_u64("18446744073709551615"));
    assert_eq!(None, parse_u64(""));
    assert_eq!(None, parse_u64("12a"));
    assert_eq!(None, parse_u64("-1"));
    assert_eq!(None, parse_u64("18446744073709551616"));
}

#[test]
fn split_and_join_lines_round_trip() {
    let lines = split_lines("a\nb");
    assert_eq!(vec!["a".to_string(), "b".to_string()], lines);
    assert_eq!("a\nb\n", join_lines(&lines));
    assert_eq!(Vec::<String>::new(), split_lines(""));
    assert_eq!(vec!["".to_string()], split_lines("\n"));
    assert_eq!(vec!["a".to_string(), "".to_string()], split_lines("a\n\n"));
}
