use smart_extract::listing::{count_root_entries, probe_listing};
use smart_extract::policy::{decide_extraction, destination_for, file_stem, Root};

#[test]
fn mixed_separators_leave_single_root() {
    let output = b"Path = a\nPath = b/c\nPath = d\\e\n";
    assert_eq!(count_root_entries(output), 1);
    assert_eq!(probe_listing(output), Root::Single);
    assert_eq!(
        decide_extraction(output, b"x.zip"),
        Some(b"./".to_vec())
    );
}

#[test]
fn no_path_lines_no_extraction() {
    let output = b"Listing archive: x.zip\nType = zip\nSolid = -\n";
    assert_eq!(count_root_entries(output), 0);
    assert_eq!(probe_listing(output), Root::Zero);
    assert_eq!(decide_extraction(output, b"x.zip"), None);
}

#[test]
fn bundle_with_two_roots_extracts_into_stem() {
    let output = b"Path = one\nPath = two\n";
    assert_eq!(probe_listing(output), Root::Multiple);
    assert_eq!(
        decide_extraction(output, b"bundle.zip"),
        Some(b"bundle".to_vec())
    );
}

#[test]
fn empty_output_counts_zero() {
    assert_eq!(count_root_entries(b""), 0);
    assert_eq!(probe_listing(b""), Root::Zero);
}

#[test]
fn carriage_returns_are_stripped_before_counting() {
    assert_eq!(count_root_entries(b"Path = a\r\nPath = b\r\n"), 2);
}

#[test]
fn marker_must_begin_the_line_exactly() {
    assert_eq!(count_root_entries(b" Path = a\nPath =a\npath = b\nPath=c\n"), 0);
}

#[test]
fn empty_value_counts_as_root_entry() {
    assert_eq!(count_root_entries(b"Path = \n"), 1);
}

#[test]
fn last_line_without_newline_is_counted() {
    assert_eq!(count_root_entries(b"Path = last"), 1);
}

#[test]
fn nested_entries_alone_mean_zero_roots() {
    let output = b"Path = a/b\nPath = c\\d\n";
    assert_eq!(count_root_entries(output), 0);
    assert_eq!(decide_extraction(output, b"x.zip"), None);
}

#[test]
fn counts_classify_into_three_categories() {
    assert_eq!(probe_listing(b"Path = a\n"), Root::Single);
    assert_eq!(probe_listing(b"Path = a\nPath = b\n"), Root::Multiple);
    assert_eq!(
        probe_listing(b"Path = a\nPath = b\nPath = c\nPath = d\n"),
        Root::Multiple
    );
}

#[test]
fn file_stem_strips_final_extension_only() {
    assert_eq!(file_stem(b"bundle.zip"), b"bundle".to_vec());
    assert_eq!(file_stem(b"archive.tar.gz"), b"archive.tar".to_vec());
}

#[test]
fn file_stem_keeps_dotless_name() {
    assert_eq!(file_stem(b"noext"), b"noext".to_vec());
}

#[test]
fn file_stem_keeps_dotfile_name_whole() {
    assert_eq!(file_stem(b".hidden"), b".hidden".to_vec());
    assert_eq!(file_stem(b".a.b"), b".a".to_vec());
}

#[test]
fn file_stem_drops_bare_trailing_dot() {
    assert_eq!(file_stem(b"a."), b"a".to_vec());
}

#[test]
fn zero_roots_get_no_destination() {
    assert_eq!(destination_for(Root::Zero, b"x.zip"), None);
}

#[test]
fn single_root_destination_ignores_the_name() {
    assert_eq!(destination_for(Root::Single, b"alpha.zip"), Some(b"./".to_vec()));
    assert_eq!(destination_for(Root::Single, b"beta.tar"), Some(b"./".to_vec()));
}

#[test]
fn multiple_roots_destination_is_the_stem() {
    assert_eq!(destination_for(Root::Multiple, b"bundle.zip"), Some(b"bundle".to_vec()));
}
