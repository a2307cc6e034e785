use driver_indexer::location::locate;
use driver_indexer::text::{chars_of, string_of};

fn place(base: &str, file: &str) -> Option<(String, String)> {
    locate(&chars_of(base), &chars_of(file)).map(|(dir, name)| (string_of(&dir), string_of(&name)))
}

fn found(dir: &str, name: &str) -> Option<(String, String)> {
    Some((dir.to_string(), name.to_string()))
}

#[test]
fn a_file_below_the_root() {
    assert_eq!(place("C:\\drivers", "C:\\drivers\\net\\intel\\e1000.inf"), found("net\\intel", "e1000.inf"));
    assert_eq!(place("/srv/drivers", "/srv/drivers/net/e1000.inf"), found("net", "e1000.inf"));
}

#[test]
fn a_file_directly_in_the_root() {
    assert_eq!(place("C:\\drivers", "C:\\drivers\\e1000.inf"), found("", "e1000.inf"));
    assert_eq!(place("/srv/drivers", "/srv/drivers/e1000.inf"), found("", "e1000.inf"));
}

#[test]
fn a_root_that_ends_with_a_separator() {
    assert_eq!(place("C:\\drivers\\", "C:\\drivers\\net\\e1000.inf"), found("net", "e1000.inf"));
    assert_eq!(place("/", "/net/e1000.inf"), found("net", "e1000.inf"));
}

#[test]
fn an_empty_root_takes_the_whole_path() {
    assert_eq!(place("", "net/intel/e1000.inf"), found("net/intel", "e1000.inf"));
    assert_eq!(place("", "e1000.inf"), found("", "e1000.inf"));
}

#[test]
fn both_separators_are_understood() {
    assert_eq!(place("C:/drivers", "C:/drivers\\net/intel\\e1000.inf"), found("net/intel", "e1000.inf"));
}

#[test]
fn repeated_separators_count_as_one() {
    assert_eq!(place("/srv", "/srv//net//e1000.inf"), found("net", "e1000.inf"));
}

#[test]
fn a_file_outside_the_root_has_no_place() {
    assert_eq!(place("C:\\drivers", "D:\\drivers\\e1000.inf"), None);
    assert_eq!(place("/srv/drivers", "/srv/other/e1000.inf"), None);
    assert_eq!(place("/srv/drivers/net", "/srv/drivers/e1000.inf"), None);
}

#[test]
fn a_root_must_end_where_a_name_ends() {
    assert_eq!(place("C:\\dri", "C:\\drivers\\e1000.inf"), None);
    assert_eq!(place("/srv/drivers", "/srv/drivers2/e1000.inf"), None);
}

#[test]
fn a_path_that_names_no_file_has_no_place() {
    assert_eq!(place("/srv/drivers", "/srv/drivers"), None);
    assert_eq!(place("/srv/drivers", "/srv/drivers/"), None);
    assert_eq!(place("/srv/drivers", "/srv/drivers/net/"), None);
    assert_eq!(place("", ""), None);
}

#[test]
fn the_letter_case_of_the_root_counts() {
    assert_eq!(place("C:\\Drivers", "C:\\drivers\\e1000.inf"), None);
}
