use driver_indexer::console::ConsoleType;
use driver_indexer::index::{createIndex, index_anchor, IndexAnchor, Outcome};
use driver_indexer::inf::{ParseError, SourceFile};

fn file(path: &str, content: &str) -> SourceFile {
    SourceFile { path: path.to_string(), content: Some(content.as_bytes().to_vec()) }
}

fn unreadable(path: &str) -> SourceFile {
    SourceFile { path: path.to_string(), content: None }
}

fn net() -> SourceFile {
    file("/d/net/a.inf", "Class=Net\nProvider=%V%\n%A%=I,PCI\\VEN_1&DEV_2\nV=\"Vendor\"\n")
}

fn usb() -> SourceFile {
    file("/d/usb/b.inf", "Class=USB\n%A%=I,USB\\VID_1&PID_2\n%B%=I,USB\\VID_3&PID_4\n")
}

fn blank() -> SourceFile {
    file("/d/c.inf", "Class=System\nProvider=Nobody\n")
}

#[test]
fn every_file_is_told_apart_by_what_came_of_it() {
    let files = vec![
        net(),
        blank(),
        unreadable("/d/gone.inf"),
        usb(),
        file("/elsewhere/e.inf", "%A%=I,PCI\\VEN_9&DEV_9\n"),
        file("/d/f.inf", ""),
        file("/d/g.inf", "Class=Net\u{1b}\n%A%=I,PCI\\VEN_8&DEV_8\n"),
    ];
    let report = createIndex("/d", &files);
    assert_eq!(
        report.outcomes,
        vec![
            Outcome::Succeeded,
            Outcome::Blank,
            Outcome::Failed(ParseError::Io),
            Outcome::Succeeded,
            Outcome::Failed(ParseError::Path),
            Outcome::Blank,
            Outcome::Failed(ParseError::Decode),
        ]
    );
    assert_eq!(report.succeeded, 2);
    assert_eq!(report.failed, 3);
    assert_eq!(report.blank, 2);
    assert_eq!(report.succeeded + report.failed + report.blank, files.len());
    assert_eq!(report.records.len(), 2);
    assert_eq!(report.records[0].Path, "net");
    assert_eq!(report.records[0].Inf, "a.inf");
    assert_eq!(report.records[0].Class, "Net");
    assert_eq!(report.records[0].Provider, "Vendor");
    assert_eq!(report.records[0].DriverList, vec!["PCI\\VEN_1&DEV_2".to_string()]);
    assert_eq!(report.records[1].Path, "usb");
    assert_eq!(report.records[1].Inf, "b.inf");
    assert_eq!(
        report.records[1].DriverList,
        vec!["USB\\VID_1&PID_2".to_string(), "USB\\VID_3&PID_4".to_string()]
    );
}

#[test]
fn an_empty_tree_gives_an_empty_catalogue() {
    let report = createIndex("/d", &Vec::new());
    assert!(report.records.is_empty());
    assert!(report.outcomes.is_empty());
    assert_eq!((report.succeeded, report.failed, report.blank), (0, 0, 0));
}

#[test]
fn every_record_of_the_catalogue_has_an_identifier() {
    let report = createIndex("/d", &vec![blank(), net(), blank(), usb(), blank()]);
    assert_eq!(report.records.len(), 2);
    assert_eq!(report.blank, 3);
    assert!(report.records.iter().all(|r| !r.DriverList.is_empty()));
}

#[test]
fn a_file_that_fails_costs_one_failure_and_nothing_else() {
    let without = createIndex("/d", &vec![net(), blank(), usb()]);
    for at in 0..=3 {
        for bad in [unreadable("/d/bad.inf"), file("/d/bad.inf", "\u{1b}"), file("/x/bad.inf", "x")] {
            let mut files = vec![net(), blank(), usb()];
            files.insert(at, bad);
            let with = createIndex("/d", &files);
            assert_eq!(with.records, without.records);
            assert_eq!(with.failed, without.failed + 1);
            assert_eq!(with.succeeded, without.succeeded);
            assert_eq!(with.blank, without.blank);
            assert!(matches!(with.outcomes[at], Outcome::Failed(_)));
            let mut others = with.outcomes.clone();
            others.remove(at);
            assert_eq!(others, without.outcomes);
        }
    }
}

#[test]
fn outcomes_are_reported_at_their_levels() {
    assert_eq!(Outcome::Succeeded.report_level(), None);
    assert_eq!(Outcome::Blank.report_level(), Some(ConsoleType::Warning));
    assert_eq!(Outcome::Failed(ParseError::Io).report_level(), Some(ConsoleType::Error));
    assert_eq!(Outcome::Failed(ParseError::Decode).report_level(), Some(ConsoleType::Error));
    assert_eq!(Outcome::Failed(ParseError::Path).report_level(), Some(ConsoleType::Error));
}

#[test]
fn a_relative_catalogue_path_is_anchored_to_its_source() {
    assert_eq!(index_anchor(true, true), IndexAnchor::DriverTree);
    assert_eq!(index_anchor(false, true), IndexAnchor::ArchiveDirectory);
    assert_eq!(index_anchor(true, false), IndexAnchor::AsGiven);
    assert_eq!(index_anchor(false, false), IndexAnchor::AsGiven);
}

#[test]
fn the_titles_of_the_levels() {
    assert_eq!(ConsoleType::Info.title(), "Info   ");
    assert_eq!(ConsoleType::Success.title(), "Success");
    assert_eq!(ConsoleType::Warning.title(), "Warning");
    assert_eq!(ConsoleType::Error.title(), "Error  ");
}
