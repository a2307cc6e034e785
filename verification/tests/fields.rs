use driver_indexer::fields::{clean_provider, read_item, read_provider, split_driver_ver};
use driver_indexer::text::{chars_of, string_of};

fn clean(s: &str) -> String {
    string_of(&clean_provider(&chars_of(s)))
}

fn provider(text: &str) -> String {
    read_provider(&chars_of(text))
}

#[test]
fn read_item_gives_the_value_up_to_white_space() {
    let text = "[Version]\r\nClass=Net\r\nClassGuid={4d36e972}\r\nDriverVer=10/01/2020,3.1.2\r\n";
    assert_eq!(read_item(text, "Class"), "Net");
    assert_eq!(read_item(text, "ClassGuid"), "{4d36e972}");
    assert_eq!(read_item(text, "DriverVer"), "10/01/2020,3.1.2");
}

#[test]
fn read_item_takes_the_first_entry() {
    assert_eq!(read_item("Class=Net\nClass=Display\n", "Class"), "Net");
}

#[test]
fn read_item_gives_an_empty_value_for_a_missing_entry() {
    assert_eq!(read_item("[Version]\nSignature=x\n", "Class"), "");
    assert_eq!(read_item("", "DriverVer"), "");
    assert_eq!(read_item("class=Net\n", "Class"), "");
}

#[test]
fn read_item_gives_an_empty_value_for_an_empty_entry() {
    assert_eq!(read_item("Class=\nProvider=x\n", "Class"), "");
    assert_eq!(read_item("Class=", "Class"), "");
}

#[test]
fn read_item_finds_the_name_inside_a_longer_one() {
    assert_eq!(read_item("SetupClass=Base\nClass=Net\n", "Class"), "Base");
}

#[test]
fn read_item_gives_all_that_follows_the_key() {
    assert_eq!(read_item("Class=aClass=b\n", "Class"), "aClass=b");
    assert_eq!(read_item("DriverVer=DriverVer=1\n", "DriverVer"), "DriverVer=1");
    assert_eq!(read_item("Class=a=b;c,d\u{a0}e\n", "Class"), "a=b;c,d");
}

#[test]
fn driver_ver_with_date_and_version() {
    let text = "DriverVer=10/01/2020,3.1.2\n";
    let (date, version) = split_driver_ver(&read_item(text, "DriverVer"));
    assert_eq!(date, "10/01/2020");
    assert_eq!(version, "3.1.2");
}

#[test]
fn driver_ver_with_a_date_alone() {
    let text = "DriverVer=10/01/2020\n";
    let (date, version) = split_driver_ver(&read_item(text, "DriverVer"));
    assert_eq!(date, "10/01/2020");
    assert_eq!(version, "");
}

#[test]
fn split_driver_ver_takes_the_first_two_parts() {
    assert_eq!(split_driver_ver("a,b,c"), ("a".to_string(), "b".to_string()));
    assert_eq!(split_driver_ver(",b"), ("".to_string(), "b".to_string()));
    assert_eq!(split_driver_ver("a,"), ("a".to_string(), "".to_string()));
    assert_eq!(split_driver_ver(","), ("".to_string(), "".to_string()));
    assert_eq!(split_driver_ver(""), ("".to_string(), "".to_string()));
    assert_eq!(split_driver_ver("a,,c"), ("a".to_string(), "".to_string()));
}

#[test]
fn cleaning_takes_out_each_decoration() {
    assert_eq!(clean("Acme\r"), "Acme");
    assert_eq!(clean("\"Acme\""), "Acme");
    assert_eq!(clean("AcmeCorporation"), "Acme");
    assert_eq!(clean("AcmeSemiconductorCorp."), "Acme");
    assert_eq!(clean("AcmeTechnologyCorp."), "Acme");
    assert_eq!(clean("Acme,Inc."), "Acme");
    assert_eq!(clean("Acme\u{ae}"), "Acme");
    assert_eq!(clean("Acme(R)"), "Acme");
}

#[test]
fn cleaning_takes_out_several_decorations_at_once() {
    assert_eq!(clean("\"Intel(R)Corporation\"\r"), "Intel");
    assert_eq!(clean("\"Realtek\u{ae}SemiconductorCorp.\""), "Realtek");
}

#[test]
fn cleaning_leaves_a_plain_name() {
    assert_eq!(clean("Acme"), "Acme");
    assert_eq!(clean(""), "");
    assert_eq!(clean("corporation"), "corporation");
    assert_eq!(clean("Acme Inc."), "Acme Inc.");
}

#[test]
fn cleaning_a_cleaned_name_changes_nothing() {
    for name in [
        "\"Intel(R)Corporation\"",
        "Acme,Inc.",
        "Realtek\u{ae}SemiconductorCorp.",
        "Plain",
        "CorpCorporationoration",
        "AcmeCorpo(R)ration",
        ",I(R)nc.",
        "(R(R(R)))\"\r",
        "",
    ] {
        let once = clean(name);
        assert_eq!(clean(&once), once, "for {:?}", name);
    }
}

#[test]
fn cleaning_leaves_no_decoration_behind() {
    assert_eq!(clean("CorpCorporationoration"), "");
    assert_eq!(clean("AcmeCorpo(R)ration"), "Acme");
    assert_eq!(clean(",I(R)nc."), "");
    assert_eq!(clean("Acme,I(R)nc."), "Acme");
    assert_eq!(clean("Acme(R(R))"), "Acme");
    assert_eq!(clean("Acme(\"R)"), "Acme");
    assert_eq!(clean("Acme(R\u{ae})"), "Acme");
    assert_eq!(clean("AcmeTechnologyCorp(R).Corporation"), "Acme");
    assert_eq!(clean("A(,Inc.R)B"), "AB");
}

#[test]
fn the_provider_of_a_record_holds_no_decoration() {
    assert_eq!(provider("Provider=,I(R)nc.\n"), "");
    assert_eq!(provider("Provider=Acme,I(R)nc.\n"), "Acme");
    assert_eq!(provider("Provider=%P%\nP=\"AcmeCorpo(R)ration\"\n"), "Acme");
}

#[test]
fn a_provider_given_by_reference_is_looked_up() {
    let text = "[Version]\r\nProvider=%Msft%\r\nClass=Net\r\n[Strings]\r\nMsft=\"MicrosoftCorporation\"\r\n";
    assert_eq!(provider(text), "Microsoft");
}

#[test]
fn a_reference_that_is_defined_nowhere_is_kept() {
    let text = "[Version]\nProvider=%Msft%\nClass=Net\n";
    assert_eq!(provider(text), "Msft");
}

#[test]
fn the_first_definition_of_a_reference_counts() {
    let text = "Provider=%P%\nP=\"First\"\nP=\"Second\"\n";
    assert_eq!(provider(text), "First");
}

#[test]
fn a_provider_given_literally_is_taken_as_it_is() {
    assert_eq!(provider("Provider=\"Acme,Inc.\"\nAcme=Other\n"), "Acme");
    assert_eq!(provider("Provider=Acme\nAcme=Other\n"), "Acme");
}

#[test]
fn a_missing_provider_is_empty() {
    assert_eq!(provider("[Version]\nClass=Net\nSignature=\"$WindowsNT$\"\n"), "");
    assert_eq!(provider(""), "");
    assert_eq!(provider("Provider=\nClass=Net\n"), "");
}

#[test]
fn a_provider_on_the_last_line_is_found() {
    assert_eq!(provider("Class=Net\nProvider=%V%"), "V");
    assert_eq!(provider("V=\"Vendor\"\nProvider=%V%"), "Vendor");
}

#[test]
fn the_first_provider_entry_counts() {
    assert_eq!(provider("Provider=One\nProvider=Two\n"), "One");
}
