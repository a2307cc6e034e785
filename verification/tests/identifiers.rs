use driver_indexer::ids::{
    build_id_pattern, device_prefixes, extract_ids, holds, normalize_id, unique,
};
use driver_indexer::pattern::search;

fn strings(items: &[&str]) -> Vec<String> {
    items.iter().map(|s| s.to_string()).collect()
}

#[test]
fn the_registry_holds_the_known_branches() {
    assert_eq!(
        device_prefixes(),
        vec![
            "ACPI", "ACPI_HAL", "BTH", "BTHENUM", "BTHHFENUM", "DISPLAY", "HDAUDIO", "HID",
            "HTREE", "PCI", "ROOT", "SCSI", "SD", "STORAGE", "SW", "SWD", "TERMINPUT_BUS",
            "TS_USB_HUB_Enumerator", "UEFI", "UMB", "USB", "USBSTOR",
        ]
    );
}

#[test]
fn the_pattern_of_a_branch() {
    assert_eq!(build_id_pattern("PCI"), ",PCI\\\\[^,;\\s\\p{Cc}]+");
    assert_eq!(build_id_pattern("ACPI_HAL"), ",ACPI_HAL\\\\[^,;\\s\\p{Cc}]+");
}

#[test]
fn an_identifier_is_found_under_each_branch() {
    for prefix in device_prefixes() {
        let text = format!("%Device%=Install,{}\\XXXX&YYYY\n", prefix);
        assert_eq!(
            extract_ids(&text),
            vec![format!("{}\\XXXX&YYYY", prefix.to_uppercase())],
            "under {}",
            prefix
        );
    }
}

#[test]
fn the_branch_is_found_in_any_letter_case() {
    for prefix in device_prefixes() {
        let text = format!("%Device%=Install,{}\\xxxx&yyyy\n", prefix.to_lowercase());
        assert_eq!(
            extract_ids(&text),
            vec![format!("{}\\XXXX&YYYY", prefix.to_uppercase())],
            "under {}",
            prefix
        );
    }
}

#[test]
fn an_unknown_branch_is_never_found() {
    assert_eq!(extract_ids("%D%=I,FOO\\VEN_1&DEV_2\n"), Vec::<String>::new());
    assert_eq!(extract_ids("%D%=I,PCIX\\VEN_1&DEV_2\n"), Vec::<String>::new());
    assert_eq!(extract_ids("%D%=I,XPCI\\VEN_1&DEV_2\n"), Vec::<String>::new());
    assert_eq!(extract_ids("%D%=I,ISAPNP\\PNP0501\n"), Vec::<String>::new());
    assert_eq!(extract_ids("%D%=I,*PNP0501\n"), Vec::<String>::new());
}

#[test]
fn an_identifier_needs_the_comma_before_it() {
    assert_eq!(extract_ids("PCI\\VEN_1&DEV_2\n"), Vec::<String>::new());
    assert_eq!(extract_ids("%D%=PCI\\VEN_1&DEV_2\n"), Vec::<String>::new());
}

#[test]
fn an_identifier_needs_something_after_the_backslash() {
    assert_eq!(extract_ids("%D%=I,PCI\\\n"), Vec::<String>::new());
    assert_eq!(extract_ids("%D%=I,PCI\\,x\n"), Vec::<String>::new());
    assert_eq!(extract_ids("%D%=I,PCI\n"), Vec::<String>::new());
}

#[test]
fn identifiers_that_differ_in_letter_case_give_one_entry() {
    let text = "%A%=I,PCI\\VEN_8086&DEV_100E\n%B%=I,pci\\ven_8086&dev_100e\n%C%=I,Pci\\Ven_8086&Dev_100E\n";
    assert_eq!(extract_ids(text), strings(&["PCI\\VEN_8086&DEV_100E"]));
}

#[test]
fn an_identifier_ends_at_a_comma_a_semicolon_or_a_line_end() {
    assert_eq!(extract_ids("%A%=I,USB\\VID_1&PID_2,USB\\VID_3&PID_4\n"), strings(&[
        "USB\\VID_1&PID_2",
        "USB\\VID_3&PID_4",
    ]));
    assert_eq!(extract_ids("%A%=I,USB\\VID_1&PID_2;note\n"), strings(&["USB\\VID_1&PID_2"]));
    assert_eq!(extract_ids("%A%=I,USB\\VID_1&PID_2\r\nx"), strings(&["USB\\VID_1&PID_2"]));
    assert_eq!(extract_ids("%A%=I,USB\\VID_1&PID_2\u{c}x"), strings(&["USB\\VID_1&PID_2"]));
    assert_eq!(extract_ids("%A%=I,USB\\VID_1&PID_2\u{b}x"), strings(&["USB\\VID_1&PID_2"]));
    assert_eq!(extract_ids("%A%=I,USB\\VID_1&PID_2\tx"), strings(&["USB\\VID_1&PID_2"]));
    assert_eq!(extract_ids("%A%=I,USB\\VID_1&PID_2 x"), strings(&["USB\\VID_1&PID_2"]));
    assert_eq!(extract_ids("%A%=I,USB\\VID_1&PID_2"), strings(&["USB\\VID_1&PID_2"]));
}

#[test]
fn identifiers_come_branch_by_branch_and_then_from_the_left() {
    let text = "%A%=I,USB\\VID_1&PID_2\n%B%=I,PCI\\VEN_2&DEV_1\n%C%=I,ACPI\\PNP0A08\n%D%=I,PCI\\VEN_1&DEV_1\n";
    assert_eq!(
        extract_ids(text),
        strings(&["ACPI\\PNP0A08", "PCI\\VEN_2&DEV_1", "PCI\\VEN_1&DEV_1", "USB\\VID_1&PID_2"])
    );
}

#[test]
fn branches_that_begin_alike_are_told_apart() {
    let text = "%A%=I,USBSTOR\\DISK&VEN_X\n%B%=I,USB\\VID_1&PID_2\n%C%=I,SWD\\DEV\n%D%=I,SW\\{1}\n";
    assert_eq!(
        extract_ids(text),
        strings(&["SW\\{1}", "SWD\\DEV", "USB\\VID_1&PID_2", "USBSTOR\\DISK&VEN_X"])
    );
}

#[test]
fn a_text_without_identifiers_gives_none() {
    assert_eq!(extract_ids(""), Vec::<String>::new());
    assert_eq!(extract_ids("[Version]\nClass=Net\n"), Vec::<String>::new());
}

#[test]
fn normalize_id_drops_the_comma_and_raises_the_case() {
    assert_eq!(normalize_id(",pci\\ven_8086&dev_100e"), "PCI\\VEN_8086&DEV_100E");
    assert_eq!(normalize_id(",Usb\\Vid_046d&Pid_c52b"), "USB\\VID_046D&PID_C52B");
    assert_eq!(normalize_id(",HID\\stra\u{df}e"), "HID\\STRASSE");
    assert_eq!(normalize_id("pci\\ven_1"), "PCI\\VEN_1");
    assert_eq!(normalize_id(",,pci\\ven_1,x"), ",PCI\\VEN_1,X");
    assert_eq!(normalize_id(""), "");
}

#[test]
fn search_gives_the_matches_from_the_left() {
    assert_eq!(
        search("Class=\\S*", false, "Class=Net\nclass=x\nClass=Display\n"),
        strings(&["Class=Net", "Class=Display"])
    );
    assert_eq!(
        search("Class=\\S*", true, "Class=Net\nclass=x\n"),
        strings(&["Class=Net", "class=x"])
    );
    assert_eq!(search("Class=\\S*", false, "nothing"), Vec::<String>::new());
}

#[test]
fn search_with_a_pattern_that_is_not_accepted_finds_nothing() {
    assert_eq!(search("Class=(", false, "Class=("), Vec::<String>::new());
}

#[test]
fn unique_keeps_the_first_of_each() {
    assert_eq!(unique(&strings(&["b", "a", "b", "c", "a", "b"])), strings(&["b", "a", "c"]));
    assert_eq!(unique(&strings(&["a", "A"])), strings(&["a", "A"]));
    assert_eq!(unique(&strings(&[])), Vec::<String>::new());
}

#[test]
fn holds_tells_membership() {
    let items = strings(&["PCI\\A", "USB\\B"]);
    assert!(holds(&items, &"USB\\B".to_string()));
    assert!(!holds(&items, &"usb\\b".to_string()));
    assert!(!holds(&Vec::new(), &"USB\\B".to_string()));
}

#[test]
fn every_identifier_is_in_upper_case() {
    let text = "%A%=I,pci\\ven_8086&dev_100e\n%B%=I,Usb\\Vid_046d&Pid_c52b\n%C%=I,hid\\stra\u{df}e\n%D%=I,acpi\\pnp0a08\n";
    let ids = extract_ids(text);
    assert_eq!(
        ids,
        strings(&["ACPI\\PNP0A08", "HID\\STRASSE", "PCI\\VEN_8086&DEV_100E", "USB\\VID_046D&PID_C52B"])
    );
    for id in ids {
        assert_eq!(id, id.to_uppercase());
    }
}

#[test]
fn an_identifier_ends_at_white_space_of_any_kind() {
    assert_eq!(extract_ids("%A%=I,USB\\VID_1&PID_2\u{a0}x"), strings(&["USB\\VID_1&PID_2"]));
    assert_eq!(extract_ids("%A%=I,USB\\VID_1&PID_2\u{3000}x"), strings(&["USB\\VID_1&PID_2"]));
    assert_eq!(extract_ids("%A%=I,USB\\VID_1&PID_2\u{85}x"), strings(&["USB\\VID_1&PID_2"]));
}

#[test]
fn an_identifier_ends_at_a_control_character() {
    assert_eq!(extract_ids("%A%=I,USB\\VID_1&PID_2\u{0}x"), strings(&["USB\\VID_1&PID_2"]));
    assert_eq!(extract_ids("%A%=I,USB\\VID_1&PID_2\u{1a}"), strings(&["USB\\VID_1&PID_2"]));
    assert_eq!(extract_ids("%A%=I,USB\\VID_1&PID_2\u{7f}x"), strings(&["USB\\VID_1&PID_2"]));
    assert_eq!(extract_ids("%A%=I,USB\\\u{1}VID_1"), Vec::<String>::new());
}

#[test]
fn other_characters_belong_to_the_identifier() {
    assert_eq!(
        extract_ids("%A%=I,HID\\{00001124-0000}_VID&0002\u{e9}*#\n"),
        strings(&["HID\\{00001124-0000}_VID&0002\u{c9}*#"])
    );
}
