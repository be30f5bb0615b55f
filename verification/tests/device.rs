use sudokoo_linux::device::{
    discover, first_panel, hid_id, open_failure, panel_at, uevent_value, write_outcome, DeviceInfo,
    Error, HidNode, IoFailure, Listing, EIO, ENODEV, ENXIO, EPIPE, HIDRAW_CLASS, PID, VID,
};
use sudokoo_linux::frame::REPORT_LEN;
use sudokoo_linux::paths::same_path;
use std::path::Path;

/// The panel's own uevent, copied from hardware.
const SK700V: &str = "\
DRIVER=hid-generic
HID_ID=0003:0000381C:00000003
HID_NAME=SK SK700V
HID_PHYS=usb-0000:11:00.0-2.4/input0
HID_UNIQ=0FCDD7A805A7
MODALIAS=hid:b0003g0001v0000381Cp00000003
";

/// A keyboard that shares the machine, to check we do not match it.
const KEYBOARD: &str = "\
DRIVER=hid-generic
HID_ID=0003:000024F0:00000105
HID_NAME=Das Keyboard Das Keyboard P13
HID_UNIQ=
MODALIAS=hid:b0003g0001v000024F0p00000105
";

fn node(name: &str, uevent: Option<&str>) -> HidNode {
    HidNode {
        node: name.to_string(),
        uevent: uevent.map(|u| u.to_string()),
    }
}

fn failure(os_error: Option<i32>) -> IoFailure {
    IoFailure {
        os_error,
        message: "it failed".to_string(),
    }
}

fn info(path: &str) -> DeviceInfo {
    DeviceInfo {
        path: path.to_string(),
        name: "SK SK700V".to_string(),
        serial: None,
    }
}

#[test]
fn hid_id_identifies_the_panel() {
    assert_eq!(hid_id(SK700V), Some((VID, PID)));
    assert_eq!(hid_id(KEYBOARD), Some((0x24F0, 0x0105)));
    assert_eq!(hid_id("HID_NAME=nothing here\n"), None);
    assert_eq!(hid_id("HID_ID=0003:0000381C\n"), None);
    assert_eq!(hid_id("HID_ID=0003:zzzz:00000003\n"), None);
}

#[test]
fn uevent_values_are_read_by_exact_key() {
    assert_eq!(uevent_value(SK700V, "HID_NAME"), Some("SK SK700V"));
    assert_eq!(uevent_value(SK700V, "HID_UNIQ"), Some("0FCDD7A805A7"));
    assert_eq!(uevent_value(KEYBOARD, "HID_UNIQ"), Some(""));
    assert_eq!(uevent_value(SK700V, "HID"), None);
    assert_eq!(uevent_value(SK700V, "ID"), None);
    assert_eq!(uevent_value(SK700V, "MISSING"), None);
}

#[test]
fn missing_device_reports_not_found_and_reads_as_disconnected() {
    // Opening a node that does not exist fails with ENOENT, which is not a refusal.
    let chosen = panel_at(&Vec::new(), "/dev/hidraw-does-not-exist");
    let err = open_failure(&chosen, false, failure(Some(2)));
    assert!(matches!(err, Error::Io { .. }), "got {err:?}");
    assert!(!err.is_disconnected(), "ENOENT is not a live disconnect");
    assert!(Error::NotFound.is_disconnected());
}

#[test]
fn errors_that_mean_the_device_left() {
    let at = info("/dev/hidraw6");
    for code in [ENODEV, ENXIO, EIO, EPIPE] {
        assert!(open_failure(&at, false, failure(Some(code))).is_disconnected());
        assert!(!open_failure(&at, true, failure(Some(code))).is_disconnected());
    }
    assert_eq!([EIO, ENXIO, ENODEV, EPIPE], [5, 6, 19, 32]);
    assert!(!open_failure(&at, false, failure(None)).is_disconnected());
    assert!(!write_outcome(&at, Ok(3)).unwrap_err().is_disconnected());
}

#[test]
fn errors_say_what_happened() {
    let at = info("/dev/hidraw6");
    assert_eq!(
        Error::NotFound.message(),
        format!("no SK700V ({VID:04x}:{PID:04x}) found — is usbhid bound to it?")
    );
    let access = open_failure(&at, true, failure(Some(13)));
    assert_eq!(
        access.message(),
        "no write access to /dev/hidraw6 — install packaging/99-sudokoo.rules, or run as root"
    );
    assert_eq!(access.source().unwrap().os_error, Some(13));
    let io = open_failure(&at, false, failure(None));
    assert_eq!(io.message(), "/dev/hidraw6: it failed");
    assert_eq!(io.source().unwrap().message, "it failed");
    let short = write_outcome(&at, Ok(10)).unwrap_err();
    assert_eq!(
        short.message(),
        format!("/dev/hidraw6: wrote 10 of {REPORT_LEN} bytes; the frame was truncated")
    );
    assert!(short.source().is_none());
    assert!(Error::NotFound.source().is_none());
}

#[test]
fn a_write_is_whole_or_an_error() {
    let at = info("/dev/hidraw6");
    assert!(write_outcome(&at, Ok(REPORT_LEN)).is_ok());
    match write_outcome(&at, Ok(63)) {
        Err(Error::ShortWrite { path, wrote }) => {
            assert_eq!(path, "/dev/hidraw6");
            assert_eq!(wrote, 63);
        }
        other => panic!("{other:?}"),
    }
    match write_outcome(&at, Err(failure(Some(ENODEV)))) {
        Err(e @ Error::Io { .. }) => assert!(e.is_disconnected()),
        other => panic!("{other:?}"),
    }
}

#[test]
fn discovery_keeps_the_panels_in_node_order() {
    let found = discover(Listing::Nodes(vec![
        node("hidraw10", Some(SK700V)),
        node("hidraw0", Some(KEYBOARD)),
        node("hidraw2", Some(SK700V)),
        node("hidraw3", None),
        node("hidraw1", Some("HID_ID=0003:0000381C:00000003\nHID_UNIQ=\n")),
    ]))
    .unwrap();
    let paths: Vec<&str> = found.iter().map(|i| i.path.as_str()).collect();
    assert_eq!(paths, ["/dev/hidraw1", "/dev/hidraw2", "/dev/hidraw10"]);
    assert_eq!(found[0].name, "");
    assert_eq!(found[0].serial, None);
    assert_eq!(found[1].name, "SK SK700V");
    assert_eq!(found[1].serial.as_deref(), Some("0FCDD7A805A7"));
    assert_eq!(first_panel(&found).unwrap(), found[0]);
}

#[test]
fn discovery_of_nothing_is_not_an_error() {
    assert!(discover(Listing::Missing).unwrap().is_empty());
    assert!(discover(Listing::Nodes(Vec::new())).unwrap().is_empty());
    assert!(matches!(first_panel(&Vec::new()), Err(Error::NotFound)));
    match discover(Listing::Failed(failure(Some(EIO)))) {
        Err(Error::Io { path, source }) => {
            assert_eq!(path, HIDRAW_CLASS);
            assert_eq!(path, "/sys/class/hidraw");
            assert_eq!(source.os_error, Some(EIO));
        }
        other => panic!("{other:?}"),
    }
}

#[test]
fn nodes_of_equal_number_order_by_name() {
    let found = discover(Listing::Nodes(vec![
        node("hidrawb", Some(SK700V)),
        node("hidraw", Some(SK700V)),
        node("hidrawa", Some(SK700V)),
        node("x7", Some(SK700V)),
    ]))
    .unwrap();
    let paths: Vec<&str> = found.iter().map(|i| i.path.as_str()).collect();
    assert_eq!(paths, ["/dev/x7", "/dev/hidraw", "/dev/hidrawa", "/dev/hidrawb"]);
}

#[test]
fn a_node_that_was_asked_for_is_used_whether_found_or_not() {
    let found = vec![info("/dev/hidraw2"), info("/dev/hidraw6")];
    assert_eq!(panel_at(&found, "/dev/hidraw6"), found[1]);
    assert_eq!(panel_at(&found, "/dev//hidraw6/"), found[1]);
    let other = panel_at(&found, "/tmp/somewhere");
    assert_eq!(other.path, "/tmp/somewhere");
    assert_eq!(other.name, "");
    assert_eq!(other.serial, None);
}

#[test]
fn path_equality_is_that_of_the_system() {
    let spellings = [
        "", ".", "/", "//", "./a", "a", "a/", "a/.", "/a", "/./a", "//a", "a/b", "a//b", "a/./b",
        "a/../b", "..", "./", "./.", "/..", "/dev/hidraw6", "/dev/./hidraw6", "dev/hidraw6", "./a/b",
        ".a", "a.", "...",
    ];
    for a in spellings {
        for b in spellings {
            assert_eq!(same_path(a, b), Path::new(a) == Path::new(b), "{a:?} {b:?}");
        }
    }
}

#[test]
fn uevent_lines_end_as_the_system_has_it() {
    assert_eq!(uevent_value("A=1\r\nB=2  \r\n", "A"), Some("1"));
    assert_eq!(uevent_value("A=1\r\nB=2  \r\n", "B"), Some("2"));
    assert_eq!(uevent_value("A\nB=2=3", "B"), Some("2=3"));
    assert_eq!(uevent_value("A=1\nA=2\n", "A"), Some("1"));
    assert_eq!(uevent_value("=x\n", ""), Some("x"));
    assert_eq!(uevent_value("", "A"), None);
    assert_eq!(uevent_value("A= é \n", "A"), Some(" é"));
}

#[test]
fn ids_are_hexadecimal_and_bounded() {
    assert_eq!(hid_id("HID_ID=3:+f:FFFFFFFF:more\n"), Some((15, u32::MAX)));
    assert_eq!(hid_id("HID_ID=3:100000000:1\n"), None);
    assert_eq!(hid_id("HID_ID=::\n"), None);
    assert_eq!(hid_id("HID_ID=:1:2 \n"), Some((1, 2)));
}

#[test]
fn other_devices_and_the_listing_order_make_no_difference() {
    let panels = || vec![node("hidraw10", Some(SK700V)), node("hidraw2", Some(SK700V))];
    let expected = discover(Listing::Nodes(panels())).unwrap();
    let mut shuffled = panels();
    shuffled.reverse();
    assert_eq!(discover(Listing::Nodes(shuffled)).unwrap(), expected);
    let mut crowded = panels();
    crowded.insert(1, node("hidraw0", Some(KEYBOARD)));
    crowded.push(node("hidraw1", None));
    assert_eq!(discover(Listing::Nodes(crowded)).unwrap(), expected);
}

#[test]
fn descriptions_of_one_node_are_equal_however_it_is_spelled() {
    assert_eq!(info("/dev/hidraw6"), info("/dev//./hidraw6/"));
    assert_ne!(info("/dev/hidraw6"), info("/dev/hidraw7"));
    let mut other = info("/dev/hidraw6");
    other.serial = Some("0FCDD7A805A7".to_string());
    assert_ne!(other, info("/dev/hidraw6"));
    assert_eq!(other, other.clone());
    other.serial = None;
    other.name = String::new();
    assert_ne!(other, info("/dev/hidraw6"));
}
