//! Finding the panel's hidraw node and judging what became of a write to it.
//!
//! The node number is not stable (it depends on enumeration order and moves between
//! boots), so the device is always located by vendor and product id at runtime.
//!
//! Nothing here reads from the device. It never acknowledges a frame, so a successful
//! write means only that the kernel accepted the report. Whether the firmware accepted it
//! is visible solely on the panel.

use vstd::prelude::*;
use vstd::slice::slice_subrange;

use crate::frame::REPORT_LEN;
use crate::numbers;
use crate::order;
use crate::order::{Key, KeyView};
use crate::paths;
use crate::text;

verus! {

/// USB vendor id: Sudokoo.
pub const VID: u32 = 0x381C;

/// USB product id: SK700V. The same protocol serves the SK620 under a different id.
pub const PID: u32 = 0x0003;

/// The class directory that lists the hidraw nodes.
pub const HIDRAW_CLASS: &'static str = "/sys/class/hidraw";

// Error numbers that mean the device went away rather than rejecting the write.
/// Input/output error.
pub const EIO: i32 = 5;

/// No such device or address.
pub const ENXIO: i32 = 6;

/// No such device.
pub const ENODEV: i32 = 19;

/// Broken pipe.
pub const EPIPE: i32 = 32;

/// A failed system call.
#[derive(Debug)]
pub struct IoFailure {
    /// The system's error number, where the failure came with one.
    pub os_error: Option<i32>,
    /// What the system says about it.
    pub message: String,
}

/// What went wrong talking to the panel.
#[derive(Debug)]
pub enum Error {
    /// No hidraw node with the panel's vendor and product id.
    NotFound,
    /// The node exists but is not writable by this process.
    Access { path: String, source: IoFailure },
    /// Any other failure opening or writing the node.
    Io { path: String, source: IoFailure },
    /// The kernel took only part of a report. One write is one HID report, so a
    /// partial write cannot be resumed: the frame is lost.
    ShortWrite { path: String, wrote: usize },
}

/// Whether an error number means that the device left the bus.
pub open spec fn gone(os_error: Option<i32>) -> bool {
    os_error == Some(ENODEV) || os_error == Some(ENXIO) || os_error == Some(EIO) || os_error
        == Some(EPIPE)
}

/// What an error is reported as.
pub open spec fn error_text(e: Error) -> Seq<char> {
    match e {
        Error::NotFound => "no SK700V (381c:0003) found \u{2014} is usbhid bound to it?"@,
        Error::Access { path, .. } => "no write access to "@ + path@
            + " \u{2014} install packaging/99-sudokoo.rules, or run as root"@,
        Error::Io { path, source } => path@ + ": "@ + source.message@,
        Error::ShortWrite { path, wrote } => path@ + ": wrote "@ + numbers::decimal(wrote as nat)
            + " of "@ + numbers::decimal(REPORT_LEN as nat)
            + " bytes; the frame was truncated"@,
    }
}

impl Error {
    /// Whether this error means the device left the bus, as opposed to refusing the
    /// operation. The panel is prone to dropping off after a warm reboot, and a service
    /// should exit and let itself be restarted rather than spin on a dead handle.
    pub fn is_disconnected(&self) -> (r: bool)
        ensures
            r == match *self {
                Error::NotFound => true,
                Error::Access { .. } => false,
                Error::Io { source, .. } => gone(source.os_error),
                Error::ShortWrite { .. } => false,
            },
    {
        match self {
            Error::NotFound => true,
            Error::Access { .. } => false,
            Error::ShortWrite { .. } => false,
            Error::Io { source, .. } => match source.os_error {
                Some(n) => n == ENODEV || n == ENXIO || n == EIO || n == EPIPE,
                None => false,
            },
        }
    }

    /// The text that reports this error.
    pub fn message(&self) -> (s: String)
        ensures
            s@ == error_text(*self),
    {
        match self {
            Error::NotFound => "no SK700V (381c:0003) found \u{2014} is usbhid bound to it?".to_owned(),
            Error::Access { path, .. } => "no write access to ".to_owned().concat(
                path.as_str(),
            ).concat(" \u{2014} install packaging/99-sudokoo.rules, or run as root"),
            Error::Io { path, source } => path.clone().concat(": ").concat(source.message.as_str()),
            Error::ShortWrite { path, wrote } => path.clone().concat(": wrote ").concat(
                numbers::to_decimal(*wrote as u64).as_str(),
            ).concat(" of ").concat(numbers::to_decimal(REPORT_LEN as u64).as_str()).concat(
                " bytes; the frame was truncated",
            ),
        }
    }

    /// The failed system call behind this error, if one is.
    pub fn source(&self) -> (r: Option<&IoFailure>)
        ensures
            match *self {
                Error::Access { source, .. } => r == Some(&source),
                Error::Io { source, .. } => r == Some(&source),
                Error::NotFound => r is None,
                Error::ShortWrite { .. } => r is None,
            },
    {
        match self {
            Error::Access { source, .. } => Some(source),
            Error::Io { source, .. } => Some(source),
            Error::NotFound => None,
            Error::ShortWrite { .. } => None,
        }
    }
}

/// Whether `line` is a `KEY=VALUE` line whose key is exactly `key`.
pub open spec fn has_key(line: Seq<char>, key: Seq<char>) -> bool {
    let n = text::position(line, '=');
    n < line.len() && line.take(n) == key
}

/// The value on the first line that has the key, without white space at its end.
pub open spec fn lookup(lines: Seq<Seq<char>>, key: Seq<char>) -> Option<Seq<char>>
    decreases lines.len(),
{
    if lines.len() == 0 {
        None
    } else if has_key(lines[0], key) {
        Some(text::trim_end(lines[0].skip(key.len() as int + 1)))
    } else {
        lookup(lines.skip(1), key)
    }
}

/// The value of `key` in a `uevent` file.
pub open spec fn value_of(uevent: Seq<char>, key: Seq<char>) -> Option<Seq<char>> {
    lookup(text::lines(uevent), key)
}

/// Where the value of `key` stands in a `uevent` file.
fn value_range(uevent: &[char], key: &[char]) -> (r: Option<(usize, usize)>)
    ensures
        match r {
            Some((a, b)) => {
                &&& a <= b <= uevent@.len()
                &&& value_of(uevent@, key@) == Some(uevent@.subrange(a as int, b as int))
            },
            None => value_of(uevent@, key@) is None,
        },
{
    let mut from: usize = 0;
    assert(uevent@.skip(0) == uevent@);
    while from < uevent.len()
        invariant
            from <= uevent@.len(),
            value_of(uevent@, key@) == value_of(uevent@.skip(from as int), key@),
        decreases uevent@.len() - from,
    {
        let (end, next): (usize, usize) = text::line_at(uevent, from);
        let line = slice_subrange(uevent, from, end);
        let ghost all = text::lines(uevent@.skip(from as int));
        assert(all[0] == line@);
        assert(all.skip(1) == text::lines(uevent@.skip(next as int)));
        let n: usize = text::find(line, '=');
        if n < line.len() {
            let name = slice_subrange(line, 0, n);
            assert(name@ == line@.take(n as int));
            if text::same(name, key) {
                let rest = slice_subrange(line, n + 1, line.len());
                assert(rest@ == line@.skip(key@.len() as int + 1));
                let len: usize = text::end_of_text(rest);
                assert(uevent@.subrange(from + n + 1, from + n + 1 + len) == rest@.take(
                    len as int,
                ));
                return Some((from + n + 1, from + n + 1 + len));
            }
        }
        from = next;
    }
    assert(text::lines(uevent@.skip(from as int)).len() == 0);
    None
}

/// The value of `key` in a `uevent` file's `KEY=VALUE` lines.
pub fn uevent_value<'a>(uevent: &'a str, key: &str) -> (r: Option<&'a str>)
    ensures
        match r {
            Some(v) => value_of(uevent@, key@) == Some(v@),
            None => value_of(uevent@, key@) is None,
        },
{
    let s = text::characters(uevent);
    let k = text::characters(key);
    match value_range(s.as_slice(), k.as_slice()) {
        Some((a, b)) => Some(uevent.substring_char(a, b)),
        None => None,
    }
}

/// The vendor and product id among the pieces of a `HID_ID` value.
pub open spec fn ids_among(pieces: Seq<Seq<char>>) -> Option<(u32, u32)> {
    if pieces.len() < 3 {
        None
    } else {
        match (
            numbers::unsigned(pieces[1], 16, u32::MAX as int),
            numbers::unsigned(pieces[2], 16, u32::MAX as int),
        ) {
            (Some(vendor), Some(product)) => Some((vendor as u32, product as u32)),
            _ => None,
        }
    }
}

/// The vendor and product id that a `uevent` file gives.
pub open spec fn ids_of(uevent: Seq<char>) -> Option<(u32, u32)> {
    match value_of(uevent, "HID_ID"@) {
        Some(v) => ids_among(text::split(v, ':')),
        None => None,
    }
}

/// The vendor and product id of a `<bus>:<vendor>:<product>` value.
fn read_ids(v: &[char]) -> (r: Option<(u32, u32)>)
    ensures
        r == ids_among(text::split(v@, ':')),
{
    let ghost pieces = text::split(v@, ':');
    let a: usize = text::find(v, ':');
    if a == v.len() {
        return None;
    }
    let after_bus = slice_subrange(v, a + 1, v.len());
    assert(after_bus@ == v@.skip(a + 1));
    let ghost from_vendor = text::split(after_bus@, ':');
    assert(pieces == seq![v@.take(a as int)] + from_vendor);
    let b: usize = text::find(after_bus, ':');
    if b == after_bus.len() {
        assert(from_vendor.len() == 1);
        return None;
    }
    let vendor = slice_subrange(after_bus, 0, b);
    assert(vendor@ == after_bus@.take(b as int));
    let after_vendor = slice_subrange(after_bus, b + 1, after_bus.len());
    assert(after_vendor@ == after_bus@.skip(b + 1));
    let ghost from_product = text::split(after_vendor@, ':');
    assert(from_vendor == seq![vendor@] + from_product);
    assert(pieces[1] == vendor@);
    let c: usize = text::find(after_vendor, ':');
    let product = slice_subrange(after_vendor, 0, c);
    assert(product@ == after_vendor@.take(c as int));
    assert(c == after_vendor@.len() ==> product@ == after_vendor@);
    assert(from_product[0] == product@);
    assert(pieces[2] == product@);
    match (
        numbers::parse_unsigned(vendor, 16, u32::MAX as u64),
        numbers::parse_unsigned(product, 16, u32::MAX as u64),
    ) {
        (Some(x), Some(y)) => Some((x as u32, y as u32)),
        _ => None,
    }
}

/// The vendor and product id from a `HID_ID=<bus>:<vendor>:<product>` line, all hex.
pub fn hid_id(uevent: &str) -> (r: Option<(u32, u32)>)
    ensures
        r == ids_of(uevent@),
{
    match uevent_value(uevent, "HID_ID") {
        Some(v) => read_ids(text::characters(v).as_slice()),
        None => None,
    }
}

/// A hidraw node that belongs to the panel.
#[derive(Debug, Eq)]
pub struct DeviceInfo {
    /// The character device to write to, e.g. `/dev/hidraw6`.
    pub path: String,
    /// `HID_NAME` as the kernel reports it, e.g. `SK SK700V`.
    pub name: String,
    /// `HID_UNIQ`, the USB serial number. Empty for many HID devices, but this one
    /// reports it, so it can disambiguate two panels on one machine.
    pub serial: Option<String>,
}

/// The value of a [`DeviceInfo`].
pub struct InfoView {
    pub path: Seq<char>,
    pub name: Seq<char>,
    pub serial: Option<Seq<char>>,
}

impl View for DeviceInfo {
    type V = InfoView;

    open spec fn view(&self) -> InfoView {
        InfoView {
            path: self.path@,
            name: self.name@,
            serial: match self.serial {
                Some(s) => Some(s@),
                None => None,
            },
        }
    }
}

/// Descriptions are equal if they say the same of the same node: two spellings of a path
/// name the same node.
impl PartialEq for DeviceInfo {
    fn eq(&self, other: &DeviceInfo) -> (r: bool) {
        let serials: bool = match (&self.serial, &other.serial) {
            (Some(a), Some(b)) => text::equals(a.as_str(), b.as_str()),
            (None, None) => true,
            _ => false,
        };
        paths::same_path(self.path.as_str(), other.path.as_str()) && text::equals(
            self.name.as_str(),
            other.name.as_str(),
        ) && serials
    }
}

impl vstd::std_specs::cmp::PartialEqSpecImpl for DeviceInfo {
    open spec fn obeys_eq_spec() -> bool {
        true
    }

    open spec fn eq_spec(&self, other: &DeviceInfo) -> bool {
        paths::equivalent(self@.path, other@.path) && self@.name == other@.name && self@.serial
            == other@.serial
    }
}

impl Clone for DeviceInfo {
    fn clone(&self) -> (r: DeviceInfo)
        ensures
            r@ == self@,
    {
        DeviceInfo {
            path: self.path.clone(),
            name: self.name.clone(),
            serial: match &self.serial {
                Some(s) => Some(s.clone()),
                None => None,
            },
        }
    }
}

/// One entry of the hidraw class directory.
#[derive(Debug)]
pub struct HidNode {
    /// The entry's file name, e.g. `hidraw6`.
    pub node: String,
    /// What its device's `uevent` file holds, where that could be read.
    pub uevent: Option<String>,
}

/// The hidraw class directory as it was listed.
#[derive(Debug)]
pub enum Listing {
    /// Its entries.
    Nodes(Vec<HidNode>),
    /// There is no such directory.
    Missing,
    /// It could not be listed.
    Failed(IoFailure),
}

/// Whether a node is a panel. One whose `uevent` is unreadable is simply not our device.
pub open spec fn is_panel(n: HidNode) -> bool {
    match n.uevent {
        Some(u) => ids_of(u@) == Some((VID, PID)),
        None => false,
    }
}

/// The panels among some nodes, as they were listed.
pub open spec fn panels(nodes: Seq<HidNode>) -> Seq<HidNode>
    decreases nodes.len(),
{
    if nodes.len() == 0 {
        Seq::empty()
    } else if is_panel(nodes.last()) {
        panels(nodes.drop_last()).push(nodes.last())
    } else {
        panels(nodes.drop_last())
    }
}

/// What a node is ordered by: its number, then its name.
pub open spec fn node_key(n: HidNode) -> KeyView {
    KeyView { class: 0, number: numbers::node_number(n.node@), name: n.node@ }
}

/// The keys of some nodes.
pub open spec fn node_keys(nodes: Seq<HidNode>) -> Seq<KeyView> {
    nodes.map_values(|n: HidNode| node_key(n))
}

/// How a panel's node is described.
pub open spec fn info_of(n: HidNode) -> InfoView {
    let uevent = n.uevent->0@;
    InfoView {
        path: "/dev/"@ + n.node@,
        name: match value_of(uevent, "HID_NAME"@) {
            Some(v) => v,
            None => Seq::empty(),
        },
        serial: match value_of(uevent, "HID_UNIQ"@) {
            Some(v) => if v.len() > 0 {
                Some(v)
            } else {
                None
            },
            None => None,
        },
    }
}

/// Whether `found` describes the panels among `nodes`, each once, in node order.
pub open spec fn describes(found: Seq<DeviceInfo>, nodes: Seq<HidNode>) -> bool {
    let ours = panels(nodes);
    &&& found.len() == ours.len()
    &&& exists|order: Seq<usize>|
        {
            &&& order::is_order(node_keys(ours), order)
            &&& forall|i: int| 0 <= i < found.len() ==> #[trigger] found[i]@ == info_of(ours[order[i] as int])
        }
}

/// Describe a panel's node.
fn describe(n: &HidNode, uevent: &String) -> (info: DeviceInfo)
    requires
        n.uevent == Some(*uevent),
    ensures
        info@ == info_of(*n),
{
    let node = n.node.as_str();
    let uevent = uevent.as_str();
    let name: String = match uevent_value(uevent, "HID_NAME") {
        Some(v) => v.to_owned(),
        None => String::new(),
    };
    let serial: Option<String> = match uevent_value(uevent, "HID_UNIQ") {
        Some(v) => if v.is_empty() {
            None
        } else {
            Some(v.to_owned())
        },
        None => None,
    };
    DeviceInfo { path: "/dev/".to_owned().concat(node), name, serial }
}

/// The panels among the listed nodes, in node order.
fn discover_among(nodes: &Vec<HidNode>) -> (found: Vec<DeviceInfo>)
    ensures
        describes(found@, nodes@),
{
    let mut infos: Vec<DeviceInfo> = Vec::new();
    let mut keys: Vec<Key> = Vec::new();
    let ghost ours = panels(nodes@);
    let mut i: usize = 0;
    assert(order::views(keys@) == node_keys(panels(nodes@.take(0))));
    while i < nodes.len()
        invariant
            i <= nodes@.len(),
            order::views(keys@) == node_keys(panels(nodes@.take(i as int))),
            infos@.len() == panels(nodes@.take(i as int)).len(),
            forall|j: int|
                0 <= j < infos@.len() ==> #[trigger] infos@[j]@ == info_of(
                    panels(nodes@.take(i as int))[j],
                ),
        decreases nodes@.len() - i,
    {
        let ghost upto = nodes@.take(i + 1);
        assert(upto.drop_last() == nodes@.take(i as int));
        assert(upto.last() == nodes@[i as int]);
        let entry = &nodes[i];
        if let Some(uevent) = &entry.uevent {
            if let Some((vendor, product)) = hid_id(uevent.as_str()) {
                if vendor == VID && product == PID {
                    let ghost before = keys@;
                    keys.push(
                        Key {
                            class: 0,
                            number: numbers::trailing_number(entry.node.as_str()),
                            name: text::characters(entry.node.as_str()),
                        },
                    );
                    infos.push(describe(entry, uevent));
                    assert(order::views(keys@) == order::views(before).push(node_key(*entry)));
                    assert(order::views(keys@) == node_keys(panels(upto)));
                }
            }
        }
        i = i + 1;
    }
    assert(nodes@.take(i as int) == nodes@);
    let order: Vec<usize> = order::in_order(&keys);
    assert(order::is_order(node_keys(ours), order@));
    let mut found: Vec<DeviceInfo> = Vec::new();
    let mut k: usize = 0;
    while k < order.len()
        invariant
            k <= order@.len(),
            order@.len() == infos@.len(),
            infos@.len() == ours.len(),
            order::is_order(node_keys(ours), order@),
            forall|j: int| 0 <= j < infos@.len() ==> #[trigger] infos@[j]@ == info_of(ours[j]),
            found@.len() == k,
            forall|j: int| 0 <= j < k ==> #[trigger] found@[j]@ == info_of(ours[order@[j] as int]),
        decreases order@.len() - k,
    {
        found.push(infos[order[k]].clone());
        k = k + 1;
    }
    found
}

/// Every hidraw node matching the panel's vendor and product id, in node order.
///
/// Returns an empty vector rather than an error when no HID devices exist at all.
pub fn discover(listing: Listing) -> (r: Result<Vec<DeviceInfo>, Error>)
    ensures
        match listing {
            Listing::Nodes(nodes) => r matches Ok(found) && describes(found@, nodes@),
            Listing::Missing => r matches Ok(found) && found@.len() == 0,
            Listing::Failed(failure) => r matches Err(Error::Io { path, source }) && path@
                == HIDRAW_CLASS@ && source == failure,
        },
{
    match listing {
        Listing::Nodes(nodes) => Ok(discover_among(&nodes)),
        Listing::Missing => Ok(Vec::new()),
        Listing::Failed(source) => Err(Error::Io { path: HIDRAW_CLASS.to_owned(), source }),
    }
}

/// The panel to use when none was asked for: the first one found.
pub fn first_panel(found: &Vec<DeviceInfo>) -> (r: Result<DeviceInfo, Error>)
    ensures
        found@.len() == 0 ==> r matches Err(Error::NotFound),
        found@.len() > 0 ==> (r matches Ok(info) && info@ == found@[0]@),
{
    if found.len() == 0 {
        Err(Error::NotFound)
    } else {
        Ok(found[0].clone())
    }
}

/// The description of the node at `path`: that of the first panel found there, else one
/// that knows nothing but the path.
pub open spec fn located(found: Seq<DeviceInfo>, path: Seq<char>) -> InfoView
    decreases found.len(),
{
    if found.len() == 0 {
        InfoView { path, name: Seq::empty(), serial: None }
    } else if paths::equivalent(found[0].path@, path) {
        found[0]@
    } else {
        located(found.skip(1), path)
    }
}

/// The node to use when one was asked for, for a machine with more than one panel or to
/// override discovery. The node need not be among the panels found.
pub fn panel_at(found: &Vec<DeviceInfo>, path: &str) -> (info: DeviceInfo)
    ensures
        info@ == located(found@, path@),
{
    let mut i: usize = 0;
    assert(found@.skip(0) == found@);
    while i < found.len()
        invariant
            i <= found@.len(),
            located(found@, path@) == located(found@.skip(i as int), path@),
        decreases found@.len() - i,
    {
        if paths::same_path(found[i].path.as_str(), path) {
            return found[i].clone();
        }
        assert(found@.skip(i as int).skip(1) == found@.skip(i + 1));
        i = i + 1;
    }
    DeviceInfo { path: path.to_owned(), name: String::new(), serial: None }
}

/// What a failure to open a node is reported as. `denied` says whether the system refused
/// permission.
pub fn open_failure(info: &DeviceInfo, denied: bool, source: IoFailure) -> (e: Error)
    ensures
        denied ==> (e matches Error::Access { path, source: s } && path@ == info.path@ && s
            == source),
        !denied ==> (e matches Error::Io { path, source: s } && path@ == info.path@ && s
            == source),
{
    if denied {
        Error::Access { path: info.path.clone(), source }
    } else {
        Error::Io { path: info.path.clone(), source }
    }
}

/// What one write of a report came to.
///
/// One write is one HID report, so the whole 64-byte report goes in a single call and a
/// partial write is an error rather than something to retry.
pub fn write_outcome(info: &DeviceInfo, wrote: Result<usize, IoFailure>) -> (r: Result<(), Error>)
    ensures
        match wrote {
            Ok(n) => if n == REPORT_LEN {
                r is Ok
            } else {
                r matches Err(Error::ShortWrite { path, wrote: w }) && path@ == info.path@ && w == n
            },
            Err(failure) => r matches Err(Error::Io { path, source }) && path@ == info.path@
                && source == failure,
        },
{
    match wrote {
        Ok(n) => if n == REPORT_LEN {
            Ok(())
        } else {
            Err(Error::ShortWrite { path: info.path.clone(), wrote: n })
        },
        Err(source) => Err(Error::Io { path: info.path.clone(), source }),
    }
}

proof fn lemma_panels_append(a: Seq<HidNode>, b: Seq<HidNode>)
    ensures
        panels(a + b) == panels(a) + panels(b),
    decreases b.len(),
{
    if b.len() == 0 {
        assert(a + b == a);
    } else {
        assert((a + b).drop_last() == a + b.drop_last());
        lemma_panels_append(a, b.drop_last());
    }
}

proof fn lemma_panels_are_listed(nodes: Seq<HidNode>, i: int)
    requires
        0 <= i < panels(nodes).len(),
    ensures
        is_panel(panels(nodes)[i]),
        nodes.contains(panels(nodes)[i]),
    decreases nodes.len(),
{
    let rest = nodes.drop_last();
    if i < panels(rest).len() {
        lemma_panels_are_listed(rest, i);
        let k = choose|k: int| 0 <= k < rest.len() && rest[k] == panels(rest)[i];
        assert(nodes[k] == panels(nodes)[i]);
    }
}

proof fn lemma_listed_panel(nodes: Seq<HidNode>, k: int) -> (i: int)
    requires
        0 <= k < nodes.len(),
        is_panel(nodes[k]),
    ensures
        0 <= i < panels(nodes).len(),
        panels(nodes)[i] == nodes[k],
    decreases nodes.len(),
{
    if k == nodes.len() - 1 {
        panels(nodes).len() - 1
    } else {
        lemma_listed_panel(nodes.drop_last(), k)
    }
}

/// Scanning finds every panel, and nothing that is not one.
pub proof fn law_discovery_finds_exactly_the_panels(found: Seq<DeviceInfo>, nodes: Seq<HidNode>)
    requires
        describes(found, nodes),
    ensures
        forall|k: int|
            0 <= k < nodes.len() && is_panel(#[trigger] nodes[k]) ==> exists|i: int|
                0 <= i < found.len() && found[i]@ == info_of(nodes[k]),
        forall|i: int|
            0 <= i < found.len() ==> exists|k: int|
                0 <= k < nodes.len() && is_panel(#[trigger] nodes[k]) && (#[trigger] found[i])@
                    == info_of(nodes[k]),
{
    let ours = panels(nodes);
    let keys = node_keys(ours);
    let order = choose|order: Seq<usize>|
        {
            &&& order::is_order(keys, order)
            &&& forall|i: int|
                0 <= i < found.len() ==> #[trigger] found[i]@ == info_of(ours[order[i] as int])
        };
    assert forall|k: int| 0 <= k < nodes.len() && is_panel(#[trigger] nodes[k]) implies exists|
        i: int,
    | 0 <= i < found.len() && found[i]@ == info_of(nodes[k]) by {
        let at = lemma_listed_panel(nodes, k);
        order::law_order_lists_every_entry(keys, order, at);
        let i = choose|i: int| 0 <= i < order.len() && order[i] == at;
        assert(found[i]@ == info_of(nodes[k]));
    }
    assert forall|i: int| 0 <= i < found.len() implies exists|k: int|
        0 <= k < nodes.len() && is_panel(#[trigger] nodes[k]) && (#[trigger] found[i])@ == info_of(
            nodes[k],
        ) by {
        let at = order[i] as int;
        lemma_panels_are_listed(nodes, at);
        let k = choose|k: int| 0 <= k < nodes.len() && nodes[k] == ours[at];
        assert(is_panel(nodes[k]));
        assert(found[i]@ == info_of(nodes[k]));
    }
}

/// Somebody else's hardware makes no difference to what is found.
pub proof fn law_discovery_ignores_other_devices(
    before: Seq<HidNode>,
    other: HidNode,
    after: Seq<HidNode>,
    found: Seq<DeviceInfo>,
)
    requires
        !is_panel(other),
    ensures
        describes(found, before.push(other) + after) <==> describes(found, before + after),
{
    lemma_panels_append(before, after);
    lemma_panels_append(before.push(other), after);
    assert(before.push(other).drop_last() == before);
}

/// What is found depends on the listing alone.
pub proof fn law_discovery_is_determined(
    one: Seq<DeviceInfo>,
    other: Seq<DeviceInfo>,
    nodes: Seq<HidNode>,
)
    requires
        describes(one, nodes),
        describes(other, nodes),
    ensures
        one.len() == other.len(),
        forall|i: int| 0 <= i < one.len() ==> (#[trigger] one[i])@ == other[i]@,
{
    let ours = panels(nodes);
    let keys = node_keys(ours);
    let a = choose|order: Seq<usize>|
        {
            &&& order::is_order(keys, order)
            &&& forall|i: int|
                0 <= i < one.len() ==> #[trigger] one[i]@ == info_of(ours[order[i] as int])
        };
    let b = choose|order: Seq<usize>|
        {
            &&& order::is_order(keys, order)
            &&& forall|i: int|
                0 <= i < other.len() ==> #[trigger] other[i]@ == info_of(ours[order[i] as int])
        };
    order::law_order_is_unique(keys, a, b);
    assert forall|i: int| 0 <= i < one.len() implies (#[trigger] one[i])@ == other[i]@ by {
        assert(other[i]@ == info_of(ours[b[i] as int]));
    }
}

/// The panels come in the order of their node numbers, so that the first one found is the
/// one with the smallest number.
pub proof fn law_discovery_is_in_node_order(found: Seq<DeviceInfo>, nodes: Seq<HidNode>, i: int, j: int)
    requires
        describes(found, nodes),
        0 <= i < j < found.len(),
    ensures
        exists|a: HidNode, b: HidNode|
            {
                &&& nodes.contains(a)
                &&& nodes.contains(b)
                &&& #[trigger] info_of(a) == found[i]@
                &&& #[trigger] info_of(b) == found[j]@
                &&& numbers::node_number(a.node@) <= numbers::node_number(b.node@)
            },
{
    let ours = panels(nodes);
    let keys = node_keys(ours);
    let order = choose|order: Seq<usize>|
        {
            &&& order::is_order(keys, order)
            &&& forall|k: int|
                0 <= k < found.len() ==> #[trigger] found[k]@ == info_of(ours[order[k] as int])
        };
    lemma_panels_are_listed(nodes, order[i] as int);
    lemma_panels_are_listed(nodes, order[j] as int);
    let a = ours[order[i] as int];
    let b = ours[order[j] as int];
    assert(order::precedes(keys, order[i] as int, order[j] as int));
    assert(info_of(a) == found[i]@);
    assert(info_of(b) == found[j]@);
}

/// A `KEY=VALUE` line is found by exactly its key, and reads back as its value.
pub proof fn law_uevent_line_reads_back(key: Seq<char>, value: Seq<char>, rest: Seq<char>)
    requires
        !key.contains('='),
        !key.contains('\n'),
        !value.contains('\n'),
        text::trim_end(value) == value,
    ensures
        value_of(key + seq!['='] + value + seq!['\n'] + rest, key) == Some(value),
{
    let line = key + seq!['='] + value;
    let all = line + seq!['\n'] + rest;
    text::lemma_position_at(all, '\n', line.len() as int);
    assert(all.take(line.len() as int) == line);
    assert(line.last() != '\r') by {
        if value.len() > 0 {
            assert(line.last() == value.last());
            lemma_trimmed_end(value);
        }
    }
    let found = text::lines(all);
    assert(found[0] == line);
    text::lemma_position_at(line, '=', key.len() as int);
    assert(line.take(key.len() as int) == key);
    assert(line.skip(key.len() as int + 1) == value);
}

proof fn lemma_trimmed_end(s: Seq<char>)
    requires
        s.len() > 0,
        text::trim_end(s) == s,
    ensures
        !text::white(s.last()),
{
    if text::white(s.last()) {
        text::lemma_trim_end(s.drop_last());
    }
}

/// A line under another key is passed over.
pub proof fn law_uevent_other_lines_are_passed_over(line: Seq<char>, rest: Seq<char>, key: Seq<char>)
    requires
        !line.contains('\n'),
        !has_key(text::strip_return(line), key),
    ensures
        value_of(line + seq!['\n'] + rest, key) == value_of(rest, key),
{
    let all = line + seq!['\n'] + rest;
    text::lemma_position_at(all, '\n', line.len() as int);
    assert(all.take(line.len() as int) == line);
    assert(all.skip(line.len() as int + 1) == rest);
    let found = text::lines(all);
    assert(found[0] == text::strip_return(line));
    assert(found.skip(1) == text::lines(rest));
}

/// The ids on a `HID_ID` line read back as the numbers that their hexadecimal digits are
/// worth, whatever bus comes first.
pub proof fn law_hid_id_reads_back(
    bus: Seq<char>,
    vendor: Seq<char>,
    product: Seq<char>,
    rest: Seq<char>,
)
    requires
        !bus.contains(':'),
        !bus.contains('\n'),
        numbers::numeral(vendor, 16, u32::MAX as int) is Some,
        numbers::numeral(product, 16, u32::MAX as int) is Some,
    ensures
        ids_of(
            "HID_ID"@ + seq!['='] + (bus + seq![':'] + vendor + seq![':'] + product) + seq!['\n']
                + rest,
        ) == Some((numbers::value(vendor, 16) as u32, numbers::value(product, 16) as u32)),
{
    let v = bus + seq![':'] + vendor + seq![':'] + product;
    lemma_hex_is_plain(vendor);
    lemma_hex_is_plain(product);
    assert("HID_ID"@ =~= seq!['H', 'I', 'D', '_', 'I', 'D']) by {
        reveal_strlit("HID_ID");
    }
    assert(text::trim_end(v) == v) by {
        assert(v.last() == product.last());
        assert(!text::white(v.last())) by {
            assert(numbers::digit(product[product.len() - 1], 16) >= 0);
        }
    }
    assert(!v.contains('\n')) by {
        assert forall|i: int| 0 <= i < v.len() implies v[i] != '\n' by {
            if i < bus.len() {
                assert(bus.contains(bus[i]));
            } else if bus.len() < i < bus.len() + 1 + vendor.len() {
                assert(vendor.contains(vendor[i - bus.len() - 1]));
            } else if i > bus.len() + 1 + vendor.len() {
                assert(product.contains(product[i - bus.len() - vendor.len() - 2]));
            }
        }
    }
    law_uevent_line_reads_back("HID_ID"@, v, rest);

    let tail = vendor + seq![':'] + product;
    text::lemma_position_at(v, ':', bus.len() as int);
    assert(v.skip(bus.len() as int + 1) == tail);
    text::lemma_position_at(tail, ':', vendor.len() as int);
    assert(tail.take(vendor.len() as int) == vendor);
    assert(tail.skip(vendor.len() as int + 1) == product);
    text::lemma_position_absent(product, ':');
    let pieces = text::split(v, ':');
    assert(text::split(product, ':') == seq![product]);
    assert(text::split(tail, ':') == seq![vendor] + seq![product]);
    assert(pieces[1] == vendor);
    assert(pieces[2] == product);
    assert(vendor[0] != '+') by {
        assert(numbers::digit(vendor[0], 16) >= 0);
    }
    assert(product[0] != '+') by {
        assert(numbers::digit(product[0], 16) >= 0);
    }
}

proof fn lemma_hex_is_plain(s: Seq<char>)
    requires
        numbers::all_digits(s, 16),
    ensures
        !s.contains(':'),
        !s.contains('\n'),
{
    assert forall|i: int| 0 <= i < s.len() implies s[i] != ':' && s[i] != '\n' by {
        assert(numbers::digit(s[i], 16) >= 0);
    }
}

/// Whether no two entries of a listing have the same name, as in any directory.
pub open spec fn distinctly_named(nodes: Seq<HidNode>) -> bool {
    forall|i: int, j: int|
        0 <= i < j < nodes.len() ==> (#[trigger] nodes[i]).node@ != (#[trigger] nodes[j]).node@
}

proof fn lemma_panels_keep_order(nodes: Seq<HidNode>, i: int, j: int) -> (r: (int, int))
    requires
        0 <= i < j < panels(nodes).len(),
    ensures
        0 <= r.0 < r.1 < nodes.len(),
        nodes[r.0] == panels(nodes)[i],
        nodes[r.1] == panels(nodes)[j],
    decreases nodes.len(),
{
    let rest = nodes.drop_last();
    if j < panels(rest).len() {
        lemma_panels_keep_order(rest, i, j)
    } else {
        lemma_panels_are_listed(rest, i);
        let k = choose|k: int| 0 <= k < rest.len() && rest[k] == panels(rest)[i];
        (k, nodes.len() - 1)
    }
}

proof fn lemma_found_nodes(found: Seq<DeviceInfo>, nodes: Seq<HidNode>) -> (sorted: Seq<HidNode>)
    requires
        describes(found, nodes),
        distinctly_named(nodes),
    ensures
        sorted.len() == found.len(),
        order::ascending(node_keys(sorted)),
        forall|i: int| 0 <= i < found.len() ==> (#[trigger] found[i])@ == info_of(sorted[i]),
        forall|n: HidNode| #[trigger] sorted.contains(n) <==> nodes.contains(n) && is_panel(n),
{
    let ours = panels(nodes);
    let keys = node_keys(ours);
    let order = choose|order: Seq<usize>|
        {
            &&& order::is_order(keys, order)
            &&& forall|i: int|
                0 <= i < found.len() ==> #[trigger] found[i]@ == info_of(ours[order[i] as int])
        };
    let sorted = Seq::new(found.len(), |i: int| ours[order[i] as int]);
    assert forall|i: int, j: int| 0 <= i < j < sorted.len() implies #[trigger] order::key_lt(
        node_keys(sorted)[i],
        node_keys(sorted)[j],
    ) by {
        let (a, b) = (order[i] as int, order[j] as int);
        assert(order::precedes(keys, a, b));
        if a < b {
            let (k, l) = lemma_panels_keep_order(nodes, a, b);
            assert(nodes[k].node@ != nodes[l].node@);
        }
    }
    assert forall|n: HidNode| #[trigger] sorted.contains(n) implies nodes.contains(n) && is_panel(n) by {
        let i = choose|i: int| 0 <= i < sorted.len() && sorted[i] == n;
        lemma_panels_are_listed(nodes, order[i] as int);
    }
    assert forall|n: HidNode| nodes.contains(n) && is_panel(n) implies #[trigger] sorted.contains(n) by {
        let k = choose|k: int| 0 <= k < nodes.len() && nodes[k] == n;
        let at = lemma_listed_panel(nodes, k);
        order::law_order_lists_every_entry(keys, order, at);
        let i = choose|i: int| 0 <= i < order.len() && order[i] == at;
        assert(sorted[i] == n);
    }
    sorted
}

/// The order in which the kernel lists the nodes makes no difference to what is found.
pub proof fn law_listing_order_is_irrelevant(
    one: Seq<DeviceInfo>,
    nodes: Seq<HidNode>,
    other: Seq<DeviceInfo>,
    shuffled: Seq<HidNode>,
)
    requires
        describes(one, nodes),
        describes(other, shuffled),
        distinctly_named(nodes),
        distinctly_named(shuffled),
        forall|n: HidNode| nodes.contains(n) <==> shuffled.contains(n),
    ensures
        one.len() == other.len(),
        forall|i: int| 0 <= i < one.len() ==> (#[trigger] one[i])@ == other[i]@,
{
    let a = lemma_found_nodes(one, nodes);
    let b = lemma_found_nodes(other, shuffled);
    let (x, y) = (node_keys(a), node_keys(b));
    assert forall|k: order::KeyView| x.contains(k) implies y.contains(k) by {
        let i = choose|i: int| 0 <= i < x.len() && x[i] == k;
        assert(a.contains(a[i]));
        assert(b.contains(a[i]));
        let j = choose|j: int| 0 <= j < b.len() && b[j] == a[i];
        assert(y[j] == k);
    }
    assert forall|k: order::KeyView| y.contains(k) implies x.contains(k) by {
        let j = choose|j: int| 0 <= j < y.len() && y[j] == k;
        assert(b.contains(b[j]));
        assert(a.contains(b[j]));
        let i = choose|i: int| 0 <= i < a.len() && a[i] == b[j];
        assert(x[i] == k);
    }
    order::law_ascending_keys_are_unique(x, y);
    assert(x.len() == y.len());
    assert forall|i: int| 0 <= i < one.len() implies (#[trigger] one[i])@ == other[i]@ by {
        assert(other[i]@ == info_of(b[i]));
        assert(x[i] == y[i]);
        assert(a.contains(a[i]) && b.contains(b[i]));
        let k = choose|k: int| 0 <= k < nodes.len() && nodes[k] == a[i];
        let l = choose|l: int| 0 <= l < nodes.len() && nodes[l] == b[i];
        if k < l {
            assert(nodes[k].node@ != nodes[l].node@);
        } else if l < k {
            assert(nodes[l].node@ != nodes[k].node@);
        }
    }
}

proof fn lemma_has_key(line: Seq<char>, key: Seq<char>)
    requires
        !key.contains('='),
    ensures
        has_key(line, key) <==> text::starts_with(line, key + seq!['=']),
{
    text::lemma_position(line, '=');
    let n = text::position(line, '=');
    let lead = key + seq!['='];
    if has_key(line, key) {
        assert(line.take(n + 1) == lead);
    }
    if text::starts_with(line, lead) {
        text::law_prefixes_and_suffixes(line, lead);
        let rest = line.skip(lead.len() as int);
        assert forall|i: int| 0 <= i < key.len() implies line[i] != '=' by {
            assert(line[i] == key[i]);
            assert(key.contains(key[i]));
        }
        assert(line[key.len() as int] == '=');
        text::lemma_position_at(line, '=', key.len() as int);
        assert(line.take(key.len() as int) == key);
    }
}

proof fn lemma_lookup_after(others: Seq<Seq<char>>, found: Seq<Seq<char>>, key: Seq<char>)
    requires
        !key.contains('='),
        others.len() <= found.len(),
        forall|i: int|
            0 <= i < others.len() ==> !text::starts_with(#[trigger] others[i], key + seq!['='])
                && (found[i] == others[i] || others[i] == found[i] + seq!['\r']),
    ensures
        lookup(found, key) == lookup(found.skip(others.len() as int), key),
    decreases others.len(),
{
    if others.len() == 0 {
        assert(found.skip(0) == found);
    } else {
        let lead = key + seq!['='];
        assert(!text::starts_with(others[0], lead));
        lemma_has_key(found[0], key);
        if text::starts_with(found[0], lead) {
            assert(others[0].take(lead.len() as int) == found[0].take(lead.len() as int));
        }
        let (a, b) = (others.skip(1), found.skip(1));
        assert forall|i: int| 0 <= i < a.len() implies !text::starts_with(#[trigger] a[i], lead) && (
        b[i] == a[i] || a[i] == b[i] + seq!['\r']) by {
            assert(a[i] == others[i + 1]);
        }
        lemma_lookup_after(a, b, key);
        assert(b.skip(a.len() as int) == found.skip(others.len() as int));
    }
}

/// The value of a key is what follows the equals sign on the first line that starts with the
/// key and an equals sign, wherever that line stands, without the white space at its end. A
/// text without such a line has no value for the key.
#[verifier::rlimit(60)]
pub proof fn law_value_of_a_key(
    others: Seq<Seq<char>>,
    key: Seq<char>,
    value: Seq<char>,
    after: Seq<char>,
    rest: Seq<char>,
)
    requires
        !key.contains('='),
        !key.contains('\n'),
        forall|i: int|
            0 <= i < others.len() ==> !(#[trigger] others[i]).contains('\n') && !text::starts_with(
                others[i],
                key + seq!['='],
            ),
        !value.contains('\n'),
        value.len() > 0 ==> !text::white(value.last()),
        forall|i: int| 0 <= i < after.len() ==> text::white(#[trigger] after[i]) && after[i] != '\n',
    ensures
        value_of(
            text::terminated(others) + (key + seq!['='] + value + after) + seq!['\n'] + rest,
            key,
        ) == Some(value),
        value_of(text::terminated(others), key) is None,
{
    let lead = key + seq!['='];
    let line = key + seq!['='] + value + after;
    let tail = line + seq!['\n'] + rest;
    let all = text::terminated(others) + line + seq!['\n'] + rest;
    assert(all == text::terminated(others) + tail);
    assert forall|i: int| 0 <= i < others.len() implies !(#[trigger] others[i]).contains('\n') by {
    }
    text::law_terminated_lines_read_back(others, tail);
    let found = text::lines(all);
    assert forall|i: int| 0 <= i < others.len() implies !text::starts_with(
        #[trigger] others[i],
        lead,
    ) && (found[i] == others[i] || others[i] == found[i] + seq!['\r']) by {
        let l = text::lines(text::terminated(others) + tail)[i];
        assert(l == found[i]);
    }
    lemma_lookup_after(others, found, key);
    // The line itself.
    assert(!line.contains('\n')) by {
        if line.contains('\n') {
            let i = choose|i: int| 0 <= i < line.len() && line[i] == '\n';
            let n = key.len() as int;
            if i < n {
                assert(key.contains(key[i]));
            } else if n < i < n + 1 + value.len() {
                assert(value.contains(value[i - n - 1]));
            } else if i > n + value.len() {
                assert(after[i - n - 1 - value.len()] != '\n');
            }
        }
    }
    let cut = text::strip_return(line);
    let kept = if line.len() > 0 && line.last() == '\r' {
        after.drop_last()
    } else {
        after
    };
    if line.last() == '\r' {
        if after.len() == 0 {
            if value.len() > 0 {
                assert(line.last() == value.last());
            }
            assert(false);
        }
        assert(line == cut + seq!['\r']);
        assert(line + seq!['\n'] + rest == cut + seq!['\r', '\n'] + rest);
        assert(!cut.contains('\n')) by {
            if cut.contains('\n') {
                let i = choose|i: int| 0 <= i < cut.len() && cut[i] == '\n';
                assert(line[i] == '\n');
            }
        }
    }
    text::law_lines_end_at_line_feeds(cut, rest);
    assert(text::lines(tail)[0] == cut);
    assert(cut == lead + (value + kept));
    text::law_prefixes_and_suffixes(value + kept, lead);
    lemma_has_key(cut, key);
    assert(cut.skip(key.len() as int + 1) == value + kept);
    assert forall|i: int| 0 <= i < kept.len() implies text::white(#[trigger] kept[i]) by {
        assert(kept[i] == after[i]);
    }
    text::law_trim_end_removes_white_space_only(value, kept);
    // A text without such a line.
    let none = Seq::<char>::empty();
    let plain = text::terminated(others);
    assert(plain + none == plain);
    text::law_terminated_lines_read_back(others, none);
    let lines = text::lines(plain);
    assert forall|i: int| 0 <= i < others.len() implies !text::starts_with(
        #[trigger] others[i],
        lead,
    ) && (lines[i] == others[i] || others[i] == lines[i] + seq!['\r']) by {
        let l = text::lines(plain + none)[i];
        assert(l == lines[i]);
    }
    lemma_lookup_after(others, lines, key);
    assert(text::lines(none).len() == 0);
}

/// The ids of a `HID_ID` value are the second and third of the pieces that colons part,
/// whatever the first is and whatever follows them; there are none where there are fewer
/// pieces, or where one of the two is not a hexadecimal number of 32 bits.
pub proof fn law_ids_are_the_second_and_third_piece(
    bus: Seq<char>,
    vendor: Seq<char>,
    product: Seq<char>,
    more: Seq<char>,
)
    requires
        !bus.contains(':'),
        !vendor.contains(':'),
        !product.contains(':'),
    ensures
        ({
            let x = numbers::unsigned(vendor, 16, 0xFFFF_FFFF);
            let y = numbers::unsigned(product, 16, 0xFFFF_FFFF);
            let ids = if x is Some && y is Some {
                Some((x->0 as u32, y->0 as u32))
            } else {
                None
            };
            let short = bus + seq![':'] + vendor;
            let v = short + seq![':'] + product;
            &&& ids_among(text::split(v, ':')) == ids
            &&& ids_among(text::split(v + seq![':'] + more, ':')) == ids
            &&& ids_among(text::split(short, ':')) is None
            &&& ids_among(text::split(bus, ':')) is None
        }),
{
    let short = bus + seq![':'] + vendor;
    let v = short + seq![':'] + product;
    text::law_split_undoes_joining(bus, ':', vendor);
    text::law_split_undoes_joining(vendor, ':', product);
    text::law_split_undoes_joining(product, ':', more);
    assert(v == bus + seq![':'] + (vendor + seq![':'] + product));
    text::law_split_undoes_joining(bus, ':', vendor + seq![':'] + product);
    let tail = product + seq![':'] + more;
    assert(v + seq![':'] + more == bus + seq![':'] + (vendor + seq![':'] + tail));
    text::law_split_undoes_joining(vendor, ':', tail);
    text::law_split_undoes_joining(bus, ':', vendor + seq![':'] + tail);
    let p = text::split(v, ':');
    let q = text::split(v + seq![':'] + more, ':');
    assert(p[1] == vendor && p[2] == product);
    assert(q[1] == vendor && q[2] == product);
}

/// Whether a node's `uevent` gives the panel's ids under `HID_ID`: vendor `381c` and product
/// `0003`.
pub open spec fn gives_panel_ids(n: HidNode) -> bool {
    n.uevent matches Some(u) && value_of(u@, "HID_ID"@) matches Some(v) && ids_among(
        text::split(v, ':'),
    ) == Some((0x381Cu32, 0x0003u32))
}

/// What is found, by what the nodes' own files say: every node that gives the panel's ids,
/// and no other, each at its place under `/dev`, by its `HID_NAME` and its `HID_UNIQ`, where
/// these say anything.
#[verifier::rlimit(60)]
pub proof fn law_panels_are_found_by_their_ids(
    found: Seq<DeviceInfo>,
    nodes: Seq<HidNode>,
    k: int,
    i: int,
)
    requires
        describes(found, nodes),
    ensures
        0 <= k < nodes.len() && gives_panel_ids(nodes[k]) ==> exists|at: int|
            0 <= at < found.len() && #[trigger] tells_of(found[at], nodes[k]),
        0 <= i < found.len() ==> exists|at: int|
            0 <= at < nodes.len() && gives_panel_ids(nodes[at]) && #[trigger] tells_of(
                found[i],
                nodes[at],
            ),
{
    law_discovery_finds_exactly_the_panels(found, nodes);
    if 0 <= k < nodes.len() && gives_panel_ids(nodes[k]) {
        assert(is_panel(nodes[k]));
        let at = choose|at: int| 0 <= at < found.len() && found[at]@ == info_of(nodes[k]);
        lemma_tells_of(found[at], nodes[k]);
    }
    if 0 <= i < found.len() {
        let at = choose|at: int|
            0 <= at < nodes.len() && is_panel(#[trigger] nodes[at]) && found[i]@ == info_of(
                nodes[at],
            );
        assert(found[i]@ == info_of(nodes[at]));
        lemma_tells_of(found[i], nodes[at]);
    }
}

proof fn lemma_tells_of(d: DeviceInfo, n: HidNode)
    requires
        n.uevent is Some,
        d@ == info_of(n),
    ensures
        tells_of(d, n),
{
}

/// Whether a description tells of a node: where it is, what its `HID_NAME` says, nothing where
/// there is none, and what its `HID_UNIQ` says, if it says anything.
pub open spec fn tells_of(d: DeviceInfo, n: HidNode) -> bool {
    &&& d.path@ == "/dev/"@ + n.node@
    &&& n.uevent matches Some(u) && {
        &&& value_of(u@, "HID_NAME"@) matches Some(name) ==> d.name@ == name
        &&& value_of(u@, "HID_NAME"@) is None ==> d.name@.len() == 0
        &&& d.serial matches Some(s) ==> s@.len() > 0 && value_of(u@, "HID_UNIQ"@) == Some(s@)
        &&& d.serial is None ==> (value_of(u@, "HID_UNIQ"@) matches Some(s) ==> s.len() == 0)
    }
}

/// Panels of distinct nodes are found once each, the smaller node number first and, among
/// equal numbers, the name that comes first.
pub proof fn law_found_panels_ascend(found: Seq<DeviceInfo>, nodes: Seq<HidNode>, i: int, j: int)
    requires
        describes(found, nodes),
        distinctly_named(nodes),
        0 <= i < j < found.len(),
    ensures
        exists|a: Seq<char>, b: Seq<char>|
            {
                &&& found[i].path@ == #[trigger] ("/dev/"@ + a)
                &&& found[j].path@ == #[trigger] ("/dev/"@ + b)
                &&& numbers::node_number(a) < numbers::node_number(b) || (numbers::node_number(a)
                    == numbers::node_number(b) && order::name_lt(a, b))
            },
        found[i].path@ != found[j].path@,
{
    let sorted = lemma_found_nodes(found, nodes);
    let (a, b) = (sorted[i].node@, sorted[j].node@);
    let keys = node_keys(sorted);
    assert(order::key_lt(keys[i], keys[j]));
    order::lemma_key_lt_asymmetric(keys[i], keys[j]);
    assert(found[i]@ == info_of(sorted[i]) && found[j]@ == info_of(sorted[j]));
    assert(found[i].path@ == "/dev/"@ + a);
    assert(found[j].path@ == "/dev/"@ + b);
    assert(a != b);
    let n = "/dev/"@.len() as int;
    assert(("/dev/"@ + a).skip(n) == a);
    assert(("/dev/"@ + b).skip(n) == b);
}

/// A node that was asked for is described as it was found, by the first description whose path
/// is the same; where no description has that path, nothing but the path is known.
pub proof fn law_asked_node_is_used(found: Seq<DeviceInfo>, path: Seq<char>, k: int)
    requires
        0 <= k <= found.len(),
        forall|i: int| 0 <= i < k ==> !paths::equivalent((#[trigger] found[i]).path@, path),
    ensures
        k < found.len() && paths::equivalent(found[k].path@, path) ==> located(found, path)
            == found[k]@,
        k == found.len() ==> located(found, path).path == path && located(found, path).name.len()
            == 0 && located(found, path).serial is None,
    decreases k,
{
    if k > 0 {
        assert(!paths::equivalent(found[0].path@, path));
        let rest = found.skip(1);
        assert forall|i: int| 0 <= i < k - 1 implies !paths::equivalent(
            (#[trigger] rest[i]).path@,
            path,
        ) by {
            assert(rest[i] == found[i + 1]);
        }
        law_asked_node_is_used(rest, path, k - 1);
    }
}

/// Only four error numbers mean that the device left the bus: 5, 6, 19 and 32.
pub proof fn law_four_numbers_mean_gone(n: i32)
    ensures
        gone(Some(n)) <==> set![5i32, 6i32, 19i32, 32i32].contains(n),
        !gone(None),
{
}

/// Every error names the node it is about, and says what became of it in the same words for
/// any node.
pub proof fn law_errors_name_the_path(path: String, source: IoFailure, wrote: usize)
    ensures
        error_text(Error::NotFound) == "no SK700V (381c:0003) found \u{2014} is usbhid bound to it?"@,
        error_text(Error::Access { path, source }) == "no write access to "@ + path@
            + " \u{2014} install packaging/99-sudokoo.rules, or run as root"@,
        error_text(Error::Io { path, source }) == path@ + ": "@ + source.message@,
        error_text(Error::ShortWrite { path, wrote }) == path@ + ": wrote "@ + numbers::decimal(
            wrote as nat,
        ) + " of "@ + numbers::decimal(64) + " bytes; the frame was truncated"@,
{
}

} // verus!
