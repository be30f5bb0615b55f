//! Wire frames for the Sudokoo SK700V panel.
//!
//! Every frame is a 64-byte HID output report: the report id `0x10` followed by a
//! DL/T-645-style message padded with zeros.
//!
//! ```text
//! 10 | 68 <addr=01> <ctrl=09> <len> <data ...> <cs> 16 | 00 ...
//!      len = number of data bytes following the length field
//!      cs  = sum(0x68 .. last data byte) & 0xFF        (a plain byte sum, not a CRC)
//! ```
//!
//! The first data byte selects the operation; see [`OP_DISPLAY`] and [`OP_SET_UNIT`].
//! Multi-byte integers are big-endian and the temperature is a raw big-endian IEEE-754
//! single, which this module handles as its 32 bits.

use vstd::prelude::*;

use crate::floats;

verus! {

/// HID report id every frame is sent under.
pub const REPORT_ID: u8 = 0x10;

/// Device address. The panel is always 1; nothing else shares the bus.
pub const ADDR: u8 = 0x01;

/// Control byte, constant across every frame.
pub const CTRL: u8 = 0x09;

/// Frame start delimiter.
pub const START: u8 = 0x68;

/// Frame end delimiter.
pub const END: u8 = 0x16;

/// Every report is padded to the endpoint's 64-byte packet size.
pub const REPORT_LEN: usize = 64;

/// Report id, start, address, control, length, checksum and terminator.
pub const OVERHEAD: usize = 7;

/// Largest payload that still fits in one report. Far more than any frame needs.
pub const MAX_DATA: usize = REPORT_LEN - OVERHEAD;

/// Display operation. The second data byte then selects open, close or sensor report.
pub const OP_DISPLAY: u8 = 0x01;

/// Set the temperature unit shown on the panel.
pub const OP_SET_UNIT: u8 = 0x03;

/// Second data byte of a display operation that blanks the panel.
pub const MODE_CLOSE: u8 = 0x00;

/// Second data byte of a display operation that wakes the panel.
pub const MODE_OPEN: u8 = 0x01;

/// Second data byte of a display operation that carries sensor values.
pub const MODE_REPORT: u8 = 0x02;

/// The 11-byte payload shared by the open and close frames.
///
/// Its fields are not decoded (likely brightness, rotation and the bar-graph ranges) and
/// it is passed through unchanged.
pub const PANEL_PAYLOAD: [u8; 11] = [
    0x00, 0x64, 0x32, 0x00, 0x42, 0x70, 0x00, 0x00, 0x28, 0x0E, 0x10,
];

/// Temperature unit the panel labels its reading with.
#[derive(Debug, Clone, Copy, PartialEq, Eq, Structural)]
pub enum Unit {
    Celsius,
    Fahrenheit,
}

impl Default for Unit {
    fn default() -> (unit: Unit)
        ensures
            unit == Unit::Celsius,
    {
        Unit::Celsius
    }
}

/// The wire encoding of a unit.
pub open spec fn unit_byte(unit: Unit) -> u8 {
    match unit {
        Unit::Celsius => 0x00,
        Unit::Fahrenheit => 0x01,
    }
}

impl Unit {
    /// The unit's wire encoding, used both by [`set_unit`] and inside a sensor frame.
    pub fn as_byte(self) -> (b: u8)
        ensures
            b == unit_byte(self),
    {
        match self {
            Unit::Celsius => 0x00,
            Unit::Fahrenheit => 0x01,
        }
    }
}

/// The four values the panel displays, plus the undisplayed load bar.
#[derive(Debug, Clone, Copy)]
pub struct Sensors {
    /// CPU temperature as the bits of a single-precision float, already converted to the
    /// unit the frame is built with.
    pub temp: u32,
    /// CPU utilisation, percent.
    pub usage: u8,
    /// Package power, watts.
    pub power: u16,
    /// Core frequency, MHz.
    pub freq: u16,
    /// Power as a percentage of TDP. Believed to drive a bar graph.
    pub ratio: u8,
}

/// Values are equal as the numbers that they are: the temperature as a float.
impl PartialEq for Sensors {
    fn eq(&self, other: &Sensors) -> (r: bool) {
        floats::is_equal(self.temp, other.temp) && self.usage == other.usage && self.power
            == other.power && self.freq == other.freq && self.ratio == other.ratio
    }
}

impl vstd::std_specs::cmp::PartialEqSpecImpl for Sensors {
    open spec fn obeys_eq_spec() -> bool {
        true
    }

    open spec fn eq_spec(&self, other: &Sensors) -> bool {
        floats::equal(self.temp, other.temp) && self.usage == other.usage && self.power
            == other.power && self.freq == other.freq && self.ratio == other.ratio
    }
}

impl Default for Sensors {
    fn default() -> (s: Sensors)
        ensures
            s == (Sensors { temp: 0, usage: 0, power: 0, freq: 0, ratio: 0 }),
    {
        Sensors { temp: 0, usage: 0, power: 0, freq: 0, ratio: 0 }
    }
}

/// One complete HID output report, padded and ready to write to the hidraw node.
#[derive(Debug, Clone, Copy, PartialEq, Eq)]
pub struct Report([u8; REPORT_LEN]);

impl View for Report {
    type V = Seq<u8>;

    closed spec fn view(&self) -> Seq<u8> {
        self.0@
    }
}

impl Report {
    /// The bytes to write to the device, report id first.
    pub fn as_bytes(&self) -> (bytes: &[u8; REPORT_LEN])
        ensures
            bytes@ == self@,
    {
        &self.0
    }
}

impl AsRef<[u8]> for Report {
    fn as_ref(&self) -> (bytes: &[u8])
        ensures
            bytes@ == self@,
    {
        &self.0
    }
}

/// The sum of all bytes of `s`.
pub open spec fn byte_sum(s: Seq<u8>) -> int
    decreases s.len(),
{
    if s.len() == 0 {
        0
    } else {
        byte_sum(s.drop_last()) + s.last()
    }
}

/// What precedes the data in a report.
pub open spec fn header(len: nat) -> Seq<u8> {
    seq![REPORT_ID, START, ADDR, CTRL, len as u8]
}

/// The report that carries `data`.
pub open spec fn frame(data: Seq<u8>) -> Seq<u8>
    recommends
        data.len() <= MAX_DATA,
{
    let checked = header(data.len()) + data;
    let sum = (byte_sum(checked.skip(1)) % 256) as u8;
    checked + seq![sum, END] + Seq::new((MAX_DATA - data.len()) as nat, |i: int| 0u8)
}

/// The data of a sensor report.
pub open spec fn sensor_data(s: Sensors, unit: Unit) -> Seq<u8> {
    seq![OP_DISPLAY, MODE_REPORT]
        + be16(s.power)
        + seq![s.ratio, unit_byte(unit)]
        + be32(s.temp)
        + seq![s.usage]
        + be16(s.freq)
}

/// The data of a frame that opens or closes the panel.
pub open spec fn display_data(mode: u8) -> Seq<u8> {
    seq![OP_DISPLAY, mode] + PANEL_PAYLOAD@
}

/// The data of a frame that sets the unit label.
pub open spec fn unit_data(unit: Unit) -> Seq<u8> {
    seq![OP_SET_UNIT, unit_byte(unit)]
}

/// The bytes of `v`, most significant first.
pub open spec fn be16(v: u16) -> Seq<u8> {
    seq![(v / 0x100) as u8, (v % 0x100) as u8]
}

/// The bytes of `v`, most significant first.
pub open spec fn be32(v: u32) -> Seq<u8> {
    be16((v / 0x1_0000) as u16) + be16((v % 0x1_0000) as u16)
}

/// The framing every report keeps: the fixed bytes, a length field that counts the data
/// bytes, a checksum that is the byte sum from the start delimiter through the last data
/// byte, the terminator, and nothing but padding after it.
pub open spec fn well_framed(report: Seq<u8>) -> bool {
    let len = report[4] as int;
    &&& report.len() == REPORT_LEN
    &&& report[0] == REPORT_ID
    &&& report[1] == START
    &&& report[2] == ADDR
    &&& report[3] == CTRL
    &&& len <= MAX_DATA
    &&& report[5 + len] == byte_sum(report.subrange(1, 5 + len)) % 256
    &&& report[6 + len] == END
    &&& forall|i: int| 7 + len <= i < REPORT_LEN ==> report[i] == 0
}

/// The data bytes of a report.
pub open spec fn data_of(report: Seq<u8>) -> Seq<u8> {
    report.subrange(5, 5 + report[4])
}

/// Wrap `data` in the frame delimiters, checksum it and pad to a full report.
fn build<const N: usize>(data: [u8; N]) -> (report: Report)
    requires
        N <= MAX_DATA,
    ensures
        report@ == frame(data@),
        well_framed(report@),
        data_of(report@) == data@,
{
    let mut report = [0u8; REPORT_LEN];
    report[0] = REPORT_ID;
    report[1] = START;
    report[2] = ADDR;
    report[3] = CTRL;
    report[4] = N as u8;
    let mut i: usize = 0;
    while i < N
        invariant
            i <= N <= MAX_DATA,
            report@.len() == REPORT_LEN,
            report@.take(5) == header(N as nat),
            forall|j: int| 0 <= j < i ==> report@[5 + j] == data@[j],
            forall|j: int| 5 + i <= j < REPORT_LEN ==> report@[j] == 0,
        decreases N - i,
    {
        let ghost before = report@;
        report[5 + i] = data[i];
        i = i + 1;
        assert(report@.take(5) == before.take(5));
    }
    let ghost filled = report@;
    let ghost checked = header(N as nat) + data@;
    assert(filled.take(5 + N as int) == checked) by {
        assert forall|j: int| 0 <= j < 5 implies filled[j] == header(N as nat)[j] by {
            assert(filled.take(5)[j] == filled[j]);
        }
    }

    // The checksum covers the framing from START through the last data byte, but not
    // the report id, which never reaches the wire as part of the message.
    let mut checksum: u8 = 0;
    let mut k: usize = 1;
    while k < 5 + N
        invariant
            1 <= k <= 5 + N,
            N <= MAX_DATA,
            report@ == filled,
            filled.len() == REPORT_LEN,
            checksum == byte_sum(filled.subrange(1, k as int)) % 256,
        decreases 5 + N - k,
    {
        proof {
            let upto = filled.subrange(1, k as int + 1);
            assert(upto.drop_last() == filled.subrange(1, k as int));
            assert(upto.last() == filled[k as int]);
        }
        checksum = checksum.wrapping_add(report[k]);
        k = k + 1;
    }
    assert(filled.subrange(1, 5 + N as int) == checked.skip(1));
    report[5 + N] = checksum;
    report[6 + N] = END;
    proof {
        assert(report@ == frame(data@));
        law_frame_is_well_framed(data@);
    }
    Report(report)
}

/// Concatenate the display opcode, a mode byte and the opaque panel payload.
fn display_frame(mode: u8) -> (report: Report)
    ensures
        report@ == frame(display_data(mode)),
        well_framed(report@),
        data_of(report@) == display_data(mode),
{
    let p = PANEL_PAYLOAD;
    let data: [u8; 13] = [
        OP_DISPLAY, mode, p[0], p[1], p[2], p[3], p[4], p[5], p[6], p[7], p[8], p[9], p[10],
    ];
    assert(data@ == display_data(mode));
    build(data)
}

/// Wake the panel. Must be sent once before any sensor report; the device powers up
/// closed.
pub fn open() -> (report: Report)
    ensures
        report@ == frame(display_data(MODE_OPEN)),
        well_framed(report@),
        data_of(report@) == display_data(MODE_OPEN),
{
    display_frame(MODE_OPEN)
}

/// Blank the panel.
pub fn close() -> (report: Report)
    ensures
        report@ == frame(display_data(MODE_CLOSE)),
        well_framed(report@),
        data_of(report@) == display_data(MODE_CLOSE),
{
    display_frame(MODE_CLOSE)
}

/// Set the unit label. The temperature in a sensor frame is not converted by the device,
/// so the caller must convert it to match.
pub fn set_unit(unit: Unit) -> (report: Report)
    ensures
        report@ == frame(unit_data(unit)),
        well_framed(report@),
        data_of(report@) == unit_data(unit),
{
    let data: [u8; 2] = [OP_SET_UNIT, unit.as_byte()];
    assert(data@ == unit_data(unit));
    build(data)
}

/// A sensor report. Send these at about 1 Hz: the firmware blanks the panel a few seconds
/// after the last frame it accepted.
pub fn sensor(s: &Sensors, unit: Unit) -> (report: Report)
    ensures
        report@ == frame(sensor_data(*s, unit)),
        well_framed(report@),
        data_of(report@) == sensor_data(*s, unit),
{
    let high: u16 = (s.temp / 0x1_0000) as u16;
    let low: u16 = (s.temp % 0x1_0000) as u16;
    let data: [u8; 13] = [
        OP_DISPLAY,
        MODE_REPORT,
        (s.power / 0x100) as u8,
        (s.power % 0x100) as u8,
        s.ratio,
        unit.as_byte(),
        (high / 0x100) as u8,
        (high % 0x100) as u8,
        (low / 0x100) as u8,
        (low % 0x100) as u8,
        s.usage,
        (s.freq / 0x100) as u8,
        (s.freq % 0x100) as u8,
    ];
    assert(data@ == sensor_data(*s, unit));
    build(data)
}

/// Every report made of a payload that fits keeps the framing, and its data bytes are the
/// payload it was made of.
pub proof fn law_frame_is_well_framed(data: Seq<u8>)
    requires
        data.len() <= MAX_DATA,
    ensures
        well_framed(frame(data)),
        data_of(frame(data)) == data,
{
    let report = frame(data);
    let len = data.len() as int;
    assert(report.len() == REPORT_LEN);
    assert(report[4] == len);
    assert(report.subrange(1, 5 + len) == (header(data.len()) + data).skip(1));
    assert(data_of(report) == data);
}

/// A well-framed report is determined by its data bytes: the framing adds nothing that a
/// receiver would have to be told.
pub proof fn law_well_framed_is_a_frame(report: Seq<u8>)
    requires
        well_framed(report),
    ensures
        data_of(report).len() <= MAX_DATA,
        report == frame(data_of(report)),
{
    let data = data_of(report);
    let len = report[4] as int;
    assert(data.len() == len);
    assert(report.subrange(1, 5 + len) == (header(data.len()) + data).skip(1));
    assert(report == frame(data));
}

/// Two sensor reports are equal only if they were made of the same values and unit: every
/// displayed value can be read back from the frame.
pub proof fn law_sensor_values_survive(s: Sensors, unit: Unit, t: Sensors, other: Unit)
    ensures
        frame(sensor_data(s, unit)) == frame(sensor_data(t, other)) ==> s == t && unit == other,
{
    if frame(sensor_data(s, unit)) == frame(sensor_data(t, other)) {
        law_frame_is_well_framed(sensor_data(s, unit));
        law_frame_is_well_framed(sensor_data(t, other));
        let a = sensor_data(s, unit);
        let b = sensor_data(t, other);
        assert(a == b);
        law_sensor_fields(s, unit);
        law_sensor_fields(t, other);
    }
}

/// The fields of a sensor report stand at fixed positions of its data, big-endian.
pub proof fn law_sensor_fields(s: Sensors, unit: Unit)
    ensures
        ({
            let d = sensor_data(s, unit);
            &&& d.len() == 13
            &&& d[0] == OP_DISPLAY
            &&& d[1] == MODE_REPORT
            &&& d[2] * 0x100 + d[3] == s.power
            &&& d[4] == s.ratio
            &&& d[5] == unit_byte(unit)
            &&& d[6] * 0x100_0000 + d[7] * 0x1_0000 + d[8] * 0x100 + d[9] == s.temp
            &&& d[10] == s.usage
            &&& d[11] * 0x100 + d[12] == s.freq
        }),
{
}

/// No two of the four kinds of frame can be mistaken for one another.
pub proof fn law_kinds_are_distinct(s: Sensors, unit: Unit, label: Unit)
    ensures
        frame(display_data(MODE_OPEN)) != frame(display_data(MODE_CLOSE)),
        frame(display_data(MODE_OPEN)) != frame(unit_data(label)),
        frame(display_data(MODE_OPEN)) != frame(sensor_data(s, unit)),
        frame(display_data(MODE_CLOSE)) != frame(unit_data(label)),
        frame(display_data(MODE_CLOSE)) != frame(sensor_data(s, unit)),
        frame(unit_data(label)) != frame(sensor_data(s, unit)),
{
    law_frame_is_well_framed(display_data(MODE_OPEN));
    law_frame_is_well_framed(display_data(MODE_CLOSE));
    law_frame_is_well_framed(unit_data(label));
    law_frame_is_well_framed(sensor_data(s, unit));
    assert(display_data(MODE_OPEN)[1] == MODE_OPEN);
    assert(display_data(MODE_CLOSE)[1] == MODE_CLOSE);
    assert(display_data(MODE_OPEN)[0] == OP_DISPLAY);
    assert(display_data(MODE_CLOSE)[0] == OP_DISPLAY);
    assert(unit_data(label)[0] == OP_SET_UNIT);
    assert(sensor_data(s, unit)[0] == OP_DISPLAY);
    assert(sensor_data(s, unit)[1] == MODE_REPORT);
}

proof fn lemma_byte_sum_is_fold(s: Seq<u8>)
    ensures
        byte_sum(s) == s.fold_left(0int, |total: int, b: u8| total + b),
    decreases s.len(),
{
    if s.len() > 0 {
        lemma_byte_sum_is_fold(s.drop_last());
    }
}

/// A report is, byte for byte: `10 68 01 09`, the number of data bytes, the data, the sum of
/// everything from the `68` on modulo 256, `16`, and zeros up to 64 bytes.
pub proof fn law_report_layout(data: Seq<u8>)
    requires
        data.len() <= 57,
    ensures
        ({
            let r = frame(data);
            let n = data.len() as int;
            &&& r.len() == 64
            &&& r[0] == 0x10
            &&& r[1] == 0x68
            &&& r[2] == 0x01
            &&& r[3] == 0x09
            &&& r[4] == n
            &&& r.subrange(5, 5 + n) == data
            &&& r[5 + n] == r.subrange(1, 5 + n).fold_left(0int, |total: int, b: u8| total + b)
                % 256
            &&& r[6 + n] == 0x16
            &&& forall|i: int| 7 + n <= i < 64 ==> r[i] == 0
        }),
{
    law_frame_is_well_framed(data);
    lemma_byte_sum_is_fold(frame(data).subrange(1, 5 + data.len() as int));
}

/// The frames that open and close the panel differ in their second data byte alone, and the
/// unit frame holds nothing but its operation and the unit.
pub proof fn law_control_data(unit: Unit)
    ensures
        display_data(MODE_OPEN).len() == 13,
        display_data(MODE_OPEN)[0] == 0x01,
        display_data(MODE_OPEN)[1] == 0x01,
        display_data(MODE_CLOSE) == display_data(MODE_OPEN).update(1, 0x00),
        unit_data(unit) == seq![
            0x03u8,
            if unit == Unit::Fahrenheit {
                0x01u8
            } else {
                0x00u8
            },
        ],
{
    assert(display_data(MODE_CLOSE) =~= display_data(MODE_OPEN).update(1, 0x00));
}

} // verus!
