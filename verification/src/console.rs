//! Progress reporting.
//!
//! Per-sample output goes to a terminal only. Under a service manager standard output is a
//! pipe to the journal, where a line per second would be noise rather than information, so
//! only the startup notes are logged there.

use vstd::prelude::*;

use crate::device::{DeviceInfo, InfoView};
use crate::frame::Unit;
use crate::numbers;
use crate::session::{Note, DEMO_RUNTIME};

verus! {

/// How a device is named to the user.
pub open spec fn device_text(info: InfoView) -> Seq<char> {
    "device: "@ + info.path + " ("@ + (if info.name.len() == 0 {
        "unidentified"@
    } else {
        info.name
    }) + (match info.serial {
        Some(s) => ", serial "@ + s,
        None => Seq::empty(),
    }) + ")"@
}

/// What a note says, where `temp` and `energy` are the sensors in use.
pub open spec fn note_text(
    note: Note,
    info: InfoView,
    temp: Option<Seq<char>>,
    energy: Option<Seq<char>>,
) -> Seq<char> {
    match note {
        Note::Device => device_text(info),
        Note::Opened => "panel opened; it blanks in a few seconds unless refreshed"@,
        Note::Closed => "panel closed"@,
        Note::Temperature => match temp {
            Some(path) => "temperature: "@ + path,
            None => "temperature: no CPU sensor found, the field will read 0"@,
        },
        Note::Power => match energy {
            Some(path) => "power: measured, "@ + path,
            None => "power: estimated from load, RAPL is not readable by this user"@,
        },
        Note::Demo => "demo: 73.5 C / 88 % / 142 W / 5300 MHz for "@ + numbers::decimal(
            (DEMO_RUNTIME / 1_000_000_000) as nat,
        ) + " seconds"@,
    }
}

/// A path as the specification has it.
pub open spec fn path_view(path: Option<&str>) -> Option<Seq<char>> {
    match path {
        Some(p) => Some(p@),
        None => None,
    }
}

/// Name a device to the user.
fn describe_device(info: &DeviceInfo) -> (s: String)
    ensures
        s@ == device_text(info@),
{
    let name: String = if info.name.as_str().is_empty() {
        "unidentified".to_owned()
    } else {
        info.name.clone()
    };
    let serial: String = match &info.serial {
        Some(s) => ", serial ".to_owned().concat(s.as_str()),
        None => String::new(),
    };
    "device: ".to_owned().concat(info.path.as_str()).concat(" (").concat(name.as_str()).concat(
        serial.as_str(),
    ).concat(")")
}

/// What a note says.
pub fn describe(note: Note, info: &DeviceInfo, temp: Option<&str>, energy: Option<&str>) -> (s:
    String)
    ensures
        s@ == note_text(note, info@, path_view(temp), path_view(energy)),
{
    match note {
        Note::Device => describe_device(info),
        Note::Opened => "panel opened; it blanks in a few seconds unless refreshed".to_owned(),
        Note::Closed => "panel closed".to_owned(),
        Note::Temperature => match temp {
            Some(path) => "temperature: ".to_owned().concat(path),
            None => "temperature: no CPU sensor found, the field will read 0".to_owned(),
        },
        Note::Power => match energy {
            Some(path) => "power: measured, ".to_owned().concat(path),
            None => "power: estimated from load, RAPL is not readable by this user".to_owned(),
        },
        Note::Demo => "demo: 73.5 C / 88 % / 142 W / 5300 MHz for ".to_owned().concat(
            numbers::to_decimal((DEMO_RUNTIME / 1_000_000_000) as u64).as_str(),
        ).concat(" seconds"),
    }
}

/// The values of a sample, written out as numbers.
#[derive(Debug)]
pub struct Figures {
    /// Temperature in the unit shown.
    pub temp: String,
    /// CPU utilisation, percent.
    pub usage: String,
    /// Package power, watts.
    pub power: String,
    /// Core frequency, MHz.
    pub freq: String,
}

/// The letter that stands for a unit.
pub open spec fn unit_letter(unit: Unit) -> Seq<char> {
    match unit {
        Unit::Celsius => "C"@,
        Unit::Fahrenheit => "F"@,
    }
}

/// The status line of a sample. Power that was not measured is marked.
pub open spec fn status_line(f: Figures, unit: Unit, measured: bool) -> Seq<char> {
    "\r"@ + f.temp@ + "\u{b0}"@ + unit_letter(unit) + "  "@ + f.usage@ + "%  "@ + f.power@ + "W"@
        + (if measured {
        " "@
    } else {
        "~"@
    }) + "  "@ + f.freq@ + "MHz   "@
}

/// What is printed, and what was.
#[derive(Debug)]
pub struct Output {
    quiet: bool,
    interactive: bool,
    wrote_sample: bool,
}

/// The value of an [`Output`].
pub struct OutputView {
    /// Nothing is printed.
    pub quiet: bool,
    /// Samples are printed.
    pub interactive: bool,
    /// The cursor stands at the end of a status line.
    pub wrote_sample: bool,
}

impl View for Output {
    type V = OutputView;

    closed spec fn view(&self) -> OutputView {
        OutputView {
            quiet: self.quiet,
            interactive: self.interactive,
            wrote_sample: self.wrote_sample,
        }
    }
}

/// What holds of every [`Output`]: one that prints nothing shows no samples, and only one
/// that shows samples has a status line to close off.
pub open spec fn sound(o: OutputView) -> bool {
    &&& o.quiet ==> !o.interactive
    &&& o.wrote_sample ==> o.interactive
}

/// What is printed of a note.
pub open spec fn printed(o: OutputView, message: String) -> Option<String> {
    if o.quiet {
        None
    } else {
        Some(message)
    }
}

impl Output {
    /// Report to standard output, which `terminal` says is a terminal or not.
    pub fn new(quiet: bool, terminal: bool) -> (o: Output)
        ensures
            o@ == (OutputView { quiet, interactive: !quiet && terminal, wrote_sample: false }),
            sound(o@),
    {
        Output { quiet, interactive: !quiet && terminal, wrote_sample: false }
    }

    /// The line to print for a note, if any is to be printed.
    pub fn note(&self, message: String) -> (r: Option<String>)
        ensures
            r == printed(self@, message),
    {
        if self.quiet {
            None
        } else {
            Some(message)
        }
    }

    /// The text to print for a sample, if any is to be printed.
    pub fn sample(&mut self, f: &Figures, unit: Unit, measured: bool) -> (r: Option<String>)
        ensures
            !old(self)@.interactive ==> r is None && final(self)@ == old(self)@,
            old(self)@.interactive ==> {
                &&& r matches Some(s)
                &&& s@ == status_line(*f, unit, measured)
                &&& final(self)@ == (OutputView { wrote_sample: true, ..old(self)@ })
            },
            sound(old(self)@) ==> sound(final(self)@),
    {
        if !self.interactive {
            return None;
        }
        self.wrote_sample = true;
        let letter = match unit {
            Unit::Celsius => "C",
            Unit::Fahrenheit => "F",
        };
        let mark = if measured {
            " "
        } else {
            "~"
        };
        Some(
            "\r".to_owned().concat(f.temp.as_str()).concat("\u{b0}").concat(letter).concat(
                "  ",
            ).concat(f.usage.as_str()).concat("%  ").concat(f.power.as_str()).concat("W").concat(
                mark,
            ).concat("  ").concat(f.freq.as_str()).concat("MHz   "),
        )
    }

    /// Close off the in-place status line so later output starts on its own row. Says
    /// whether a line feed has to be printed for that.
    pub fn finish(&mut self) -> (r: bool)
        ensures
            r == old(self)@.wrote_sample,
            final(self)@ == (OutputView { wrote_sample: false, ..old(self)@ }),
            sound(old(self)@) ==> sound(final(self)@),
    {
        let wrote: bool = self.wrote_sample;
        self.wrote_sample = false;
        wrote
    }
}

/// Asked to be quiet, nothing is ever printed: there is no note, no sample and no status
/// line to close off.
pub proof fn law_quiet_prints_nothing(o: OutputView, message: String)
    requires
        sound(o),
        o.quiet,
    ensures
        printed(o, message) is None,
        !o.interactive,
        !o.wrote_sample,
{
}

/// What is not quiet prints every note, as it is.
pub proof fn law_notes_are_printed_as_they_are(o: OutputView, message: String)
    requires
        !o.quiet,
    ensures
        printed(o, message) == Some(message),
{
}

/// A device is named by its path, its name where it has one, and its serial number where it
/// has one.
pub proof fn law_device_is_named(info: InfoView, name: Seq<char>, serial: Seq<char>)
    requires
        name.len() > 0,
    ensures
        ({
            let bare = InfoView { path: info.path, name: Seq::empty(), serial: None };
            let start = "device: "@ + info.path + " ("@;
            &&& device_text(bare) == start + "unidentified"@ + ")"@
            &&& device_text(InfoView { serial: Some(serial), ..bare }) == start
                + "unidentified"@ + ", serial "@ + serial + ")"@
            &&& device_text(InfoView { name, ..bare }) == start + name + ")"@
            &&& device_text(InfoView { name, serial: Some(serial), ..bare }) == start + name
                + ", serial "@ + serial + ")"@
        }),
{
    let bare = InfoView { path: info.path, name: Seq::empty(), serial: None };
    let start = "device: "@ + info.path + " ("@;
    assert(device_text(bare) =~= start + "unidentified"@ + ")"@);
    assert(device_text(InfoView { serial: Some(serial), ..bare }) =~= start + "unidentified"@
        + ", serial "@ + serial + ")"@);
    assert(device_text(InfoView { name, ..bare }) =~= start + name + ")"@);
    assert(device_text(InfoView { name, serial: Some(serial), ..bare }) =~= start + name
        + ", serial "@ + serial + ")"@);
}

/// The notes on the sensors name the files in use, and no other note depends on them.
pub proof fn law_notes_name_the_sensors(
    info: InfoView,
    path: Seq<char>,
    temp: Option<Seq<char>>,
    energy: Option<Seq<char>>,
    note: Note,
)
    ensures
        note_text(Note::Temperature, info, Some(path), energy) == "temperature: "@ + path,
        note_text(Note::Power, info, temp, Some(path)) == "power: measured, "@ + path,
        note_text(Note::Temperature, info, None, energy)
            == "temperature: no CPU sensor found, the field will read 0"@,
        note_text(Note::Power, info, temp, None)
            == "power: estimated from load, RAPL is not readable by this user"@,
        note_text(Note::Device, info, temp, energy) == device_text(info),
        note_text(Note::Opened, info, temp, energy)
            == "panel opened; it blanks in a few seconds unless refreshed"@,
        note_text(Note::Closed, info, temp, energy) == "panel closed"@,
        note_text(Note::Demo, info, temp, energy) == note_text(Note::Demo, info, None, None),
        path_view(None) is None,
{
}

/// The status line shows the figures as they are written, with the unit's letter, and marks
/// power that was not measured.
pub proof fn law_status_line_shows_the_figures(f: Figures, unit: Unit, measured: bool)
    ensures
        status_line(f, unit, measured) == "\r"@ + f.temp@ + "\u{b0}"@ + (if unit
            == Unit::Celsius {
            "C"@
        } else {
            "F"@
        }) + "  "@ + f.usage@ + "%  "@ + f.power@ + "W"@ + (if measured {
            " "@
        } else {
            "~"@
        }) + "  "@ + f.freq@ + "MHz   "@,
{
}

/// A path that is there stands for its own characters, an empty one too.
pub proof fn law_paths_stand_for_themselves(path: &str)
    ensures
        path_view(Some(path)) == Some(path@),
{
}

} // verus!
