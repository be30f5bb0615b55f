use sudokoo_linux::console::{describe, Figures, Output};
use sudokoo_linux::device::DeviceInfo;
use sudokoo_linux::frame::{close, open, sensor, set_unit, Report, Sensors, Unit};
use sudokoo_linux::options::Command;
use sudokoo_linux::session::{Action, Note, Seen, Session, DEMO_RUNTIME, SLEEP_SLICE};

const SECOND: u128 = 1_000_000_000;

fn seen(now: u128, stopping: bool) -> Seen {
    Seen {
        now,
        stopping,
        sensors: Sensors::default(),
    }
}

/// Take `n` steps at one moment, with no request to stop.
fn steps(session: &mut Session, n: usize, now: u128) -> Vec<Action> {
    (0..n).map(|_| session.step(&seen(now, false))).collect()
}

fn sent(action: &Action) -> Option<Report> {
    match action {
        Action::Send(report) => Some(*report),
        _ => None,
    }
}

fn names(actions: &[Action]) -> Vec<String> {
    actions
        .iter()
        .map(|a| match a {
            Action::Send(_) => "Send".to_string(),
            other => format!("{other:?}"),
        })
        .collect()
}

#[test]
fn opening_sends_one_frame_and_leaves_it() {
    let mut s = Session::new(Command::Open, Unit::Celsius, SECOND);
    let done = steps(&mut s, 5, 0);
    assert_eq!(
        names(&done),
        ["Note(Device)", "Send", "Note(Opened)", "Finish", "Finish"]
    );
    assert_eq!(sent(&done[1]), Some(open()));
}

#[test]
fn closing_sends_one_frame() {
    let mut s = Session::new(Command::Close, Unit::Celsius, SECOND);
    let done = steps(&mut s, 4, 0);
    assert_eq!(names(&done), ["Note(Device)", "Send", "Note(Closed)", "Finish"]);
    assert_eq!(sent(&done[1]), Some(close()));
}

#[test]
fn streaming_opens_samples_and_closes() {
    let mut s = Session::new(Command::Stream, Unit::Fahrenheit, SECOND);
    let start = steps(&mut s, 8, 0);
    assert_eq!(
        names(&start),
        [
            "Note(Device)",
            "CatchSignals",
            "Send",
            "Send",
            "LocateSensors",
            "Note(Temperature)",
            "Note(Power)",
            "Prime",
        ]
    );
    assert_eq!(sent(&start[2]), Some(open()));
    assert_eq!(sent(&start[3]), Some(set_unit(Unit::Fahrenheit)));

    // The first deadline is an interval after the first look at the clock.
    assert!(matches!(s.step(&seen(100, false)), Action::Nap(SLEEP_SLICE)));
    assert!(matches!(s.step(&seen(SECOND + 99, false)), Action::Nap(1)));
    assert!(matches!(s.step(&seen(SECOND + 150, false)), Action::Sample));
    let values = Sensors {
        temp: 1,
        usage: 2,
        power: 3,
        freq: 4,
        ratio: 5,
    };
    let shown = s.step(&Seen {
        now: SECOND + 160,
        stopping: false,
        sensors: values,
    });
    assert_eq!(sent(&shown), Some(sensor(&values, Unit::Fahrenheit)));
    assert!(matches!(s.step(&seen(SECOND + 170, false)), Action::Show));
    // The next deadline follows from the first, not from when the sample was taken.
    assert!(matches!(s.step(&seen(2 * SECOND + 99, false)), Action::Nap(1)));
    assert!(matches!(s.step(&seen(2 * SECOND + 100, false)), Action::Sample));
    s.step(&seen(2 * SECOND + 100, true));
    assert!(matches!(s.step(&seen(2 * SECOND + 100, true)), Action::Show));

    let end: Vec<Action> = (0..4).map(|_| s.step(&seen(2 * SECOND + 101, true))).collect();
    assert_eq!(names(&end), ["EndLine", "Send", "Note(Closed)", "Finish"]);
    assert_eq!(sent(&end[1]), Some(close()));
}

#[test]
fn a_stop_before_the_first_sample_still_blanks_the_panel() {
    for command in [Command::Stream, Command::Once] {
        let mut s = Session::new(command, Unit::Celsius, SECOND);
        steps(&mut s, 8, 0);
        let end: Vec<Action> = (0..4).map(|_| s.step(&seen(0, true))).collect();
        assert_eq!(names(&end), ["EndLine", "Send", "Note(Closed)", "Finish"]);
        assert_eq!(sent(&end[1]), Some(close()));
    }
}

#[test]
fn once_shows_one_sample_and_leaves_it_lit() {
    let mut s = Session::new(Command::Once, Unit::Celsius, 0);
    steps(&mut s, 8, 0);
    let done = steps(&mut s, 5, 0);
    assert_eq!(names(&done), ["Sample", "Send", "Show", "EndLine", "Finish"]);
    assert_eq!(sent(&done[1]), Some(sensor(&Sensors::default(), Unit::Celsius)));
}

#[test]
fn the_demonstration_holds_its_values_and_ends() {
    let values = Sensors {
        temp: 73.5f32.to_bits(),
        usage: 88,
        power: 142,
        freq: 5300,
        ratio: 77,
    };
    let mut s = Session::new(Command::Demo, Unit::Celsius, 20 * SECOND);
    let start = steps(&mut s, 5, 0);
    assert_eq!(
        names(&start),
        ["Note(Device)", "CatchSignals", "Send", "Send", "Note(Demo)"]
    );
    let frame = sensor(&values, Unit::Celsius);
    assert_eq!(sent(&s.step(&seen(7, false))), Some(frame));
    assert!(matches!(s.step(&seen(10, false)), Action::Nap(SLEEP_SLICE)));
    assert!(matches!(s.step(&seen(20 * SECOND, false)), Action::Nap(10)));
    assert_eq!(sent(&s.step(&seen(20 * SECOND + 10, false))), Some(frame));
    assert!(matches!(s.step(&seen(20 * SECOND + 11, false)), Action::Nap(_)));
    // Asleep past the end: nothing more is shown.
    assert_eq!(sent(&s.step(&seen(7 + DEMO_RUNTIME + 10 * SECOND + 4, false))), Some(close()));
    let end = steps(&mut s, 2, 0);
    assert_eq!(names(&end), ["Note(Closed)", "Finish"]);

    let mut f = Session::new(Command::Demo, Unit::Fahrenheit, SECOND);
    steps(&mut f, 5, 0);
    let scaled = Sensors {
        temp: 164.3f32.to_bits(),
        ..values
    };
    assert_eq!(
        sent(&f.step(&seen(0, false))),
        Some(sensor(&scaled, Unit::Fahrenheit))
    );
    assert_eq!(sent(&f.step(&seen(1, true))), Some(close()));
}

#[test]
fn notes_say_what_is_in_use() {
    let mut info = DeviceInfo {
        path: "/dev/hidraw6".to_string(),
        name: "SK SK700V".to_string(),
        serial: Some("0FCDD7A805A7".to_string()),
    };
    let say = |note, info: &DeviceInfo| describe(note, info, Some("/t"), Some("/e"));
    assert_eq!(
        say(Note::Device, &info),
        "device: /dev/hidraw6 (SK SK700V, serial 0FCDD7A805A7)"
    );
    info.name = String::new();
    info.serial = None;
    assert_eq!(say(Note::Device, &info), "device: /dev/hidraw6 (unidentified)");
    assert_eq!(
        say(Note::Opened, &info),
        "panel opened; it blanks in a few seconds unless refreshed"
    );
    assert_eq!(say(Note::Closed, &info), "panel closed");
    assert_eq!(say(Note::Temperature, &info), "temperature: /t");
    assert_eq!(say(Note::Power, &info), "power: measured, /e");
    assert_eq!(
        say(Note::Demo, &info),
        "demo: 73.5 C / 88 % / 142 W / 5300 MHz for 30 seconds"
    );
    assert_eq!(
        describe(Note::Temperature, &info, None, None),
        "temperature: no CPU sensor found, the field will read 0"
    );
    assert_eq!(
        describe(Note::Power, &info, None, None),
        "power: estimated from load, RAPL is not readable by this user"
    );
}

#[test]
fn samples_are_shown_on_a_terminal_only() {
    let figures = Figures {
        temp: format!("{:5.1}", 73.5),
        usage: format!("{:3.0}", 88.0),
        power: format!("{:4.0}", 142.0),
        freq: format!("{:5.0}", 5300.0),
    };
    let mut out = Output::new(false, true);
    assert_eq!(out.note("x".to_string()).as_deref(), Some("x"));
    assert!(!out.finish());
    assert_eq!(
        out.sample(&figures, Unit::Celsius, false).as_deref(),
        Some("\r 73.5°C   88%   142W~   5300MHz   ")
    );
    assert_eq!(
        out.sample(&figures, Unit::Fahrenheit, true).as_deref(),
        Some("\r 73.5°F   88%   142W    5300MHz   ")
    );
    assert!(out.finish());
    assert!(!out.finish());

    let mut piped = Output::new(false, false);
    assert_eq!(piped.note("x".to_string()).as_deref(), Some("x"));
    assert_eq!(piped.sample(&figures, Unit::Celsius, true), None);
    assert!(!piped.finish());

    let mut quiet = Output::new(true, true);
    assert_eq!(quiet.note("x".to_string()), None);
    assert_eq!(quiet.sample(&figures, Unit::Celsius, true), None);
}

#[test]
fn a_stream_goes_on_until_it_is_stopped() {
    let mut s = Session::new(Command::Stream, Unit::Celsius, SECOND);
    let mut now = 0;
    for _ in 0..1000 {
        let action = s.step(&seen(now, false));
        assert!(!matches!(action, Action::Finish));
        assert_ne!(sent(&action), Some(close()));
        if let Action::Nap(nanos) = action {
            assert!(0 < nanos && nanos <= SLEEP_SLICE);
            now += nanos;
        }
    }
}

#[test]
fn a_stream_sends_each_sample_once_between_one_open_and_one_close() {
    let mut s = Session::new(Command::Stream, Unit::Celsius, SECOND);
    let mut now = 0;
    let mut samples: u16 = 0;
    let mut reports = Vec::new();
    loop {
        let action = s.step(&Seen {
            now,
            stopping: samples == 3,
            sensors: Sensors {
                power: samples,
                ..Sensors::default()
            },
        });
        match action {
            Action::Nap(nanos) => now += nanos,
            Action::Sample => samples += 1,
            Action::Send(report) => reports.push(report),
            Action::Finish => break,
            _ => {}
        }
    }
    let sample = |power| {
        sensor(
            &Sensors {
                power,
                ..Sensors::default()
            },
            Unit::Celsius,
        )
    };
    assert_eq!(
        reports,
        [
            open(),
            set_unit(Unit::Celsius),
            sample(1),
            sample(2),
            sample(3),
            close()
        ]
    );
}
