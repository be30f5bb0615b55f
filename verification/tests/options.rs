use sudokoo_linux::frame::Unit;
use sudokoo_linux::options::{ArgError, Argument, Command, Fault, Options, Parsed};
use std::time::Duration;

fn words(args: &[&str]) -> Vec<Argument> {
    args.iter()
        .map(|s| Argument {
            text: s.to_string(),
            seconds: s.parse::<f64>().ok().map(f64::to_bits),
            watts: s.parse::<f32>().ok().map(f32::to_bits),
        })
        .collect()
}

/// The options to run with; none where the arguments only ask for something to be printed.
fn parse(args: &[&str]) -> Result<Option<Options>, ArgError> {
    match Options::parse(&words(args))? {
        Parsed::Run(options) => Ok(Some(options)),
        Parsed::Help | Parsed::Version => Ok(None),
    }
}

fn interval(options: &Options) -> Duration {
    Duration::from_secs_f64(f64::from_bits(options.interval))
}

fn fault(args: &[&str]) -> (Fault, String) {
    let e = parse(args).unwrap_err();
    let message = e.message();
    (e.fault, message)
}

#[test]
fn defaults_to_streaming_in_celsius_once_a_second() {
    let options = parse(&[]).unwrap().unwrap();
    assert_eq!(options.command, Command::Stream);
    assert_eq!(options.unit, Unit::Celsius);
    assert_eq!(interval(&options), Duration::from_secs(1));
    assert_eq!(f32::from_bits(options.tdp), 65.0);
    assert!(!options.quiet);
}

#[test]
fn options_parse_in_any_order_around_the_command() {
    let options = parse(&["--tdp", "105", "demo", "-u", "F", "-i", "0.5", "-q"])
        .unwrap()
        .unwrap();
    assert_eq!(options.command, Command::Demo);
    assert_eq!(options.unit, Unit::Fahrenheit);
    assert_eq!(interval(&options), Duration::from_millis(500));
    assert_eq!(f32::from_bits(options.tdp), 105.0);
    assert!(options.quiet);
}

#[test]
fn help_and_version_stop_before_touching_the_device() {
    assert!(parse(&["--help"]).unwrap().is_none());
    assert!(parse(&["-V"]).unwrap().is_none());
    // Even alongside something that would otherwise run.
    assert!(parse(&["stream", "--help"]).unwrap().is_none());
}

#[test]
fn bad_arguments_are_rejected_rather_than_defaulted() {
    assert!(parse(&["spin"]).is_err(), "unknown command");
    assert!(parse(&["--nonsense"]).is_err(), "unknown option");
    assert!(parse(&["open", "close"]).is_err(), "two commands");
    assert!(parse(&["--unit"]).is_err(), "missing value");
    assert!(parse(&["--unit", "K"]).is_err(), "not a unit");
    // A zero or negative interval would busy-loop or never refresh.
    assert!(parse(&["-i", "0"]).is_err());
    assert!(parse(&["-i", "-1"]).is_err());
    assert!(parse(&["-i", "soon"]).is_err());
    assert!(parse(&["--tdp", "0"]).is_err());
    assert!(parse(&["--tdp", "lots"]).is_err());
}

#[test]
fn a_value_that_looks_like_a_flag_is_still_taken_as_the_value() {
    // `--device -q` should complain about the node, not silently enable quiet.
    let options = parse(&["--device", "-q"]).unwrap().unwrap();
    assert_eq!(options.device.as_deref(), Some("-q"));
    assert!(!options.quiet);
}

#[test]
fn every_fault_says_which_word_it_is() {
    let expected = [
        (vec!["-t"], Fault::NeedsValue, "-t needs a value"),
        (vec!["-x"], Fault::UnknownOption, "unknown option -x"),
        (vec!["-"], Fault::UnknownOption, "unknown option -"),
        (
            vec!["once", "-q", "demo"],
            Fault::UnexpectedArgument,
            "unexpected argument demo",
        ),
        (vec!["spin"], Fault::UnknownCommand, "unknown command spin"),
        (vec![""], Fault::UnknownCommand, "unknown command "),
        (
            vec!["-u", "K"],
            Fault::NotAUnit,
            "unit must be C or F, not K",
        ),
        (
            vec!["--interval", "soon"],
            Fault::IntervalNotANumber,
            "interval must be a number of seconds, not soon",
        ),
        (
            vec!["-i", "inf"],
            Fault::IntervalNotPositive,
            "interval must be greater than zero, not inf",
        ),
        (
            vec!["-t", "lots"],
            Fault::TdpNotANumber,
            "TDP must be a number of watts, not lots",
        ),
        (
            vec!["--tdp", "nan"],
            Fault::TdpNotPositive,
            "TDP must be greater than zero, not nan",
        ),
    ];
    for (args, kind, message) in expected {
        assert_eq!(fault(&args), (kind, message.to_string()));
    }
}

#[test]
fn the_first_fault_wins_over_later_help() {
    assert!(parse(&["-i", "soon", "--help"]).is_err());
    assert!(parse(&["--help", "-i", "soon"]).unwrap().is_none());
}

#[test]
fn every_word_is_understood() {
    for (word, command) in [
        ("stream", Command::Stream),
        ("once", Command::Once),
        ("demo", Command::Demo),
        ("open", Command::Open),
        ("close", Command::Close),
    ] {
        assert_eq!(parse(&[word]).unwrap().unwrap().command, command);
    }
    for (word, unit) in [
        ("C", Unit::Celsius),
        ("c", Unit::Celsius),
        ("F", Unit::Fahrenheit),
        ("f", Unit::Fahrenheit),
    ] {
        assert_eq!(parse(&["--unit", word]).unwrap().unwrap().unit, unit);
    }
    let options = parse(&["--temp-label", "Tccd1", "--quiet", "--interval", "2", "--tdp", "1e2"])
        .unwrap()
        .unwrap();
    assert_eq!(options.temp_label.as_deref(), Some("Tccd1"));
    assert!(options.quiet);
    assert_eq!(interval(&options), Duration::from_secs(2));
    assert_eq!(f32::from_bits(options.tdp), 100.0);
    assert!(matches!(
        Options::parse(&words(&["-h"])),
        Ok(Parsed::Help)
    ));
    assert!(matches!(
        Options::parse(&words(&["--version"])),
        Ok(Parsed::Version)
    ));
}

#[test]
fn the_last_of_repeated_options_holds() {
    let options = parse(&["-u", "F", "-u", "C"]).unwrap().unwrap();
    assert_eq!(options.unit, Unit::Celsius);
}

#[test]
fn every_option_takes_the_next_word() {
    let options = parse(&["--temp-label", "--device", "--device", "once"])
        .unwrap()
        .unwrap();
    assert_eq!(options.temp_label.as_deref(), Some("--device"));
    assert_eq!(options.device.as_deref(), Some("once"));
    assert_eq!(options.command, Command::Stream);
    assert_eq!(
        fault(&["-u", "--help"]),
        (Fault::NotAUnit, "unit must be C or F, not --help".to_string())
    );
}

#[test]
fn a_period_of_zero_is_refused_however_it_is_spelled() {
    for word in ["0", "0.0", "-0", "1e-10", "4.9e-10", "1e-400"] {
        let message = format!("interval must be greater than zero, not {word}");
        assert_eq!(fault(&["-i", word]), (Fault::IntervalNotPositive, message));
    }
    let options = parse(&["-i", "1e-9"]).unwrap().unwrap();
    assert_eq!(interval(&options), Duration::from_nanos(1));
    let options = parse(&["-i", "6e-10"]).unwrap().unwrap();
    assert_eq!(interval(&options), Duration::from_nanos(1));
}
