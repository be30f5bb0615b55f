//! The command line: commands, options and what is wrong with them.

use vstd::prelude::*;

use crate::floats;
use crate::frame::Unit;
use crate::sensors::DEFAULT_TDP;
use crate::text;

verus! {

/// What to do with the panel.
#[derive(Debug, Clone, Copy, PartialEq, Eq, Structural)]
pub enum Command {
    /// Push live CPU stats until interrupted.
    Stream,
    /// Open the panel and push a single live sample.
    Once,
    /// Push fixed, recognisable values for a while.
    Demo,
    /// Open the panel.
    Open,
    /// Blank the panel.
    Close,
}

/// One word of the command line, with the numbers it would read as.
#[derive(Debug)]
pub struct Argument {
    /// The word itself.
    pub text: String,
    /// The bits of the double-precision float that the word reads as, if it reads as one.
    pub seconds: Option<u64>,
    /// The bits of the single-precision float that the word reads as, if it reads as one.
    pub watts: Option<u32>,
}

/// The value of an [`Argument`].
pub struct Word {
    pub text: Seq<char>,
    pub seconds: Option<u64>,
    pub watts: Option<u32>,
}

impl View for Argument {
    type V = Word;

    open spec fn view(&self) -> Word {
        Word { text: self.text@, seconds: self.seconds, watts: self.watts }
    }
}

/// The words of a command line.
pub open spec fn line(args: Seq<Argument>) -> Seq<Word> {
    args.map_values(|a: Argument| a@)
}

/// One second, as the bits of a double-precision float.
pub const DEFAULT_INTERVAL: u64 = 0x3FF0_0000_0000_0000;

/// What the command line asks for.
#[derive(Debug)]
pub struct Options {
    /// What to do.
    pub command: Command,
    /// The temperature unit to show.
    pub unit: Unit,
    /// The refresh period in seconds, as the bits of a double-precision float.
    pub interval: u64,
    /// CPU TDP in watts, as the bits of a single-precision float.
    pub tdp: u32,
    /// The hwmon sensor label to use.
    pub temp_label: Option<String>,
    /// The hidraw node to use instead of searching by USB id.
    pub device: Option<String>,
    /// Whether to print nothing.
    pub quiet: bool,
}

/// The value of an [`Options`].
pub struct OptionsView {
    pub command: Command,
    pub unit: Unit,
    pub interval: u64,
    pub tdp: u32,
    pub temp_label: Option<Seq<char>>,
    pub device: Option<Seq<char>>,
    pub quiet: bool,
}

impl View for Options {
    type V = OptionsView;

    open spec fn view(&self) -> OptionsView {
        OptionsView {
            command: self.command,
            unit: self.unit,
            interval: self.interval,
            tdp: self.tdp,
            temp_label: match self.temp_label {
                Some(s) => Some(s@),
                None => None,
            },
            device: match self.device {
                Some(s) => Some(s@),
                None => None,
            },
            quiet: self.quiet,
        }
    }
}

/// What holds where the command line says nothing: stream, in Celsius, once a second.
pub open spec fn defaults() -> OptionsView {
    OptionsView {
        command: Command::Stream,
        unit: Unit::Celsius,
        interval: DEFAULT_INTERVAL,
        tdp: DEFAULT_TDP,
        temp_label: None,
        device: None,
        quiet: false,
    }
}

impl Default for Options {
    fn default() -> (o: Options)
        ensures
            o@ == defaults(),
    {
        Options {
            command: Command::Stream,
            unit: Unit::Celsius,
            interval: DEFAULT_INTERVAL,
            tdp: DEFAULT_TDP,
            temp_label: None,
            device: None,
            quiet: false,
        }
    }
}

/// What is wrong with a word.
#[derive(Debug, Clone, Copy, PartialEq, Eq, Structural)]
pub enum Fault {
    /// It is an option that needs a value, and none follows.
    NeedsValue,
    /// It looks like an option and is none.
    UnknownOption,
    /// It follows the command, and is neither an option nor an option's value.
    UnexpectedArgument,
    /// It stands for the command, and names none.
    UnknownCommand,
    /// It is not a temperature unit.
    NotAUnit,
    /// It is not a number of seconds.
    IntervalNotANumber,
    /// It is not more than zero seconds, told in whole nanoseconds.
    IntervalNotPositive,
    /// It is not a number of watts.
    TdpNotANumber,
    /// It is not more than zero watts.
    TdpNotPositive,
}

/// A word of the command line that was rejected, and why.
#[derive(Debug)]
pub struct ArgError {
    /// What is wrong.
    pub fault: Fault,
    /// The word.
    pub word: String,
}

/// What a rejected word is reported as.
pub open spec fn fault_text(fault: Fault, word: Seq<char>) -> Seq<char> {
    match fault {
        Fault::NeedsValue => word + " needs a value"@,
        Fault::UnknownOption => "unknown option "@ + word,
        Fault::UnexpectedArgument => "unexpected argument "@ + word,
        Fault::UnknownCommand => "unknown command "@ + word,
        Fault::NotAUnit => "unit must be C or F, not "@ + word,
        Fault::IntervalNotANumber => "interval must be a number of seconds, not "@ + word,
        Fault::IntervalNotPositive => "interval must be greater than zero, not "@ + word,
        Fault::TdpNotANumber => "TDP must be a number of watts, not "@ + word,
        Fault::TdpNotPositive => "TDP must be greater than zero, not "@ + word,
    }
}

impl ArgError {
    /// The text that reports this error.
    pub fn message(&self) -> (s: String)
        ensures
            s@ == fault_text(self.fault, self.word@),
    {
        let word = self.word.as_str();
        match self.fault {
            Fault::NeedsValue => word.to_owned().concat(" needs a value"),
            Fault::UnknownOption => "unknown option ".to_owned().concat(word),
            Fault::UnexpectedArgument => "unexpected argument ".to_owned().concat(word),
            Fault::UnknownCommand => "unknown command ".to_owned().concat(word),
            Fault::NotAUnit => "unit must be C or F, not ".to_owned().concat(word),
            Fault::IntervalNotANumber => "interval must be a number of seconds, not ".to_owned().concat(
                word,
            ),
            Fault::IntervalNotPositive => "interval must be greater than zero, not ".to_owned().concat(
                word,
            ),
            Fault::TdpNotANumber => "TDP must be a number of watts, not ".to_owned().concat(word),
            Fault::TdpNotPositive => "TDP must be greater than zero, not ".to_owned().concat(word),
        }
    }
}

/// What a command line comes to.
#[derive(Debug)]
pub enum Parsed {
    /// Something to run.
    Run(Options),
    /// Only the usage text is wanted.
    Help,
    /// Only the version is wanted.
    Version,
}

/// The value of what [`Options::parse`] returns.
pub enum Outcome {
    Run(OptionsView),
    Help,
    Version,
    Rejected(Fault, Seq<char>),
}

/// Whether `r` is the outcome `o`.
pub open spec fn comes_to(r: Result<Parsed, ArgError>, o: Outcome) -> bool {
    match r {
        Ok(Parsed::Run(options)) => o == Outcome::Run(options@),
        Ok(Parsed::Help) => o == Outcome::Help,
        Ok(Parsed::Version) => o == Outcome::Version,
        Err(e) => o == Outcome::Rejected(e.fault, e.word@),
    }
}

/// What a word that starts an option asks for.
#[derive(Debug, Clone, Copy, PartialEq, Eq, Structural)]
pub enum Flag {
    Help,
    Version,
    Quiet,
    Unit,
    Interval,
    Tdp,
    TempLabel,
    Device,
}

/// The option that a word names.
pub open spec fn flag_named(word: Seq<char>) -> Option<Flag> {
    if word == "-h"@ || word == "--help"@ {
        Some(Flag::Help)
    } else if word == "-V"@ || word == "--version"@ {
        Some(Flag::Version)
    } else if word == "-u"@ || word == "--unit"@ {
        Some(Flag::Unit)
    } else if word == "-i"@ || word == "--interval"@ {
        Some(Flag::Interval)
    } else if word == "-t"@ || word == "--tdp"@ {
        Some(Flag::Tdp)
    } else if word == "--temp-label"@ {
        Some(Flag::TempLabel)
    } else if word == "--device"@ {
        Some(Flag::Device)
    } else if word == "-q"@ || word == "--quiet"@ {
        Some(Flag::Quiet)
    } else {
        None
    }
}

/// The command that a word names.
pub open spec fn command_named(word: Seq<char>) -> Option<Command> {
    if word == "stream"@ {
        Some(Command::Stream)
    } else if word == "once"@ {
        Some(Command::Once)
    } else if word == "demo"@ {
        Some(Command::Demo)
    } else if word == "open"@ {
        Some(Command::Open)
    } else if word == "close"@ {
        Some(Command::Close)
    } else {
        None
    }
}

/// The unit that a word names, in either case.
pub open spec fn unit_named(word: Seq<char>) -> Option<Unit> {
    if word == "C"@ || word == "c"@ {
        Some(Unit::Celsius)
    } else if word == "F"@ || word == "f"@ {
        Some(Unit::Fahrenheit)
    } else {
        None
    }
}

/// The options after one that takes a value, or what is wrong with the value.
pub open spec fn with_value(o: OptionsView, flag: Flag, value: Word) -> Result<OptionsView, Fault> {
    match flag {
        Flag::Unit => match unit_named(value.text) {
            Some(unit) => Ok(OptionsView { unit, ..o }),
            None => Err(Fault::NotAUnit),
        },
        Flag::Interval => match value.seconds {
            Some(interval) => if floats::lasting(interval) {
                Ok(OptionsView { interval, ..o })
            } else {
                Err(Fault::IntervalNotPositive)
            },
            None => Err(Fault::IntervalNotANumber),
        },
        Flag::Tdp => match value.watts {
            Some(tdp) => if floats::positive(tdp) {
                Ok(OptionsView { tdp, ..o })
            } else {
                Err(Fault::TdpNotPositive)
            },
            None => Err(Fault::TdpNotANumber),
        },
        Flag::TempLabel => Ok(OptionsView { temp_label: Some(value.text), ..o }),
        Flag::Device => Ok(OptionsView { device: Some(value.text), ..o }),
        _ => Ok(o),
    }
}

/// What the rest of a command line comes to, when `o` holds so far and `commanded` says
/// whether a command was given.
pub open spec fn outcome(words: Seq<Word>, o: OptionsView, commanded: bool) -> Outcome
    decreases words.len(),
{
    if words.len() == 0 {
        Outcome::Run(o)
    } else {
        let word = words[0].text;
        match flag_named(word) {
            Some(Flag::Help) => Outcome::Help,
            Some(Flag::Version) => Outcome::Version,
            Some(Flag::Quiet) => outcome(
                words.skip(1),
                OptionsView { quiet: true, ..o },
                commanded,
            ),
            Some(flag) => if words.len() == 1 {
                Outcome::Rejected(Fault::NeedsValue, word)
            } else {
                match with_value(o, flag, words[1]) {
                    Ok(next) => outcome(words.skip(2), next, commanded),
                    Err(fault) => Outcome::Rejected(fault, words[1].text),
                }
            },
            None => if word.len() > 0 && word[0] == '-' {
                Outcome::Rejected(Fault::UnknownOption, word)
            } else if commanded {
                Outcome::Rejected(Fault::UnexpectedArgument, word)
            } else {
                match command_named(word) {
                    Some(command) => outcome(
                        words.skip(1),
                        OptionsView { command, ..o },
                        true,
                    ),
                    None => Outcome::Rejected(Fault::UnknownCommand, word),
                }
            },
        }
    }
}

/// The option that a word names.
fn find_flag(word: &str) -> (r: Option<Flag>)
    ensures
        r == flag_named(word@),
{
    if text::equals(word, "-h") || text::equals(word, "--help") {
        Some(Flag::Help)
    } else if text::equals(word, "-V") || text::equals(word, "--version") {
        Some(Flag::Version)
    } else if text::equals(word, "-u") || text::equals(word, "--unit") {
        Some(Flag::Unit)
    } else if text::equals(word, "-i") || text::equals(word, "--interval") {
        Some(Flag::Interval)
    } else if text::equals(word, "-t") || text::equals(word, "--tdp") {
        Some(Flag::Tdp)
    } else if text::equals(word, "--temp-label") {
        Some(Flag::TempLabel)
    } else if text::equals(word, "--device") {
        Some(Flag::Device)
    } else if text::equals(word, "-q") || text::equals(word, "--quiet") {
        Some(Flag::Quiet)
    } else {
        None
    }
}

/// Read the command.
pub fn parse_command(name: &str) -> (r: Result<Command, ArgError>)
    ensures
        match r {
            Ok(c) => command_named(name@) == Some(c),
            Err(e) => command_named(name@) is None && e.fault == Fault::UnknownCommand && e.word@
                == name@,
        },
{
    if text::equals(name, "stream") {
        Ok(Command::Stream)
    } else if text::equals(name, "once") {
        Ok(Command::Once)
    } else if text::equals(name, "demo") {
        Ok(Command::Demo)
    } else if text::equals(name, "open") {
        Ok(Command::Open)
    } else if text::equals(name, "close") {
        Ok(Command::Close)
    } else {
        Err(ArgError { fault: Fault::UnknownCommand, word: name.to_owned() })
    }
}

/// Read a temperature unit.
pub fn parse_unit(value: &str) -> (r: Result<Unit, ArgError>)
    ensures
        match r {
            Ok(u) => unit_named(value@) == Some(u),
            Err(e) => unit_named(value@) is None && e.fault == Fault::NotAUnit && e.word@
                == value@,
        },
{
    if text::equals(value, "C") || text::equals(value, "c") {
        Ok(Unit::Celsius)
    } else if text::equals(value, "F") || text::equals(value, "f") {
        Ok(Unit::Fahrenheit)
    } else {
        Err(ArgError { fault: Fault::NotAUnit, word: value.to_owned() })
    }
}

/// Read a refresh period. A zero or negative one would never rest or never refresh, and one
/// that is zero in whole nanoseconds is zero however it is spelled.
pub fn parse_interval(value: &Argument) -> (r: Result<u64, ArgError>)
    ensures
        match r {
            Ok(bits) => value.seconds == Some(bits) && floats::lasting(bits) && bits
                >= floats::SHORTEST_PERIOD,
            Err(e) => {
                &&& e.word@ == value.text@
                &&& value.seconds is None ==> e.fault == Fault::IntervalNotANumber
                &&& value.seconds matches Some(bits) ==> !floats::lasting(bits) && e.fault
                    == Fault::IntervalNotPositive
            },
        },
{
    match value.seconds {
        Some(bits) => if floats::is_lasting(bits) {
            Ok(bits)
        } else {
            Err(ArgError { fault: Fault::IntervalNotPositive, word: value.text.clone() })
        },
        None => Err(ArgError { fault: Fault::IntervalNotANumber, word: value.text.clone() }),
    }
}

/// Read a TDP.
pub fn parse_tdp(value: &Argument) -> (r: Result<u32, ArgError>)
    ensures
        match r {
            Ok(bits) => value.watts == Some(bits) && floats::positive(bits),
            Err(e) => {
                &&& e.word@ == value.text@
                &&& value.watts is None ==> e.fault == Fault::TdpNotANumber
                &&& value.watts matches Some(bits) ==> !floats::positive(bits) && e.fault
                    == Fault::TdpNotPositive
            },
        },
{
    match value.watts {
        Some(bits) => if floats::is_positive(bits) {
            Ok(bits)
        } else {
            Err(ArgError { fault: Fault::TdpNotPositive, word: value.text.clone() })
        },
        None => Err(ArgError { fault: Fault::TdpNotANumber, word: value.text.clone() }),
    }
}

impl Options {
    /// Take the value of an option.
    fn set(&mut self, flag: Flag, value: &Argument) -> (r: Result<(), ArgError>)
        ensures
            match r {
                Ok(()) => with_value(old(self)@, flag, value@) == Ok::<OptionsView, Fault>(final(self)@),
                Err(e) => with_value(old(self)@, flag, value@) == Err::<OptionsView, Fault>(e.fault)
                    && e.word@ == value.text@,
            },
    {
        match flag {
            Flag::Unit => match parse_unit(value.text.as_str()) {
                Ok(unit) => {
                    self.unit = unit;
                    Ok(())
                },
                Err(e) => Err(e),
            },
            Flag::Interval => match parse_interval(value) {
                Ok(bits) => {
                    self.interval = bits;
                    Ok(())
                },
                Err(e) => Err(e),
            },
            Flag::Tdp => match parse_tdp(value) {
                Ok(bits) => {
                    self.tdp = bits;
                    Ok(())
                },
                Err(e) => Err(e),
            },
            Flag::TempLabel => {
                self.temp_label = Some(value.text.clone());
                Ok(())
            },
            Flag::Device => {
                self.device = Some(value.text.clone());
                Ok(())
            },
            _ => Ok(()),
        }
    }

    /// Read the whole command line, the program's own name left out.
    pub fn parse(args: &Vec<Argument>) -> (r: Result<Parsed, ArgError>)
        ensures
            comes_to(r, outcome(line(args@), defaults(), false)),
    {
        let mut options = Options::default();
        let mut commanded: bool = false;
        let ghost words = line(args@);
        let mut i: usize = 0;
        assert(words.skip(0) == words);
        while i < args.len()
            invariant
                words == line(args@),
                i <= args@.len(),
                outcome(words, defaults(), false) == outcome(
                    words.skip(i as int),
                    options@,
                    commanded,
                ),
            decreases args@.len() - i,
        {
            let ghost rest = words.skip(i as int);
            assert(rest[0] == args@[i as int]@);
            let arg = &args[i].text;
            match find_flag(arg.as_str()) {
                Some(Flag::Help) => {
                    return Ok(Parsed::Help);
                },
                Some(Flag::Version) => {
                    return Ok(Parsed::Version);
                },
                Some(Flag::Quiet) => {
                    options.quiet = true;
                    assert(rest.skip(1) == words.skip(i + 1));
                    i = i + 1;
                },
                Some(flag) => {
                    if i + 1 == args.len() {
                        return Err(ArgError { fault: Fault::NeedsValue, word: arg.clone() });
                    }
                    assert(rest[1] == args@[i + 1]@);
                    match options.set(flag, &args[i + 1]) {
                        Ok(()) => {},
                        Err(e) => {
                            return Err(e);
                        },
                    }
                    assert(rest.skip(2) == words.skip(i + 2));
                    i = i + 2;
                },
                None => {
                    let s = text::characters(arg.as_str());
                    if s.len() > 0 && s[0] == '-' {
                        return Err(ArgError { fault: Fault::UnknownOption, word: arg.clone() });
                    }
                    if commanded {
                        return Err(
                            ArgError { fault: Fault::UnexpectedArgument, word: arg.clone() },
                        );
                    }
                    match parse_command(arg.as_str()) {
                        Ok(command) => {
                            options.command = command;
                        },
                        Err(e) => {
                            return Err(e);
                        },
                    }
                    commanded = true;
                    assert(rest.skip(1) == words.skip(i + 1));
                    i = i + 1;
                },
            }
        }
        Ok(Parsed::Run(options))
    }
}

/// What a part of the command line sets.
pub enum Setting {
    Command,
    Quiet,
    Option(Flag),
}

/// What a few words set, if they are one complete and acceptable part of a command line:
/// the command, an option without a value, or an option with its value.
pub open spec fn setting_of(part: Seq<Word>) -> Option<Setting> {
    if part.len() == 0 {
        None
    } else {
        let word = part[0].text;
        match flag_named(word) {
            Some(Flag::Help) => None,
            Some(Flag::Version) => None,
            Some(Flag::Quiet) => if part.len() == 1 {
                Some(Setting::Quiet)
            } else {
                None
            },
            Some(flag) => if part.len() == 2 && with_value(defaults(), flag, part[1]) is Ok {
                Some(Setting::Option(flag))
            } else {
                None
            },
            None => if part.len() == 1 && !(word.len() > 0 && word[0] == '-') && command_named(
                word,
            ) is Some {
                Some(Setting::Command)
            } else {
                None
            },
        }
    }
}

/// The options after one part of a command line.
pub open spec fn with_part(o: OptionsView, part: Seq<Word>) -> OptionsView {
    match setting_of(part) {
        Some(Setting::Command) => OptionsView { command: command_named(part[0].text)->0, ..o },
        Some(Setting::Quiet) => OptionsView { quiet: true, ..o },
        Some(Setting::Option(flag)) => with_value(o, flag, part[1])->Ok_0,
        None => o,
    }
}

/// Every acceptable part of a command line has its effect, and the rest is read after it.
pub proof fn law_part_takes_effect(
    part: Seq<Word>,
    rest: Seq<Word>,
    o: OptionsView,
    commanded: bool,
)
    requires
        setting_of(part) is Some,
        setting_of(part) == Some(Setting::Command) ==> !commanded,
    ensures
        outcome(part + rest, o, commanded) == outcome(
            rest,
            with_part(o, part),
            commanded || setting_of(part) == Some(Setting::Command),
        ),
{
    let all = part + rest;
    assert(all[0] == part[0]);
    if part.len() == 1 {
        assert(all.skip(1) == rest);
    } else {
        assert(all[1] == part[1]);
        assert(all.skip(2) == rest);
    }
}

/// Options and the command may come in any order: exchanging two neighbouring parts that
/// set different things changes nothing.
pub proof fn law_parts_in_any_order(
    one: Seq<Word>,
    other: Seq<Word>,
    rest: Seq<Word>,
    o: OptionsView,
    commanded: bool,
)
    requires
        setting_of(one) is Some,
        setting_of(other) is Some,
        setting_of(one) != setting_of(other),
        setting_of(one) == Some(Setting::Command) ==> !commanded,
        setting_of(other) == Some(Setting::Command) ==> !commanded,
    ensures
        outcome(one + other + rest, o, commanded) == outcome(other + one + rest, o, commanded),
{
    let first = setting_of(one) == Some(Setting::Command);
    let second = setting_of(other) == Some(Setting::Command);
    assert(one + other + rest == one + (other + rest));
    assert(other + one + rest == other + (one + rest));
    law_part_takes_effect(one, other + rest, o, commanded);
    law_part_takes_effect(other, rest, with_part(o, one), commanded || first);
    law_part_takes_effect(other, one + rest, o, commanded);
    law_part_takes_effect(one, rest, with_part(o, other), commanded || second);
}

/// The word after `--device` is its value, whatever it looks like.
pub proof fn law_value_is_taken_as_it_stands(
    flag: Word,
    value: Word,
    rest: Seq<Word>,
    o: OptionsView,
    commanded: bool,
)
    requires
        flag.text == "--device"@,
    ensures
        outcome(seq![flag, value] + rest, o, commanded) == outcome(
            rest,
            OptionsView { device: Some(value.text), ..o },
            commanded,
        ),
{
    reveal_strlit("-h");
    reveal_strlit("--help");
    reveal_strlit("-V");
    reveal_strlit("--version");
    reveal_strlit("-u");
    reveal_strlit("--unit");
    reveal_strlit("-i");
    reveal_strlit("--interval");
    reveal_strlit("-t");
    reveal_strlit("--tdp");
    reveal_strlit("--temp-label");
    reveal_strlit("--device");
    assert("-h"@.len() == 2 && "--help"@.len() == 6 && "-V"@.len() == 2 && "--version"@.len() == 9
        && "-u"@.len() == 2 && "--unit"@.len() == 6 && "-i"@.len() == 2 && "--interval"@.len() == 10
        && "-t"@.len() == 2 && "--tdp"@.len() == 5 && "--temp-label"@.len() == 12
        && "--device"@.len() == 8);
    assert(flag_named(flag.text) == Some(Flag::Device));
    law_part_takes_effect(seq![flag, value], rest, o, commanded);
}

/// Asking for help or for the version ends the reading, whatever holds so far and whatever
/// would follow.
pub proof fn law_help_and_version_stop(
    word: Word,
    rest: Seq<Word>,
    o: OptionsView,
    commanded: bool,
)
    ensures
        word.text == "-h"@ || word.text == "--help"@ ==> outcome(seq![word] + rest, o, commanded)
            == Outcome::Help,
        word.text == "-V"@ || word.text == "--version"@ ==> outcome(
            seq![word] + rest,
            o,
            commanded,
        ) == Outcome::Version,
{
    reveal_strlit("-h");
    reveal_strlit("--help");
    reveal_strlit("-V");
    reveal_strlit("--version");
    assert((seq![word] + rest)[0] == word);
    assert("-h"@.len() == 2 && "--help"@.len() == 6 && "-V"@.len() == 2 && "--version"@.len() == 9);
    if word.text == "-V"@ {
        assert(word.text[1] == 'V');
        assert("-h"@[1] == 'h');
    }
}

/// The word after an option that takes a value is that value, whatever it looks like, even
/// an option.
pub proof fn law_next_word_is_the_value(
    word: Word,
    flag: Flag,
    value: Word,
    rest: Seq<Word>,
    o: OptionsView,
    commanded: bool,
)
    requires
        flag_named(word.text) == Some(flag),
        flag != Flag::Help,
        flag != Flag::Version,
        flag != Flag::Quiet,
    ensures
        outcome(seq![word, value] + rest, o, commanded) == match with_value(o, flag, value) {
            Ok(next) => outcome(rest, next, commanded),
            Err(fault) => Outcome::Rejected(fault, value.text),
        },
{
    let all = seq![word, value] + rest;
    assert(all[0] == word);
    assert(all[1] == value);
    assert(all.skip(2) == rest);
}

proof fn lemma_what_runs_is_sound(words: Seq<Word>, o: OptionsView, commanded: bool)
    requires
        floats::lasting(o.interval),
        floats::positive(o.tdp),
    ensures
        outcome(words, o, commanded) matches Outcome::Run(r) ==> floats::lasting(r.interval)
            && floats::positive(r.tdp),
    decreases words.len(),
{
    if words.len() > 0 {
        let word = words[0].text;
        match flag_named(word) {
            Some(Flag::Help) => {},
            Some(Flag::Version) => {},
            Some(Flag::Quiet) => {
                lemma_what_runs_is_sound(
                    words.skip(1),
                    OptionsView { quiet: true, ..o },
                    commanded,
                );
            },
            Some(flag) => {
                if words.len() > 1 {
                    if let Ok(next) = with_value(o, flag, words[1]) {
                        lemma_what_runs_is_sound(words.skip(2), next, commanded);
                    }
                }
            },
            None => {
                if let Some(command) = command_named(word) {
                    lemma_what_runs_is_sound(words.skip(1), OptionsView { command, ..o }, true);
                }
            },
        }
    }
}

/// What runs has a finite refresh period of more than half a nanosecond, so that it is never
/// zero, and a finite TDP greater than zero.
pub proof fn law_what_runs_is_sound(words: Seq<Word>)
    ensures
        outcome(words, defaults(), false) matches Outcome::Run(o) ==> {
            &&& floats::lasting(o.interval)
            &&& floats::SHORTEST_PERIOD <= o.interval < 0x7FF0_0000_0000_0000
            &&& floats::positive(o.tdp)
        },
{
    lemma_what_runs_is_sound(words, defaults(), false);
}

/// The words that name an option, and no others do.
pub proof fn law_option_words(word: Seq<char>)
    ensures
        flag_named(word) == Some(Flag::Help) <==> word == "-h"@ || word == "--help"@,
        flag_named(word) == Some(Flag::Version) <==> word == "-V"@ || word == "--version"@,
        flag_named(word) == Some(Flag::Unit) <==> word == "-u"@ || word == "--unit"@,
        flag_named(word) == Some(Flag::Interval) <==> word == "-i"@ || word == "--interval"@,
        flag_named(word) == Some(Flag::Tdp) <==> word == "-t"@ || word == "--tdp"@,
        flag_named(word) == Some(Flag::TempLabel) <==> word == "--temp-label"@,
        flag_named(word) == Some(Flag::Device) <==> word == "--device"@,
        flag_named(word) == Some(Flag::Quiet) <==> word == "-q"@ || word == "--quiet"@,
{
    reveal_strlit("-h");
    reveal_strlit("--help");
    reveal_strlit("-V");
    reveal_strlit("--version");
    reveal_strlit("-u");
    reveal_strlit("--unit");
    reveal_strlit("-i");
    reveal_strlit("--interval");
    reveal_strlit("-t");
    reveal_strlit("--tdp");
    reveal_strlit("--temp-label");
    reveal_strlit("--device");
    reveal_strlit("-q");
    reveal_strlit("--quiet");
    assert("-h"@.len() == 2 && "-V"@.len() == 2 && "-u"@.len() == 2 && "-i"@.len() == 2
        && "-t"@.len() == 2 && "-q"@.len() == 2);
    assert("-h"@[1] == 'h' && "-V"@[1] == 'V' && "-u"@[1] == 'u' && "-i"@[1] == 'i' && "-t"@[1]
        == 't' && "-q"@[1] == 'q');
    assert("--help"@.len() == 6 && "--unit"@.len() == 6 && "--help"@[2] == 'h' && "--unit"@[2]
        == 'u');
    assert("--version"@.len() == 9 && "--interval"@.len() == 10 && "--tdp"@.len() == 5
        && "--temp-label"@.len() == 12 && "--device"@.len() == 8 && "--quiet"@.len() == 7);
}

/// The words that name a command or a unit, and no others do.
pub proof fn law_command_and_unit_words(word: Seq<char>)
    ensures
        command_named(word) == Some(Command::Stream) <==> word == "stream"@,
        command_named(word) == Some(Command::Once) <==> word == "once"@,
        command_named(word) == Some(Command::Demo) <==> word == "demo"@,
        command_named(word) == Some(Command::Open) <==> word == "open"@,
        command_named(word) == Some(Command::Close) <==> word == "close"@,
        unit_named(word) == Some(Unit::Celsius) <==> word == "C"@ || word == "c"@,
        unit_named(word) == Some(Unit::Fahrenheit) <==> word == "F"@ || word == "f"@,
{
    reveal_strlit("stream");
    reveal_strlit("once");
    reveal_strlit("demo");
    reveal_strlit("open");
    reveal_strlit("close");
    reveal_strlit("C");
    reveal_strlit("c");
    reveal_strlit("F");
    reveal_strlit("f");
    assert("stream"@.len() == 6 && "close"@.len() == 5);
    assert("once"@[1] == 'n' && "demo"@[1] == 'e' && "open"@[1] == 'p');
    assert("C"@[0] == 'C' && "c"@[0] == 'c' && "F"@[0] == 'F' && "f"@[0] == 'f');
}

/// Whether a word names an option that takes a value.
pub open spec fn wants_value(word: Seq<char>) -> bool {
    ||| word == "-u"@ || word == "--unit"@
    ||| word == "-i"@ || word == "--interval"@
    ||| word == "-t"@ || word == "--tdp"@
    ||| word == "--temp-label"@
    ||| word == "--device"@
}

/// An option that takes a value sets that to the word after it, exactly, and nothing else, and
/// the rest is read after it; a value that will not do is named in the answer. At the end of
/// the line the value is missing.
pub proof fn law_options_set_their_values(
    word: Word,
    value: Word,
    rest: Seq<Word>,
    o: OptionsView,
    commanded: bool,
)
    requires
        wants_value(word.text),
    ensures
        ({
            let w = word.text;
            let all = outcome(seq![word, value] + rest, o, commanded);
            &&& outcome(seq![word], o, commanded) == Outcome::Rejected(Fault::NeedsValue, w)
            &&& w == "--temp-label"@ ==> all == outcome(
                rest,
                OptionsView { temp_label: Some(value.text), ..o },
                commanded,
            )
            &&& w == "--device"@ ==> all == outcome(
                rest,
                OptionsView { device: Some(value.text), ..o },
                commanded,
            )
            &&& w == "-u"@ || w == "--unit"@ ==> all == (if value.text == "C"@ || value.text
                == "c"@ {
                outcome(rest, OptionsView { unit: Unit::Celsius, ..o }, commanded)
            } else if value.text == "F"@ || value.text == "f"@ {
                outcome(rest, OptionsView { unit: Unit::Fahrenheit, ..o }, commanded)
            } else {
                Outcome::Rejected(Fault::NotAUnit, value.text)
            })
            &&& w == "-i"@ || w == "--interval"@ ==> all == (match value.seconds {
                Some(interval) => if 0x3E01_2E0B_E826_D695 <= interval < 0x7FF0_0000_0000_0000 {
                    outcome(rest, OptionsView { interval, ..o }, commanded)
                } else {
                    Outcome::Rejected(Fault::IntervalNotPositive, value.text)
                },
                None => Outcome::Rejected(Fault::IntervalNotANumber, value.text),
            })
            &&& w == "-t"@ || w == "--tdp"@ ==> all == (match value.watts {
                Some(tdp) => if 0 < tdp < 0x7F80_0000 {
                    outcome(rest, OptionsView { tdp, ..o }, commanded)
                } else {
                    Outcome::Rejected(Fault::TdpNotPositive, value.text)
                },
                None => Outcome::Rejected(Fault::TdpNotANumber, value.text),
            })
        }),
{
    law_option_words(word.text);
    law_command_and_unit_words(value.text);
    let flag = flag_named(word.text)->0;
    law_next_word_is_the_value(word, flag, value, rest, o, commanded);
    assert(seq![word][0] == word);
}

/// Asking to be quiet sets that and nothing else; the end of the line leaves what holds.
pub proof fn law_quiet_is_set(word: Word, rest: Seq<Word>, o: OptionsView, commanded: bool)
    requires
        word.text == "-q"@ || word.text == "--quiet"@,
    ensures
        outcome(seq![word] + rest, o, commanded) == outcome(
            rest,
            OptionsView { quiet: true, ..o },
            commanded,
        ),
        outcome(Seq::empty(), o, commanded) == Outcome::Run(o),
{
    law_option_words(word.text);
    let all = seq![word] + rest;
    assert(all[0] == word);
    assert(all.skip(1) == rest);
}

/// Every other word is a command, or wrong: one that starts with a dash is an unknown option,
/// the first of the others has to name a command, and no second one is expected.
pub proof fn law_other_words_are_commands(
    word: Word,
    rest: Seq<Word>,
    o: OptionsView,
    commanded: bool,
)
    requires
        !wants_value(word.text),
        word.text != "-h"@ && word.text != "--help"@,
        word.text != "-V"@ && word.text != "--version"@,
        word.text != "-q"@ && word.text != "--quiet"@,
    ensures
        ({
            let w = word.text;
            outcome(seq![word] + rest, o, commanded) == (if w.len() > 0 && w[0] == '-' {
                Outcome::Rejected(Fault::UnknownOption, w)
            } else if commanded {
                Outcome::Rejected(Fault::UnexpectedArgument, w)
            } else if w == "stream"@ {
                outcome(rest, OptionsView { command: Command::Stream, ..o }, true)
            } else if w == "once"@ {
                outcome(rest, OptionsView { command: Command::Once, ..o }, true)
            } else if w == "demo"@ {
                outcome(rest, OptionsView { command: Command::Demo, ..o }, true)
            } else if w == "open"@ {
                outcome(rest, OptionsView { command: Command::Open, ..o }, true)
            } else if w == "close"@ {
                outcome(rest, OptionsView { command: Command::Close, ..o }, true)
            } else {
                Outcome::Rejected(Fault::UnknownCommand, w)
            })
        }),
{
    law_option_words(word.text);
    law_command_and_unit_words(word.text);
    let all = seq![word] + rest;
    assert(all[0] == word);
    assert(all.skip(1) == rest);
}

/// What is returned says what the command line comes to in full: options field by field, and a
/// rejected word with its fault.
pub proof fn law_result_tells_the_outcome(r: Result<Parsed, ArgError>, o: Outcome)
    requires
        comes_to(r, o),
    ensures
        r matches Ok(Parsed::Run(p)) ==> {
            &&& o matches Outcome::Run(v)
            &&& p.command == v.command
            &&& p.unit == v.unit
            &&& p.interval == v.interval
            &&& p.tdp == v.tdp
            &&& p.quiet == v.quiet
            &&& p.temp_label matches Some(s) ==> v.temp_label == Some(s@)
            &&& p.temp_label is None ==> v.temp_label is None
            &&& p.device matches Some(s) ==> v.device == Some(s@)
            &&& p.device is None ==> v.device is None
        },
        r matches Ok(Parsed::Help) ==> o == Outcome::Help,
        r matches Ok(Parsed::Version) ==> o == Outcome::Version,
        r matches Err(e) ==> o == Outcome::Rejected(e.fault, e.word@),
{
}

/// The words of a command line are its arguments, one for one.
pub proof fn law_words_are_the_arguments(args: Seq<Argument>, i: int)
    requires
        0 <= i < args.len(),
    ensures
        line(args).len() == args.len(),
        line(args)[i].text == args[i].text@,
        line(args)[i].seconds == args[i].seconds,
        line(args)[i].watts == args[i].watts,
{
}

/// A rejected word is reported in the same words whatever it is, with the word itself in its
/// place: first where its value is missing, last otherwise.
pub proof fn law_faults_name_the_word(fault: Fault, word: Seq<char>)
    ensures
        fault == Fault::NeedsValue ==> fault_text(fault, word) == word + fault_text(
            fault,
            Seq::empty(),
        ),
        fault != Fault::NeedsValue ==> fault_text(fault, word) == fault_text(fault, Seq::empty())
            + word,
{
    let none = Seq::<char>::empty();
    assert(none + " needs a value"@ == " needs a value"@);
    assert(fault != Fault::NeedsValue ==> fault_text(fault, word) =~= fault_text(fault, none)
        + word);
}

} // verus!
