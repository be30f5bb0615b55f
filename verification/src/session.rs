//! Driving the panel: what to do next, from opening it to leaving it.
//!
//! A [`Session`] decides and the program acts. Each call of [`Session::step`] is told what
//! the clock and the signals say now that the last action is done, and answers with the
//! next one. An action that fails ends the program there and then.

use vstd::prelude::*;

use crate::frame;
use crate::frame::{Report, Sensors, Unit};
use crate::options::Command;
use crate::sensors;
use crate::sensors::Reading;

verus! {

/// How long a demonstration holds its fixed values on screen, in nanoseconds.
pub const DEMO_RUNTIME: u128 = 30_000_000_000;

/// Longest single sleep while waiting for the next refresh, in nanoseconds. Sleeping the
/// whole interval in one call would delay shutdown by up to that interval, because the
/// kernel resumes an interrupted sleep rather than returning early.
pub const SLEEP_SLICE: u128 = 50_000_000;

/// The longest time that can be told, in nanoseconds.
pub const LONGEST: u128 = 18_446_744_073_709_551_615_999_999_999;

/// Deliberately distinctive values, to confirm which field is which: 73.5 degrees, 88 %,
/// 142 W, 5300 MHz and 77 %, as the bits of single-precision floats.
pub open spec fn demo_reading() -> Reading {
    Reading {
        temp_c: 0x4293_0000,
        usage: 0x42B0_0000,
        power: 0x430E_0000,
        freq: 0x45A5_A000,
        ratio: 0x429A_0000,
        power_measured: false,
    }
}

/// The demonstration's temperature on the Fahrenheit scale.
pub const DEMO_FAHRENHEIT: u32 = 0x4324_4CCD;

/// Something to tell the user, if anything is to be told.
#[derive(Debug, Clone, Copy, PartialEq, Eq, Structural)]
pub enum Note {
    /// Which device is in use.
    Device,
    /// The panel was opened, and is left to blank on its own.
    Opened,
    /// The panel was closed.
    Closed,
    /// Which temperature sensor is in use.
    Temperature,
    /// Whether power is measured.
    Power,
    /// Which values the demonstration shows.
    Demo,
}

/// What the program is to do.
#[derive(Debug, Clone, Copy)]
pub enum Action {
    /// Tell the user something.
    Note(Note),
    /// Write a report to the device.
    Send(Report),
    /// Start noticing requests to stop.
    CatchSignals,
    /// Look for the sensors.
    LocateSensors,
    /// Take a sample only to have something to difference the next one against.
    Prime,
    /// Sleep for so many nanoseconds.
    Nap(u128),
    /// Take a sample.
    Sample,
    /// Show the sample on the terminal.
    Show,
    /// Close off the status line.
    EndLine,
    /// Leave.
    Finish,
}

/// The value of an [`Action`].
pub enum Act {
    Note(Note),
    Send(Seq<u8>),
    CatchSignals,
    LocateSensors,
    Prime,
    Nap(u128),
    Sample,
    Show,
    EndLine,
    Finish,
}

impl View for Action {
    type V = Act;

    open spec fn view(&self) -> Act {
        match *self {
            Action::Note(n) => Act::Note(n),
            Action::Send(r) => Act::Send(r@),
            Action::CatchSignals => Act::CatchSignals,
            Action::LocateSensors => Act::LocateSensors,
            Action::Prime => Act::Prime,
            Action::Nap(t) => Act::Nap(t),
            Action::Sample => Act::Sample,
            Action::Show => Act::Show,
            Action::EndLine => Act::EndLine,
            Action::Finish => Act::Finish,
        }
    }
}

/// What the program sees once an action is done.
#[derive(Debug, Clone, Copy)]
pub struct Seen {
    /// Nanoseconds of a steady clock.
    pub now: u128,
    /// Whether a request to stop arrived.
    pub stopping: bool,
    /// The wire values of the last sample.
    pub sensors: Sensors,
}

/// How far a session has come: what it did last.
#[derive(Debug, Clone, Copy, PartialEq, Eq, Structural)]
pub enum Phase {
    /// Nothing yet.
    Start,
    /// Named the device.
    Named,
    /// Opened the panel, which is all that was asked for.
    OpenedOnly,
    /// Closed the panel.
    Closing,
    /// Started to notice requests to stop.
    Catching,
    /// Opened the panel.
    Awake,
    /// Set the unit label.
    Labelled,
    /// Looked for the sensors.
    Located,
    /// Said which temperature sensor is in use.
    TempNoted,
    /// Said whether power is measured.
    PowerNoted,
    /// Took the first sample.
    Primed,
    /// Waits to take the next sample at the time given.
    Waiting(u128),
    /// Took a sample; the next one is due at the time given.
    Sampled(u128),
    /// Sent it.
    Sent(u128),
    /// Showed it.
    Shown(u128),
    /// Closed off the status line, before closing the panel.
    LineEnded,
    /// Announced the demonstration.
    DemoNoted,
    /// Sent the demonstration's values, which are to stay until the time given.
    DemoSent(u128),
    /// Waits to send them again at the first time given.
    DemoWaiting(u128, u128),
    /// Everything is done.
    Ended,
}

/// The value of a [`Session`].
pub struct State {
    pub command: Command,
    pub unit: Unit,
    pub interval: u128,
    pub phase: Phase,
}

/// How long to sleep towards `deadline`, which is not yet due.
pub open spec fn nap(now: u128, deadline: u128) -> u128 {
    if deadline - now <= SLEEP_SLICE {
        (deadline - now) as u128
    } else {
        SLEEP_SLICE
    }
}

/// The report that opens the panel.
pub open spec fn open_report() -> Act {
    Act::Send(frame::frame(frame::display_data(frame::MODE_OPEN)))
}

/// The report that blanks the panel.
pub open spec fn close_report() -> Act {
    Act::Send(frame::frame(frame::display_data(frame::MODE_CLOSE)))
}

/// The report that sets the unit label.
pub open spec fn unit_report(unit: Unit) -> Act {
    Act::Send(frame::frame(frame::unit_data(unit)))
}

/// The report that shows some values.
pub open spec fn sensor_report(s: Sensors, unit: Unit) -> Act {
    Act::Send(frame::frame(frame::sensor_data(s, unit)))
}

/// Waiting for the sample that is due at `deadline`.
pub open spec fn wait(s: State, deadline: u128, seen: Seen) -> (Phase, Act) {
    if seen.stopping {
        (Phase::LineEnded, Act::EndLine)
    } else if seen.now < deadline {
        (Phase::Waiting(deadline), Act::Nap(nap(seen.now, deadline)))
    } else {
        (Phase::Sampled((deadline + s.interval) as u128), Act::Sample)
    }
}

/// Whether the demonstration goes on.
pub open spec fn demo_again(s: State, end: u128, seen: Seen) -> (Phase, Act) {
    if seen.stopping || seen.now >= end {
        (Phase::Closing, close_report())
    } else {
        (
            Phase::DemoSent(end),
            sensor_report(sensors::wire(demo_reading(), s.unit, DEMO_FAHRENHEIT), s.unit),
        )
    }
}

/// Waiting to send the demonstration's values again at `deadline`.
pub open spec fn demo_wait(s: State, deadline: u128, end: u128, seen: Seen) -> (Phase, Act) {
    if seen.stopping {
        (Phase::Closing, close_report())
    } else if seen.now < deadline {
        (Phase::DemoWaiting(deadline, end), Act::Nap(nap(seen.now, deadline)))
    } else {
        demo_again(s, end, seen)
    }
}

/// What a session does next, and how far it has then come.
pub open spec fn next(s: State, seen: Seen) -> (Phase, Act) {
    match s.phase {
        Phase::Start => (Phase::Named, Act::Note(Note::Device)),
        Phase::Named => match s.command {
            Command::Open => (Phase::OpenedOnly, open_report()),
            Command::Close => (Phase::Closing, close_report()),
            _ => (Phase::Catching, Act::CatchSignals),
        },
        Phase::OpenedOnly => (Phase::Ended, Act::Note(Note::Opened)),
        Phase::Closing => (Phase::Ended, Act::Note(Note::Closed)),
        Phase::Catching => (Phase::Awake, open_report()),
        Phase::Awake => (Phase::Labelled, unit_report(s.unit)),
        Phase::Labelled => if s.command == Command::Demo {
            (Phase::DemoNoted, Act::Note(Note::Demo))
        } else {
            (Phase::Located, Act::LocateSensors)
        },
        Phase::Located => (Phase::TempNoted, Act::Note(Note::Temperature)),
        Phase::TempNoted => (Phase::PowerNoted, Act::Note(Note::Power)),
        Phase::PowerNoted => (Phase::Primed, Act::Prime),
        Phase::Primed => wait(s, (seen.now + s.interval) as u128, seen),
        Phase::Waiting(deadline) => wait(s, deadline, seen),
        Phase::Sampled(due) => (Phase::Sent(due), sensor_report(seen.sensors, s.unit)),
        Phase::Sent(due) => (Phase::Shown(due), Act::Show),
        Phase::Shown(due) => if s.command == Command::Once {
            (Phase::Ended, Act::EndLine)
        } else {
            wait(s, due, seen)
        },
        Phase::LineEnded => (Phase::Closing, close_report()),
        Phase::DemoNoted => demo_again(s, (seen.now + DEMO_RUNTIME) as u128, seen),
        Phase::DemoSent(end) => demo_wait(s, (seen.now + s.interval) as u128, end, seen),
        Phase::DemoWaiting(deadline, end) => demo_wait(s, deadline, end, seen),
        Phase::Ended => (Phase::Ended, Act::Finish),
    }
}

/// A run of the program: what it is doing, and when.
#[derive(Debug)]
pub struct Session {
    command: Command,
    unit: Unit,
    interval: u128,
    phase: Phase,
}

impl View for Session {
    type V = State;

    closed spec fn view(&self) -> State {
        State {
            command: self.command,
            unit: self.unit,
            interval: self.interval,
            phase: self.phase,
        }
    }
}

/// Whether the times that a session holds can be told.
pub open spec fn timely(s: State) -> bool {
    &&& s.interval <= LONGEST
    &&& match s.phase {
        Phase::Waiting(t) => t <= 2 * LONGEST,
        Phase::Sampled(t) => t <= 2 * LONGEST,
        Phase::Sent(t) => t <= 2 * LONGEST,
        Phase::Shown(t) => t <= 2 * LONGEST,
        Phase::DemoWaiting(t, _) => t <= 2 * LONGEST,
        _ => true,
    }
}

impl Session {
    /// Begin a run.
    pub fn new(command: Command, unit: Unit, interval: u128) -> (s: Session)
        requires
            interval <= LONGEST,
        ensures
            s@ == (State { command, unit, interval, phase: Phase::Start }),
            timely(s@),
    {
        Session { command, unit, interval, phase: Phase::Start }
    }

    fn wait(&mut self, deadline: u128, seen: &Seen) -> (a: Action)
        requires
            timely(old(self)@),
            deadline <= 2 * LONGEST,
            seen.now <= LONGEST,
        ensures
            final(self)@ == (State { phase: wait(old(self)@, deadline, *seen).0, ..old(self)@ }),
            a@ == wait(old(self)@, deadline, *seen).1,
            timely(final(self)@),
    {
        if seen.stopping {
            self.phase = Phase::LineEnded;
            Action::EndLine
        } else if seen.now < deadline {
            self.phase = Phase::Waiting(deadline);
            let left: u128 = deadline - seen.now;
            Action::Nap(
                if left <= SLEEP_SLICE {
                    left
                } else {
                    SLEEP_SLICE
                },
            )
        } else {
            self.phase = Phase::Sampled(deadline + self.interval);
            Action::Sample
        }
    }

    fn demo_again(&mut self, end: u128, seen: &Seen) -> (a: Action)
        requires
            timely(old(self)@),
        ensures
            final(self)@ == (State { phase: demo_again(old(self)@, end, *seen).0, ..old(self)@ }),
            a@ == demo_again(old(self)@, end, *seen).1,
            timely(final(self)@),
    {
        if seen.stopping || seen.now >= end {
            self.phase = Phase::Closing;
            Action::Send(frame::close())
        } else {
            self.phase = Phase::DemoSent(end);
            let reading = Reading {
                temp_c: 0x4293_0000,
                usage: 0x42B0_0000,
                power: 0x430E_0000,
                freq: 0x45A5_A000,
                ratio: 0x429A_0000,
                power_measured: false,
            };
            let values: Sensors = reading.to_frame(self.unit, DEMO_FAHRENHEIT);
            Action::Send(frame::sensor(&values, self.unit))
        }
    }

    fn demo_wait(&mut self, deadline: u128, end: u128, seen: &Seen) -> (a: Action)
        requires
            timely(old(self)@),
            deadline <= 2 * LONGEST,
        ensures
            final(self)@ == (State {
                phase: demo_wait(old(self)@, deadline, end, *seen).0,
                ..old(self)@
            }),
            a@ == demo_wait(old(self)@, deadline, end, *seen).1,
            timely(final(self)@),
    {
        if seen.stopping {
            self.phase = Phase::Closing;
            Action::Send(frame::close())
        } else if seen.now < deadline {
            self.phase = Phase::DemoWaiting(deadline, end);
            let left: u128 = deadline - seen.now;
            Action::Nap(
                if left <= SLEEP_SLICE {
                    left
                } else {
                    SLEEP_SLICE
                },
            )
        } else {
            self.demo_again(end, seen)
        }
    }

    /// What to do next, given what is seen now that the last action is done.
    pub fn step(&mut self, seen: &Seen) -> (a: Action)
        requires
            timely(old(self)@),
            seen.now <= LONGEST,
        ensures
            final(self)@ == (State { phase: next(old(self)@, *seen).0, ..old(self)@ }),
            a@ == next(old(self)@, *seen).1,
            timely(final(self)@),
    {
        match self.phase {
            Phase::Start => {
                self.phase = Phase::Named;
                Action::Note(Note::Device)
            },
            Phase::Named => match self.command {
                Command::Open => {
                    self.phase = Phase::OpenedOnly;
                    Action::Send(frame::open())
                },
                Command::Close => {
                    self.phase = Phase::Closing;
                    Action::Send(frame::close())
                },
                _ => {
                    self.phase = Phase::Catching;
                    Action::CatchSignals
                },
            },
            Phase::OpenedOnly => {
                self.phase = Phase::Ended;
                Action::Note(Note::Opened)
            },
            Phase::Closing => {
                self.phase = Phase::Ended;
                Action::Note(Note::Closed)
            },
            Phase::Catching => {
                self.phase = Phase::Awake;
                Action::Send(frame::open())
            },
            Phase::Awake => {
                self.phase = Phase::Labelled;
                Action::Send(frame::set_unit(self.unit))
            },
            Phase::Labelled => if self.command == Command::Demo {
                self.phase = Phase::DemoNoted;
                Action::Note(Note::Demo)
            } else {
                self.phase = Phase::Located;
                Action::LocateSensors
            },
            Phase::Located => {
                self.phase = Phase::TempNoted;
                Action::Note(Note::Temperature)
            },
            Phase::TempNoted => {
                self.phase = Phase::PowerNoted;
                Action::Note(Note::Power)
            },
            Phase::PowerNoted => {
                self.phase = Phase::Primed;
                Action::Prime
            },
            Phase::Primed => {
                let deadline: u128 = seen.now + self.interval;
                self.wait(deadline, seen)
            },
            Phase::Waiting(deadline) => self.wait(deadline, seen),
            Phase::Sampled(due) => {
                self.phase = Phase::Sent(due);
                Action::Send(frame::sensor(&seen.sensors, self.unit))
            },
            Phase::Sent(due) => {
                self.phase = Phase::Shown(due);
                Action::Show
            },
            Phase::Shown(due) => if self.command == Command::Once {
                // Leave the value on screen; the firmware blanks it a few seconds later.
                self.phase = Phase::Ended;
                Action::EndLine
            } else {
                self.wait(due, seen)
            },
            Phase::LineEnded => {
                self.phase = Phase::Closing;
                Action::Send(frame::close())
            },
            Phase::DemoNoted => {
                let end: u128 = seen.now + DEMO_RUNTIME;
                self.demo_again(end, seen)
            },
            Phase::DemoSent(end) => {
                let deadline: u128 = seen.now + self.interval;
                self.demo_wait(deadline, end, seen)
            },
            Phase::DemoWaiting(deadline, end) => self.demo_wait(deadline, end, seen),
            Phase::Ended => Action::Finish,
        }
    }
}

/// The state in which a run begins.
pub open spec fn begun(command: Command, unit: Unit, interval: u128) -> State {
    State { command, unit, interval, phase: Phase::Start }
}

/// The state after as many steps as things were seen.
pub open spec fn after(s: State, seen: Seq<Seen>) -> State
    decreases seen.len(),
{
    if seen.len() == 0 {
        s
    } else {
        let t = after(s, seen.drop_last());
        State { phase: next(t, seen.last()).0, ..t }
    }
}

/// The actions of those steps.
pub open spec fn acts(s: State, seen: Seq<Seen>) -> Seq<Act>
    decreases seen.len(),
{
    if seen.len() == 0 {
        Seq::empty()
    } else {
        acts(s, seen.drop_last()).push(next(after(s, seen.drop_last()), seen.last()).1)
    }
}

/// How often `a` was done.
pub open spec fn times(done: Seq<Act>, a: Act) -> nat
    decreases done.len(),
{
    if done.len() == 0 {
        0
    } else {
        times(done.drop_last(), a) + if done.last() == a {
            1nat
        } else {
            0nat
        }
    }
}

proof fn lemma_run(s: State, seen: Seq<Seen>)
    ensures
        acts(s, seen).len() == seen.len(),
        after(s, seen).command == s.command,
        after(s, seen).unit == s.unit,
        after(s, seen).interval == s.interval,
    decreases seen.len(),
{
    if seen.len() > 0 {
        lemma_run(s, seen.drop_last());
    }
}

proof fn lemma_act_at(s: State, seen: Seq<Seen>, k: int)
    requires
        0 <= k < seen.len(),
    ensures
        acts(s, seen).len() == seen.len(),
        acts(s, seen).take(k) == acts(s, seen.take(k)),
        acts(s, seen)[k] == next(after(s, seen.take(k)), seen[k]).1,
    decreases seen.len(),
{
    lemma_run(s, seen);
    lemma_run(s, seen.drop_last());
    let before = seen.drop_last();
    if k < before.len() {
        lemma_act_at(s, before, k);
        assert(before.take(k) == seen.take(k));
        assert(acts(s, seen).take(k) == acts(s, before).take(k));
    } else {
        assert(seen.take(k) == before);
        assert(acts(s, seen).take(k) == acts(s, before));
    }
}

/// Whether the open report was sent, and the unit label after it.
pub open spec fn woken(done: Seq<Act>, unit: Unit) -> bool {
    exists|i: int, j: int|
        0 <= i < j < done.len() && #[trigger] done[i] == open_report() && #[trigger] done[j]
            == unit_report(unit)
}

/// The phases that follow the unit label.
spec fn past_label(p: Phase) -> bool {
    match p {
        Phase::Labelled => true,
        Phase::Located => true,
        Phase::TempNoted => true,
        Phase::PowerNoted => true,
        Phase::Primed => true,
        Phase::Waiting(_) => true,
        Phase::Sampled(_) => true,
        Phase::Sent(_) => true,
        Phase::Shown(_) => true,
        Phase::LineEnded => true,
        Phase::DemoNoted => true,
        Phase::DemoSent(_) => true,
        Phase::DemoWaiting(_, _) => true,
        _ => false,
    }
}

proof fn lemma_woken(s: State, seen: Seq<Seen>)
    requires
        s.phase == Phase::Start,
    ensures
        after(s, seen).phase == Phase::Awake ==> acts(s, seen).len() > 0 && acts(s, seen).last()
            == open_report(),
        past_label(after(s, seen).phase) ==> woken(acts(s, seen), s.unit),
    decreases seen.len(),
{
    lemma_run(s, seen);
    if seen.len() > 0 {
        let before = seen.drop_last();
        lemma_woken(s, before);
        lemma_run(s, before);
        let old_acts = acts(s, before);
        let new_acts = acts(s, seen);
        let p = after(s, before).phase;
        if p == Phase::Awake {
            let j = new_acts.len() - 1;
            assert(new_acts[j - 1] == open_report());
            assert(new_acts[j] == unit_report(s.unit));
        } else if past_label(p) {
            let (i, j) = choose|i: int, j: int|
                0 <= i < j < old_acts.len() && #[trigger] old_acts[i] == open_report()
                    && #[trigger] old_acts[j] == unit_report(s.unit);
            assert(new_acts[i] == open_report());
            assert(new_acts[j] == unit_report(s.unit));
        }
    }
}

/// The panel is opened, and told its unit, before it is sent any values, and the values
/// are sent in that unit.
pub proof fn law_panel_is_opened_before_values(
    command: Command,
    unit: Unit,
    interval: u128,
    seen: Seq<Seen>,
    k: int,
    values: Sensors,
    sent_unit: Unit,
)
    requires
        0 <= k < seen.len(),
        acts(begun(command, unit, interval), seen)[k] == sensor_report(values, sent_unit),
    ensures
        sent_unit == unit,
        woken(acts(begun(command, unit, interval), seen).take(k), unit),
{
    let s = begun(command, unit, interval);
    lemma_act_at(s, seen, k);
    lemma_woken(s, seen.take(k));
    lemma_run(s, seen.take(k));
    frame::law_kinds_are_distinct(values, sent_unit, unit);
    let t = after(s, seen.take(k));
    let demo = sensors::wire(demo_reading(), unit, DEMO_FAHRENHEIT);
    frame::law_sensor_values_survive(values, sent_unit, demo, unit);
    frame::law_sensor_values_survive(values, sent_unit, seen[k].sensors, unit);
}

/// Whether the last report sent is the one that blanks the panel.
pub open spec fn left_blank(done: Seq<Act>) -> bool {
    exists|k: int|
        {
            &&& 0 <= k < done.len()
            &&& #[trigger] done[k] == close_report()
            &&& forall|j: int| k < j < done.len() ==> !((#[trigger] done[j]) is Send)
        }
}

proof fn lemma_left_blank(s: State, seen: Seq<Seen>)
    requires
        s.phase == Phase::Start,
    ensures
        after(s, seen).phase == Phase::OpenedOnly ==> s.command == Command::Open,
        after(s, seen).phase == Phase::Closing ==> left_blank(acts(s, seen)),
        after(s, seen).phase == Phase::Ended && s.command != Command::Open && s.command
            != Command::Once ==> left_blank(acts(s, seen)),
    decreases seen.len(),
{
    lemma_run(s, seen);
    if seen.len() > 0 {
        let before = seen.drop_last();
        lemma_left_blank(s, before);
        lemma_run(s, before);
        let old_acts = acts(s, before);
        let new_acts = acts(s, seen);
        if after(s, seen).phase == Phase::Closing {
            assert(new_acts[new_acts.len() - 1] == close_report());
        } else if left_blank(old_acts) {
            let k = choose|k: int|
                {
                    &&& 0 <= k < old_acts.len()
                    &&& #[trigger] old_acts[k] == close_report()
                    &&& forall|j: int| k < j < old_acts.len() ==> !((#[trigger] old_acts[j]) is Send)
                };
            if !(new_acts.last() is Send) {
                assert(new_acts[k] == close_report());
                assert forall|j: int| k < j < new_acts.len() implies !((#[trigger] new_acts[j]) is Send) by {
                    if j < old_acts.len() {
                        assert(new_acts[j] == old_acts[j]);
                    }
                }
                assert(left_blank(new_acts));
            }
        }
    }
}

/// A stream, a demonstration or a close command that ends has blanked the panel, and sent
/// nothing after that.
pub proof fn law_panel_is_left_blank(
    command: Command,
    unit: Unit,
    interval: u128,
    seen: Seq<Seen>,
)
    requires
        command != Command::Open,
        command != Command::Once,
        after(begun(command, unit, interval), seen).phase == Phase::Ended,
    ensures
        left_blank(acts(begun(command, unit, interval), seen)),
{
    lemma_left_blank(begun(command, unit, interval), seen);
}

proof fn lemma_stays_lit(s: State, seen: Seq<Seen>)
    requires
        s.phase == Phase::Start,
        s.command == Command::Open || s.command == Command::Once,
    ensures
        ({
            let p = after(s, seen).phase;
            let done = acts(s, seen);
            &&& s.command == Command::Open ==> (p == Phase::Start || p == Phase::Named || p
                == Phase::OpenedOnly || p == Phase::Ended)
            &&& s.command == Command::Open ==> !done.contains(close_report())
            &&& p != Phase::Closing && p != Phase::Ended ==> !done.contains(close_report())
            &&& done.contains(Act::Show) ==> !done.contains(close_report()) && (p is Shown || p
                == Phase::Ended)
        }),
    decreases seen.len(),
{
    lemma_run(s, seen);
    if seen.len() == 0 {
        assert(!acts(s, seen).contains(Act::Show));
    } else {
        let before = seen.drop_last();
        lemma_stays_lit(s, before);
        lemma_run(s, before);
        let old_acts = acts(s, before);
        let new_acts = acts(s, seen);
        let values = seen.last().sensors;
        frame::law_kinds_are_distinct(values, s.unit, s.unit);
        frame::law_kinds_are_distinct(
            sensors::wire(demo_reading(), s.unit, DEMO_FAHRENHEIT),
            s.unit,
            s.unit,
        );
        assert forall|a: Act| new_acts.contains(a) implies old_acts.contains(a) || a
            == new_acts.last() by {
            let k = choose|k: int| 0 <= k < new_acts.len() && new_acts[k] == a;
            if k < old_acts.len() {
                assert(old_acts[k] == a);
            }
        }
    }
}

/// Opening the panel, or showing a single sample, leaves it lit: it is never blanked.
pub proof fn law_panel_is_left_lit(
    command: Command,
    unit: Unit,
    interval: u128,
    seen: Seq<Seen>,
)
    requires
        command == Command::Open || (command == Command::Once && acts(
            begun(command, unit, interval),
            seen,
        ).contains(Act::Show)),
    ensures
        !acts(begun(command, unit, interval), seen).contains(close_report()),
{
    lemma_stays_lit(begun(command, unit, interval), seen);
}

/// A sleep is never empty and never longer than a slice, so a request to stop is noticed
/// within one.
pub proof fn law_naps_are_short(s: State, seen: Seen)
    requires
        timely(s),
        seen.now <= LONGEST,
    ensures
        next(s, seen).1 matches Act::Nap(t) ==> 0 < t <= SLEEP_SLICE,
{
}

/// Whether a session is showing live samples and looks for requests to stop.
pub open spec fn streaming(s: State) -> bool {
    match s.phase {
        Phase::Primed => true,
        Phase::Waiting(_) => true,
        Phase::Shown(_) => s.command != Command::Once,
        _ => false,
    }
}

/// Whether a session is showing the demonstration and looks for requests to stop.
pub open spec fn demonstrating(s: State) -> bool {
    match s.phase {
        Phase::DemoNoted => true,
        Phase::DemoSent(_) => true,
        Phase::DemoWaiting(_, _) => true,
        _ => false,
    }
}

/// A request to stop is answered by blanking the panel and leaving; no further values are
/// sent, whatever is seen after it.
pub proof fn law_stopping_blanks_the_panel(s: State, seen: Seq<Seen>)
    requires
        seen.len() == 4,
        seen[0].stopping,
        streaming(s) || demonstrating(s),
    ensures
        streaming(s) ==> acts(s, seen) == seq![
            Act::EndLine,
            close_report(),
            Act::Note(Note::Closed),
            Act::Finish,
        ],
        demonstrating(s) ==> acts(s, seen) == seq![
            close_report(),
            Act::Note(Note::Closed),
            Act::Finish,
            Act::Finish,
        ],
{
    let none = seen.take(0);
    let one = seen.take(1);
    let two = seen.take(2);
    let three = seen.take(3);
    assert(one.drop_last() == none);
    assert(two.drop_last() == one);
    assert(three.drop_last() == two);
    assert(seen.drop_last() == three);
    assert(after(s, none) == s);
    assert(after(s, one).phase == next(s, seen[0]).0);
    assert(after(s, two).phase == next(after(s, one), seen[1]).0);
    assert(after(s, three).phase == next(after(s, two), seen[2]).0);
    assert(acts(s, none) == Seq::<Act>::empty());
    assert(acts(s, one) == seq![next(s, seen[0]).1]);
    assert(acts(s, two) == seq![next(s, seen[0]).1, next(after(s, one), seen[1]).1]);
    assert(acts(s, three) == acts(s, two).push(next(after(s, two), seen[2]).1));
    assert(acts(s, seen) == acts(s, three).push(next(after(s, three), seen[3]).1));
}

/// How many samples were taken.
pub open spec fn samples(done: Seq<Act>) -> nat {
    times(done, Act::Sample)
}

/// When the sample after `n` others is due.
spec fn due(base: u128, n: nat, interval: u128) -> int {
    base + (n + 1) * interval
}

proof fn lemma_cadence(s: State, seen: Seq<Seen>)
    requires
        s.phase == Phase::Primed,
        timely(s),
        seen.len() > 0,
        forall|i: int| 0 <= i < seen.len() ==> (#[trigger] seen[i]).now <= LONGEST,
    ensures
        timely(after(s, seen)),
        ({
            let n = samples(acts(s, seen));
            let at = due(seen[0].now, n, s.interval);
            match after(s, seen).phase {
                Phase::Waiting(t) => t == at,
                Phase::Sampled(t) => t == at,
                Phase::Sent(t) => t == at,
                Phase::Shown(t) => t == at,
                Phase::LineEnded => true,
                Phase::Closing => true,
                Phase::Ended => true,
                _ => false,
            }
        }),
        acts(s, seen).last() == Act::Sample ==> seen.last().now >= seen[0].now + samples(
            acts(s, seen),
        ) * s.interval,
    decreases seen.len(),
{
    lemma_run(s, seen);
    let before = seen.drop_last();
    lemma_run(s, before);
    let done = acts(s, before);
    assert(acts(s, seen).drop_last() == done);
    let n = samples(done);
    let step = s.interval as int;
    assert((n + 2) * step == (n + 1) * step + step) by (nonlinear_arith);
    assert(1 * step == step);
    if seen.len() == 1 {
        assert(before.len() == 0);
        assert(done == Seq::<Act>::empty());
        assert(n == 0);
        assert(seen.last() == seen[0]);
        assert(after(s, before) == s);
        assert(2 * step == step + step);
    } else {
        assert(before[0] == seen[0]);
        lemma_cadence(s, before);
    }
}

/// Samples keep time: the n-th one is not taken before n whole intervals have passed since
/// the first deadline was set, however late the ones before it came.
pub proof fn law_samples_keep_time(s: State, seen: Seq<Seen>, k: int)
    requires
        s.phase == Phase::Primed,
        timely(s),
        forall|i: int| 0 <= i < seen.len() ==> (#[trigger] seen[i]).now <= LONGEST,
        0 <= k < seen.len(),
        acts(s, seen)[k] == Act::Sample,
    ensures
        seen[k].now >= seen[0].now + samples(acts(s, seen.take(k + 1))) * s.interval,
{
    let upto = seen.take(k + 1);
    lemma_act_at(s, seen, k);
    lemma_act_at(s, upto, k);
    assert(upto.take(k) == seen.take(k));
    lemma_cadence(s, upto);
    assert(upto.last() == seen[k]);
    lemma_run(s, upto);
    assert(acts(s, upto).last() == acts(s, upto)[k]);
}

proof fn lemma_one_sample(s: State, seen: Seq<Seen>)
    requires
        s.phase == Phase::Start,
        s.command == Command::Once,
    ensures
        ({
            let n = samples(acts(s, seen));
            match after(s, seen).phase {
                Phase::Sampled(_) => n == 1,
                Phase::Sent(_) => n == 1,
                Phase::Shown(_) => n == 1,
                Phase::Closing => n == 0,
                Phase::Ended => n <= 1,
                Phase::OpenedOnly => false,
                Phase::DemoNoted => false,
                Phase::DemoSent(_) => false,
                Phase::DemoWaiting(_, _) => false,
                _ => n == 0,
            }
        }),
    decreases seen.len(),
{
    lemma_run(s, seen);
    if seen.len() > 0 {
        let before = seen.drop_last();
        lemma_run(s, before);
        lemma_one_sample(s, before);
        assert(acts(s, seen).drop_last() == acts(s, before));
    }
}

/// A single sample is just that.
pub proof fn law_once_takes_one_sample(unit: Unit, interval: u128, seen: Seq<Seen>)
    ensures
        samples(acts(begun(Command::Once, unit, interval), seen)) <= 1,
{
    lemma_one_sample(begun(Command::Once, unit, interval), seen);
}

proof fn lemma_demo_end(s: State, seen: Seq<Seen>)
    requires
        s.phase == Phase::DemoNoted,
        seen.len() > 0,
        seen[0].now <= LONGEST,
    ensures
        ({
            let end = seen[0].now + DEMO_RUNTIME;
            match after(s, seen).phase {
                Phase::DemoSent(t) => t == end && (acts(s, seen).last() is Send
                    ==> seen.last().now < end),
                Phase::DemoWaiting(_, t) => t == end && !(acts(s, seen).last() is Send),
                Phase::Closing => acts(s, seen).last() == close_report(),
                Phase::Ended => !(acts(s, seen).last() is Send),
                _ => false,
            }
        }),
    decreases seen.len(),
{
    lemma_run(s, seen);
    let before = seen.drop_last();
    if before.len() == 0 {
        assert(seen.last() == seen[0]);
        assert(after(s, before) == s);
    } else {
        assert(before[0] == seen[0]);
        lemma_demo_end(s, before);
    }
}

/// A demonstration sends its values for its runtime and no longer: what it sends after
/// that only blanks the panel.
pub proof fn law_demonstration_ends(s: State, seen: Seq<Seen>, k: int)
    requires
        s.phase == Phase::DemoNoted,
        0 <= k < seen.len(),
        seen[0].now <= LONGEST,
        acts(s, seen)[k] is Send,
    ensures
        seen[k].now < seen[0].now + DEMO_RUNTIME || acts(s, seen)[k] == close_report(),
{
    let upto = seen.take(k + 1);
    lemma_act_at(s, seen, k);
    lemma_act_at(s, upto, k);
    assert(upto.take(k) == seen.take(k));
    lemma_demo_end(s, upto);
    lemma_run(s, upto);
    assert(upto.last() == seen[k]);
    assert(acts(s, upto).last() == acts(s, upto)[k]);
}

proof fn lemma_demo_goes_on(s: State, seen: Seq<Seen>, end: int)
    requires
        s.phase == Phase::DemoNoted,
        seen.len() > 0,
        seen[0].now <= LONGEST,
        end == seen[0].now + DEMO_RUNTIME,
        forall|i: int| 0 <= i < seen.len() ==> !(#[trigger] seen[i]).stopping && seen[i].now < end,
    ensures
        match after(s, seen).phase {
            Phase::DemoSent(t) => t == end,
            Phase::DemoWaiting(_, t) => t == end,
            _ => false,
        },
        acts(s, seen).last() is Nap || acts(s, seen).last() == sensor_report(
            sensors::wire(demo_reading(), s.unit, DEMO_FAHRENHEIT),
            s.unit,
        ),
    decreases seen.len(),
{
    lemma_run(s, seen);
    let before = seen.drop_last();
    lemma_run(s, before);
    assert(!seen[seen.len() - 1].stopping);
    if before.len() == 0 {
        assert(seen.last() == seen[0]);
        assert(after(s, before) == s);
    } else {
        assert(before[0] == seen[0]);
        assert forall|i: int| 0 <= i < before.len() implies !(#[trigger] before[i]).stopping
            && before[i].now < end by {
            assert(before[i] == seen[i]);
        }
        lemma_demo_goes_on(s, before, end);
    }
}

/// Until its runtime is over or a request to stop arrives, a demonstration does nothing but
/// send its values and sleep.
pub proof fn law_demonstration_holds(s: State, seen: Seq<Seen>, k: int)
    requires
        s.phase == Phase::DemoNoted,
        0 <= k < seen.len(),
        seen[0].now <= LONGEST,
        forall|i: int|
            0 <= i <= k ==> !(#[trigger] seen[i]).stopping && seen[i].now < seen[0].now
                + DEMO_RUNTIME,
    ensures
        acts(s, seen)[k] is Nap || acts(s, seen)[k] == sensor_report(
            sensors::wire(demo_reading(), s.unit, DEMO_FAHRENHEIT),
            s.unit,
        ),
{
    let upto = seen.take(k + 1);
    lemma_act_at(s, seen, k);
    lemma_act_at(s, upto, k);
    assert(upto.take(k) == seen.take(k));
    lemma_demo_goes_on(s, upto, seen[0].now + DEMO_RUNTIME);
    lemma_run(s, upto);
    assert(acts(s, upto).last() == acts(s, upto)[k]);
}

proof fn lemma_stream_goes_on(s: State, seen: Seq<Seen>)
    requires
        s.phase == Phase::Start,
        s.command == Command::Stream,
        forall|i: int| 0 <= i < seen.len() ==> !(#[trigger] seen[i]).stopping,
    ensures
        match after(s, seen).phase {
            Phase::OpenedOnly => false,
            Phase::Closing => false,
            Phase::LineEnded => false,
            Phase::DemoNoted => false,
            Phase::DemoSent(_) => false,
            Phase::DemoWaiting(_, _) => false,
            Phase::Ended => false,
            _ => true,
        },
        !acts(s, seen).contains(close_report()),
        !acts(s, seen).contains(Act::Finish),
    decreases seen.len(),
{
    lemma_run(s, seen);
    if seen.len() > 0 {
        let before = seen.drop_last();
        lemma_run(s, before);
        assert(!seen[seen.len() - 1].stopping);
        assert forall|i: int| 0 <= i < before.len() implies !(#[trigger] before[i]).stopping by {
            assert(before[i] == seen[i]);
        }
        lemma_stream_goes_on(s, before);
        frame::law_kinds_are_distinct(seen.last().sensors, s.unit, s.unit);
        let old_acts = acts(s, before);
        let new_acts = acts(s, seen);
        assert forall|a: Act| new_acts.contains(a) implies old_acts.contains(a) || a
            == new_acts.last() by {
            let k = choose|k: int| 0 <= k < new_acts.len() && new_acts[k] == a;
            if k < old_acts.len() {
                assert(old_acts[k] == a);
            }
        }
    }
}

/// A stream goes on until a request to stop arrives: before that it neither blanks the
/// panel nor leaves.
pub proof fn law_stream_runs_until_stopped(unit: Unit, interval: u128, seen: Seq<Seen>)
    requires
        forall|i: int| 0 <= i < seen.len() ==> !(#[trigger] seen[i]).stopping,
    ensures
        !acts(begun(Command::Stream, unit, interval), seen).contains(close_report()),
        !acts(begun(Command::Stream, unit, interval), seen).contains(Act::Finish),
{
    lemma_stream_goes_on(begun(Command::Stream, unit, interval), seen);
}

proof fn lemma_catching(s: State, seen: Seq<Seen>)
    requires
        s.phase == Phase::Start,
    ensures
        after(s, seen).phase == Phase::Catching ==> acts(s, seen).len() > 0 && acts(s, seen).last()
            == Act::CatchSignals,
{
    lemma_run(s, seen);
}

/// A panel that is opened to be driven is opened only once requests to stop are noticed, so
/// that it can be blanked rather than left to time out.
pub proof fn law_signals_are_caught_before_opening(
    command: Command,
    unit: Unit,
    interval: u128,
    seen: Seq<Seen>,
    k: int,
)
    requires
        command != Command::Open,
        0 <= k < seen.len(),
        acts(begun(command, unit, interval), seen)[k] == open_report(),
    ensures
        acts(begun(command, unit, interval), seen).take(k).contains(Act::CatchSignals),
{
    let s = begun(command, unit, interval);
    let before = seen.take(k);
    lemma_act_at(s, seen, k);
    lemma_run(s, before);
    lemma_catching(s, before);
    frame::law_kinds_are_distinct(seen[k].sensors, unit, unit);
    frame::law_kinds_are_distinct(
        sensors::wire(demo_reading(), unit, DEMO_FAHRENHEIT),
        unit,
        unit,
    );
    let done = acts(s, before);
    assert(done[done.len() - 1] == Act::CatchSignals);
}

#[verifier::rlimit(60)]
proof fn lemma_sent_once(s: State, seen: Seq<Seen>)
    requires
        s.phase == Phase::Start,
    ensures
        ({
            let done = acts(s, seen);
            let p = after(s, seen).phase;
            let opened = times(done, open_report());
            let labelled = times(done, unit_report(s.unit));
            let closed = times(done, close_report());
            let driven = s.command == Command::Stream || s.command == Command::Demo;
            match p {
                Phase::Start => opened == 0 && labelled == 0 && closed == 0,
                Phase::Named => opened == 0 && labelled == 0 && closed == 0,
                Phase::Catching => opened == 0 && labelled == 0 && closed == 0 && s.command
                    != Command::Close,
                Phase::OpenedOnly => opened == 1 && labelled == 0 && closed == 0 && !driven,
                Phase::Awake => opened == 1 && labelled == 0 && closed == 0,
                Phase::Closing => opened <= 1 && labelled <= 1 && closed == 1 && (driven ==> opened
                    == 1 && labelled == 1),
                Phase::Ended => opened <= 1 && labelled <= 1 && closed <= 1 && (driven ==> opened
                    == 1 && labelled == 1 && closed == 1),
                _ => opened == 1 && labelled == 1 && closed == 0,
            }
        }),
    decreases seen.len(),
{
    lemma_run(s, seen);
    if seen.len() > 0 {
        let before = seen.drop_last();
        lemma_run(s, before);
        lemma_sent_once(s, before);
        assert(acts(s, seen).drop_last() == acts(s, before));
        frame::law_kinds_are_distinct(seen.last().sensors, s.unit, s.unit);
        frame::law_kinds_are_distinct(
            sensors::wire(demo_reading(), s.unit, DEMO_FAHRENHEIT),
            s.unit,
            s.unit,
        );
    }
}

/// The panel is opened, told its unit and closed at most once each; a stream or a
/// demonstration that ended did each exactly once.
pub proof fn law_panel_is_opened_and_closed_once(
    command: Command,
    unit: Unit,
    interval: u128,
    seen: Seq<Seen>,
)
    ensures
        ({
            let s = begun(command, unit, interval);
            let done = acts(s, seen);
            &&& times(done, open_report()) <= 1
            &&& times(done, unit_report(unit)) <= 1
            &&& times(done, close_report()) <= 1
            &&& after(s, seen).phase == Phase::Ended && (command == Command::Stream || command
                == Command::Demo) ==> times(done, open_report()) == 1 && times(
                done,
                unit_report(unit),
            ) == 1 && times(done, close_report()) == 1
        }),
{
    lemma_sent_once(begun(command, unit, interval), seen);
}

proof fn lemma_live(s: State, seen: Seq<Seen>)
    requires
        s.phase == Phase::Start,
    ensures
        after(s, seen).phase is Sampled <==> seen.len() > 0 && acts(s, seen).last() == Act::Sample,
        s.command != Command::Demo ==> match after(s, seen).phase {
            Phase::DemoNoted => false,
            Phase::DemoSent(_) => false,
            Phase::DemoWaiting(_, _) => false,
            _ => true,
        },
    decreases seen.len(),
{
    lemma_run(s, seen);
    if seen.len() > 0 {
        lemma_run(s, seen.drop_last());
        lemma_live(s, seen.drop_last());
    }
}

/// Every sample is sent at once, in the unit asked for.
pub proof fn law_each_sample_is_sent(
    command: Command,
    unit: Unit,
    interval: u128,
    seen: Seq<Seen>,
    k: int,
)
    requires
        0 <= k,
        k + 1 < seen.len(),
        acts(begun(command, unit, interval), seen)[k] == Act::Sample,
    ensures
        acts(begun(command, unit, interval), seen)[k + 1] == sensor_report(
            seen[k + 1].sensors,
            unit,
        ),
{
    let s = begun(command, unit, interval);
    let upto = seen.take(k + 1);
    lemma_act_at(s, seen, k);
    lemma_act_at(s, seen, k + 1);
    lemma_run(s, upto);
    lemma_live(s, upto);
    assert(acts(s, upto).last() == acts(s, seen).take(k + 1)[k]);
}

/// Outside a demonstration no values are sent but those of a sample just taken, so that
/// each sample is sent once.
pub proof fn law_only_samples_are_sent(
    command: Command,
    unit: Unit,
    interval: u128,
    seen: Seq<Seen>,
    k: int,
    values: Sensors,
    sent_unit: Unit,
)
    requires
        command != Command::Demo,
        0 <= k < seen.len(),
        acts(begun(command, unit, interval), seen)[k] == sensor_report(values, sent_unit),
    ensures
        k > 0,
        acts(begun(command, unit, interval), seen)[k - 1] == Act::Sample,
        values == seen[k].sensors,
{
    let s = begun(command, unit, interval);
    let before = seen.take(k);
    lemma_act_at(s, seen, k);
    lemma_run(s, before);
    lemma_live(s, before);
    frame::law_kinds_are_distinct(values, sent_unit, unit);
    frame::law_sensor_values_survive(values, sent_unit, seen[k].sensors, unit);
    assert(acts(s, before).last() == acts(s, seen).take(k)[k - 1]);
}

/// What a run that shows live samples does first, whatever it sees.
pub open spec fn live_start(unit: Unit) -> Seq<Act> {
    seq![
        Act::Note(Note::Device),
        Act::CatchSignals,
        open_report(),
        unit_report(unit),
        Act::LocateSensors,
        Act::Note(Note::Temperature),
        Act::Note(Note::Power),
        Act::Prime,
    ]
}

#[verifier::rlimit(60)]
proof fn lemma_live_trace(s: State, seen: Seq<Seen>)
    requires
        s.phase == Phase::Start,
        s.command == Command::Stream || s.command == Command::Once,
        s.interval <= LONGEST,
        forall|i: int| 0 <= i < seen.len() ==> (#[trigger] seen[i]).now <= LONGEST,
    ensures
        timely(after(s, seen)),
        acts(s, seen).len() == seen.len(),
        ({
            let done = acts(s, seen);
            let n = done.len() as int;
            let at = due(seen[8].now, samples(done), s.interval);
            &&& forall|i: int| 0 <= i < n && i < 8 ==> #[trigger] done[i] == live_start(s.unit)[i]
            &&& match after(s, seen).phase {
                Phase::Start => n == 0,
                Phase::Named => n == 1,
                Phase::Catching => n == 2,
                Phase::Awake => n == 3,
                Phase::Labelled => n == 4,
                Phase::Located => n == 5,
                Phase::TempNoted => n == 6,
                Phase::PowerNoted => n == 7,
                Phase::Primed => n == 8 && samples(done) == 0,
                Phase::Waiting(t) => n > 8 && done[n - 1] is Nap && t == at,
                Phase::Sampled(t) => n > 8 && done[n - 1] == Act::Sample && t == at,
                Phase::Sent(t) => n > 9 && done[n - 1] is Send && done[n - 2] == Act::Sample && t
                    == at,
                Phase::Shown(t) => n > 10 && done[n - 1] == Act::Show && t == at,
                Phase::LineEnded => n > 8 && done[n - 1] == Act::EndLine && !(s.command
                    == Command::Once && done[n - 2] == Act::Show),
                Phase::Closing => n > 9 && done[n - 1] is Send && done[n - 2] == Act::EndLine,
                Phase::Ended => n > 9 && ((done[n - 1] == Act::EndLine && s.command
                    == Command::Once && done[n - 2] == Act::Show) || done[n - 1] == Act::Note(
                    Note::Closed,
                ) || done[n - 1] == Act::Finish),
                _ => false,
            }
            &&& n < 8 ==> samples(done) == 0
        }),
    decreases seen.len(),
{
    lemma_run(s, seen);
    if seen.len() > 0 {
        let before = seen.drop_last();
        assert forall|i: int| 0 <= i < before.len() implies (#[trigger] before[i]).now <= LONGEST by {
            assert(before[i] == seen[i]);
        }
        lemma_live_trace(s, before);
        lemma_run(s, before);
        let old_acts = acts(s, before);
        let done = acts(s, seen);
        assert(done.drop_last() == old_acts);
        assert(seen.last().now <= LONGEST) by {
            assert(seen[seen.len() - 1].now <= LONGEST);
        }
        assert forall|i: int| 0 <= i < old_acts.len() implies #[trigger] done[i] == old_acts[i] by {
        }
        let m = samples(old_acts);
        let step = s.interval as int;
        assert((m + 2) * step == (m + 1) * step + step) by (nonlinear_arith);
        assert(1 * step == step);
        assert(2 * step == step + step);
        if before.len() > 8 {
            assert(before[8] == seen[8]);
        } else if before.len() == 8 {
            assert(seen[8] == seen.last());
        }
    }
}

/// A run that shows live samples starts the same way whatever it sees: it names the device,
/// starts to notice requests to stop, opens the panel, tells it the unit, looks for the
/// sensors, says what it found, and takes the first sample only to have something to
/// difference the next one against.
pub proof fn law_live_run_starts(
    command: Command,
    unit: Unit,
    interval: u128,
    seen: Seq<Seen>,
    k: int,
)
    requires
        command == Command::Stream || command == Command::Once,
        interval <= LONGEST,
        forall|i: int| 0 <= i < seen.len() ==> (#[trigger] seen[i]).now <= LONGEST,
        0 <= k < seen.len(),
        k < 8,
    ensures
        acts(begun(command, unit, interval), seen)[k] == live_start(unit)[k],
{
    lemma_live_trace(begun(command, unit, interval), seen);
}

/// How a run that shows live samples goes on, told by what it did last. While it waits, a
/// request to stop ends the status line; else, before the time that the next sample is due, it
/// sleeps up to that time, at most 50 milliseconds, and once that time has come it takes the
/// sample. The samples are due whole intervals apart, counted from when the waiting began,
/// however late each was taken. A sample is sent, then shown. A single sample is the last
/// thing to be shown; a stream waits for the next one. After a request to stop the panel is
/// closed, that is said, and the run ends.
#[verifier::rlimit(60)]
pub proof fn law_live_run_goes_on(
    command: Command,
    unit: Unit,
    interval: u128,
    seen: Seq<Seen>,
    k: int,
)
    requires
        command == Command::Stream || command == Command::Once,
        interval <= LONGEST,
        forall|i: int| 0 <= i < seen.len() ==> (#[trigger] seen[i]).now <= LONGEST,
        8 <= k < seen.len(),
    ensures
        ({
            let done = acts(begun(command, unit, interval), seen);
            let (now, last, act) = (seen[k].now as int, done[k - 1], done[k]);
            let taken = times(done.take(k), Act::Sample);
            let at = seen[8].now + (taken + 1) * interval;
            let once = command == Command::Once;
            &&& last == Act::Prime || last is Nap || (last == Act::Show && !once) ==> act == (
            if seen[k].stopping {
                Act::EndLine
            } else if now >= at {
                Act::Sample
            } else if at - now <= 50_000_000 {
                Act::Nap((at - now) as u128)
            } else {
                Act::Nap(50_000_000)
            })
            &&& last == Act::Sample ==> act == sensor_report(seen[k].sensors, unit)
            &&& last is Send && done[k - 2] == Act::Sample ==> act == Act::Show
            &&& last == Act::Show && once ==> act == Act::EndLine
            &&& last == Act::EndLine ==> act == (if once && done[k - 2] == Act::Show {
                Act::Finish
            } else {
                close_report()
            })
            &&& last is Send && done[k - 2] == Act::EndLine ==> act == Act::Note(Note::Closed)
            &&& last == Act::Note(Note::Closed) ==> act == Act::Finish
            &&& last == Act::Finish ==> act == Act::Finish
        }),
{
    let s = begun(command, unit, interval);
    let before = seen.take(k);
    assert forall|i: int| 0 <= i < before.len() implies (#[trigger] before[i]).now <= LONGEST by {
        assert(before[i] == seen[i]);
    }
    lemma_act_at(s, seen, k);
    lemma_run(s, before);
    lemma_live_trace(s, before);
    let done = acts(s, seen);
    assert(done.take(k)[k - 1] == done[k - 1]);
    if k >= 9 {
        assert(done.take(k)[k - 2] == done[k - 2]);
        assert(before[8] == seen[8]);
    } else {
        assert(live_start(unit)[7] == Act::Prime);
        let n = samples(acts(s, before));
        assert((n + 1) * (interval as int) == interval) by (nonlinear_arith)
            requires
                n == 0,
        ;
    }
}

/// How many reports were sent.
pub open spec fn sends(done: Seq<Act>) -> nat
    decreases done.len(),
{
    if done.len() == 0 {
        0
    } else {
        sends(done.drop_last()) + if done.last() is Send {
            1nat
        } else {
            0nat
        }
    }
}

#[verifier::rlimit(60)]
proof fn lemma_once_unstopped(s: State, seen: Seq<Seen>)
    requires
        s.phase == Phase::Start,
        s.command == Command::Once,
        forall|i: int| 0 <= i < seen.len() ==> !(#[trigger] seen[i]).stopping,
    ensures
        ({
            let done = acts(s, seen);
            let (taken, sent) = (times(done, Act::Sample), sends(done));
            &&& times(done, close_report()) == 0
            &&& match after(s, seen).phase {
                Phase::Start => taken == 0 && sent == 0 && !done.contains(Act::Finish),
                Phase::Named => taken == 0 && sent == 0 && !done.contains(Act::Finish),
                Phase::Catching => taken == 0 && sent == 0 && !done.contains(Act::Finish),
                Phase::Awake => taken == 0 && sent == 1 && !done.contains(Act::Finish),
                Phase::Sampled(_) => taken == 1 && sent == 2 && !done.contains(Act::Finish),
                Phase::Sent(_) => taken == 1 && sent == 3 && !done.contains(Act::Finish),
                Phase::Shown(_) => taken == 1 && sent == 3 && !done.contains(Act::Finish),
                Phase::Ended => taken == 1 && sent == 3,
                Phase::OpenedOnly => false,
                Phase::Closing => false,
                Phase::LineEnded => false,
                Phase::DemoNoted => false,
                Phase::DemoSent(_) => false,
                Phase::DemoWaiting(_, _) => false,
                _ => taken == 0 && sent == 2 && !done.contains(Act::Finish),
            }
        }),
    decreases seen.len(),
{
    lemma_run(s, seen);
    if seen.len() > 0 {
        let before = seen.drop_last();
        assert forall|i: int| 0 <= i < before.len() implies !(#[trigger] before[i]).stopping by {
            assert(before[i] == seen[i]);
        }
        assert(!seen[seen.len() - 1].stopping);
        lemma_once_unstopped(s, before);
        lemma_run(s, before);
        let old_acts = acts(s, before);
        let done = acts(s, seen);
        assert(done.drop_last() == old_acts);
        frame::law_kinds_are_distinct(seen.last().sensors, s.unit, s.unit);
        if done.contains(Act::Finish) && done.last() != Act::Finish {
            let k = choose|k: int| 0 <= k < done.len() && done[k] == Act::Finish;
            assert(old_acts[k] == Act::Finish);
            assert(old_acts.contains(Act::Finish));
        }
    }
}

/// A single sample that is not stopped and ends was pushed: exactly one sample was taken,
/// exactly one report was sent beside the two that open the panel and tell it the unit, and
/// the panel was not blanked.
pub proof fn law_once_pushes_its_sample(unit: Unit, interval: u128, seen: Seq<Seen>)
    requires
        forall|i: int| 0 <= i < seen.len() ==> !(#[trigger] seen[i]).stopping,
    ensures
        ({
            let done = acts(begun(Command::Once, unit, interval), seen);
            &&& times(done, close_report()) == 0
            &&& done.contains(Act::Finish) ==> times(done, Act::Sample) == 1 && sends(done) == 3
        }),
{
    lemma_once_unstopped(begun(Command::Once, unit, interval), seen);
}

/// The report that the demonstration shows.
pub open spec fn demo_report(unit: Unit) -> Act {
    sensor_report(sensors::wire(demo_reading(), unit, DEMO_FAHRENHEIT), unit)
}

/// What a demonstration does first, whatever it sees.
pub open spec fn demo_start(unit: Unit) -> Seq<Act> {
    seq![
        Act::Note(Note::Device),
        Act::CatchSignals,
        open_report(),
        unit_report(unit),
        Act::Note(Note::Demo),
    ]
}

/// Whether the demonstration's values were last sent just before step `m`, and nothing but
/// sleep followed.
pub open spec fn sleeping_since(done: Seq<Act>, unit: Unit, m: int) -> bool {
    &&& 6 <= m <= done.len()
    &&& done[m - 1] == demo_report(unit)
    &&& forall|i: int| m <= i < done.len() ==> (#[trigger] done[i]) is Nap
}

#[verifier::rlimit(60)]
proof fn lemma_demo_trace(s: State, seen: Seq<Seen>) -> (m: int)
    requires
        s.phase == Phase::Start,
        s.command == Command::Demo,
        s.interval <= LONGEST,
        forall|i: int| 0 <= i < seen.len() ==> (#[trigger] seen[i]).now <= LONGEST,
    ensures
        timely(after(s, seen)),
        acts(s, seen).len() == seen.len(),
        ({
            let done = acts(s, seen);
            let n = done.len() as int;
            let end = seen[5].now + DEMO_RUNTIME;
            &&& forall|i: int| 0 <= i < n && i < 5 ==> #[trigger] done[i] == demo_start(s.unit)[i]
            &&& match after(s, seen).phase {
                Phase::Start => n == 0,
                Phase::Named => n == 1,
                Phase::Catching => n == 2,
                Phase::Awake => n == 3,
                Phase::Labelled => n == 4,
                Phase::DemoNoted => n == 5,
                Phase::DemoSent(t) => n > 5 && t == end && m == n && sleeping_since(
                    done,
                    s.unit,
                    m,
                ),
                Phase::DemoWaiting(d, t) => n > 5 && t == end && m < n && sleeping_since(
                    done,
                    s.unit,
                    m,
                ) && d == seen[m].now + s.interval,
                Phase::Closing => n > 5 && done[n - 1] == close_report(),
                Phase::Ended => n > 6 && (done[n - 1] == Act::Note(Note::Closed) || done[n - 1]
                    == Act::Finish),
                _ => false,
            }
        }),
    decreases seen.len(),
{
    lemma_run(s, seen);
    if seen.len() == 0 {
        0
    } else {
        let before = seen.drop_last();
        assert forall|i: int| 0 <= i < before.len() implies (#[trigger] before[i]).now <= LONGEST by {
            assert(before[i] == seen[i]);
        }
        let m = lemma_demo_trace(s, before);
        lemma_run(s, before);
        let old_acts = acts(s, before);
        let done = acts(s, seen);
        assert(done.drop_last() == old_acts);
        assert(seen.last().now <= LONGEST) by {
            assert(seen[seen.len() - 1].now <= LONGEST);
        }
        assert forall|i: int| 0 <= i < old_acts.len() implies #[trigger] done[i] == old_acts[i] by {
        }
        if before.len() > 5 {
            assert(before[5] == seen[5]);
        }
        if 0 <= m < before.len() {
            assert(before[m] == seen[m]);
        }
        if after(s, seen).phase is DemoSent {
            assert(sleeping_since(done, s.unit, done.len() as int));
            done.len() as int
        } else {
            m
        }
    }
}

/// A demonstration starts the same way whatever it sees: it names the device, starts to notice
/// requests to stop, opens the panel, tells it the unit, and says what it will show.
pub proof fn law_demonstration_starts(unit: Unit, interval: u128, seen: Seq<Seen>, k: int)
    requires
        interval <= LONGEST,
        forall|i: int| 0 <= i < seen.len() ==> (#[trigger] seen[i]).now <= LONGEST,
        0 <= k < seen.len(),
        k < 5,
    ensures
        acts(begun(Command::Demo, unit, interval), seen)[k] == demo_start(unit)[k],
{
    let m = lemma_demo_trace(begun(Command::Demo, unit, interval), seen);
}

/// How a demonstration goes on, told by what it did last. It sends its values at once unless
/// it is to stop. When it last sent them just before step `m`, it sleeps until an interval
/// after what the clock said at step `m`, at most 50 milliseconds at a time, and then sends
/// them again, or closes the panel once 30 seconds have passed since the first. A request to
/// stop closes it at any of these steps. Then that is said, and the run ends.
#[verifier::rlimit(60)]
pub proof fn law_demonstration_goes_on(
    unit: Unit,
    interval: u128,
    seen: Seq<Seen>,
    k: int,
    m: int,
)
    requires
        interval <= LONGEST,
        forall|i: int| 0 <= i < seen.len() ==> (#[trigger] seen[i]).now <= LONGEST,
        5 <= k < seen.len(),
    ensures
        ({
            let done = acts(begun(Command::Demo, unit, interval), seen);
            let (now, last, act) = (seen[k].now as int, done[k - 1], done[k]);
            let at = seen[m].now + interval;
            &&& k == 5 ==> act == (if seen[k].stopping {
                close_report()
            } else {
                demo_report(unit)
            })
            &&& sleeping_since(done.take(k), unit, m) ==> act == (if seen[k].stopping {
                close_report()
            } else if now < at {
                if at - now <= 50_000_000 {
                    Act::Nap((at - now) as u128)
                } else {
                    Act::Nap(50_000_000)
                }
            } else if now >= seen[5].now + 30_000_000_000 {
                close_report()
            } else {
                demo_report(unit)
            })
            &&& k > 5 && last == close_report() ==> act == Act::Note(Note::Closed)
            &&& last == Act::Note(Note::Closed) ==> act == Act::Finish
            &&& last == Act::Finish ==> act == Act::Finish
        }),
{
    let s = begun(Command::Demo, unit, interval);
    let before = seen.take(k);
    assert forall|i: int| 0 <= i < before.len() implies (#[trigger] before[i]).now <= LONGEST by {
        assert(before[i] == seen[i]);
    }
    lemma_act_at(s, seen, k);
    lemma_run(s, before);
    let at = lemma_demo_trace(s, before);
    let done = acts(s, seen);
    let old_acts = done.take(k);
    assert(old_acts[k - 1] == done[k - 1]);
    frame::law_kinds_are_distinct(
        sensors::wire(demo_reading(), unit, DEMO_FAHRENHEIT),
        unit,
        unit,
    );
    if k == 5 {
        assert(old_acts[4] == demo_start(unit)[4]);
    } else {
        assert(before[5] == seen[5]);
        if sleeping_since(old_acts, unit, m) {
            if m < k {
                assert(old_acts[k - 1] is Nap);
            }
            if sleeping_since(old_acts, unit, at) {
                if m < at {
                    assert(old_acts[at - 1] is Nap);
                } else if at < m {
                    assert(old_acts[m - 1] is Nap);
                }
                if at < k {
                    assert(before[at] == seen[at]);
                }
            }
        } else if sleeping_since(old_acts, unit, at) {
            if at < k {
                assert(old_acts[k - 1] is Nap);
            }
        }
    }
}

/// Opening or closing the panel is all that these commands do: the device is named, the one
/// report is sent, that is said, and the run ends, whatever is seen.
pub proof fn law_single_reports(unit: Unit, interval: u128, seen: Seq<Seen>, k: int)
    requires
        0 <= k < seen.len(),
    ensures
        acts(begun(Command::Open, unit, interval), seen)[k] == (if k == 0 {
            Act::Note(Note::Device)
        } else if k == 1 {
            open_report()
        } else if k == 2 {
            Act::Note(Note::Opened)
        } else {
            Act::Finish
        }),
        acts(begun(Command::Close, unit, interval), seen)[k] == (if k == 0 {
            Act::Note(Note::Device)
        } else if k == 1 {
            close_report()
        } else if k == 2 {
            Act::Note(Note::Closed)
        } else {
            Act::Finish
        }),
{
    lemma_single(begun(Command::Open, unit, interval), seen.take(k));
    lemma_single(begun(Command::Close, unit, interval), seen.take(k));
    lemma_act_at(begun(Command::Open, unit, interval), seen, k);
    lemma_act_at(begun(Command::Close, unit, interval), seen, k);
}

proof fn lemma_single(s: State, seen: Seq<Seen>)
    requires
        s.phase == Phase::Start,
        s.command == Command::Open || s.command == Command::Close,
    ensures
        after(s, seen).command == s.command,
        after(s, seen).phase == (if seen.len() == 0 {
            Phase::Start
        } else if seen.len() == 1 {
            Phase::Named
        } else if seen.len() == 2 {
            if s.command == Command::Open {
                Phase::OpenedOnly
            } else {
                Phase::Closing
            }
        } else {
            Phase::Ended
        }),
    decreases seen.len(),
{
    lemma_run(s, seen);
    if seen.len() > 0 {
        lemma_single(s, seen.drop_last());
    }
}

} // verus!
