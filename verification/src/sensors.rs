//! Live CPU statistics for the panel's four fields.
//!
//! Every field degrades to nothing rather than failing. A missing sensor is a blank spot
//! on a fan display, not a reason to stop driving the panel, and the panel blanks itself a
//! few seconds after the last frame, so giving up would take the whole display down.
//!
//! Which files to read is chosen here from listings of the kernel's directories, and what
//! they say is taken here from their texts; [`crate::hwmon`], [`crate::powercap`] and
//! [`crate::cpustat`] say how.

use vstd::prelude::*;

use crate::cpustat;
use crate::cpustat::Core;
use crate::floats;
use crate::frame::{Sensors, Unit};
use crate::hwmon;
use crate::hwmon::HwmonChip;
use crate::numbers;
use crate::powercap;
use crate::powercap::{EnergyZone, PowercapZone};
use crate::text;

verus! {

/// Where to read from, and what the CPU is rated at.
#[derive(Debug)]
pub struct Config {
    /// CPU TDP in watts, as the bits of a single-precision float. Sets the power estimate's
    /// ceiling and scales the load bar.
    pub tdp: u32,
    /// hwmon sensor label to prefer, e.g. `Tccd1`. By default the labels that name the
    /// package temperature are tried in order.
    pub temp_label: Option<String>,
    /// sysfs mount point.
    pub sysfs: String,
    /// The kernel's aggregate CPU time counters.
    pub proc_stat: String,
}

/// 65 watts, as the bits of a single-precision float.
pub const DEFAULT_TDP: u32 = 0x4282_0000;

impl Clone for Config {
    fn clone(&self) -> (c: Config)
        ensures
            c.tdp == self.tdp,
            text_of(c.temp_label) == text_of(self.temp_label),
            c.sysfs@ == self.sysfs@,
            c.proc_stat@ == self.proc_stat@,
    {
        Config {
            tdp: self.tdp,
            temp_label: match &self.temp_label {
                Some(l) => Some(l.clone()),
                None => None,
            },
            sysfs: self.sysfs.clone(),
            proc_stat: self.proc_stat.clone(),
        }
    }
}

impl Default for Config {
    fn default() -> (c: Config)
        ensures
            c.tdp == DEFAULT_TDP,
            c.temp_label is None,
            c.sysfs@ == "/sys"@,
            c.proc_stat@ == "/proc/stat"@,
    {
        Config {
            tdp: DEFAULT_TDP,
            temp_label: None,
            sysfs: "/sys".to_owned(),
            proc_stat: "/proc/stat".to_owned(),
        }
    }
}

/// One sample, each value as the bits of a single-precision float. Temperature is always
/// Celsius here; [`Reading::to_frame`] says which scale is sent, because the panel displays
/// whatever number it is given.
#[derive(Debug, Clone, Copy)]
pub struct Reading {
    /// Package temperature, degrees Celsius.
    pub temp_c: u32,
    /// CPU utilisation since the previous sample, percent.
    pub usage: u32,
    /// Package power, watts.
    pub power: u32,
    /// Mean core frequency, MHz.
    pub freq: u32,
    /// Power as a percentage of TDP.
    pub ratio: u32,
    /// Whether `power` was measured or estimated from load.
    pub power_measured: bool,
}

/// Readings are equal if their values are, as floats.
impl PartialEq for Reading {
    fn eq(&self, other: &Reading) -> (r: bool) {
        floats::is_equal(self.temp_c, other.temp_c) && floats::is_equal(self.usage, other.usage)
            && floats::is_equal(self.power, other.power) && floats::is_equal(self.freq, other.freq)
            && floats::is_equal(self.ratio, other.ratio) && self.power_measured
            == other.power_measured
    }
}

impl vstd::std_specs::cmp::PartialEqSpecImpl for Reading {
    open spec fn obeys_eq_spec() -> bool {
        true
    }

    open spec fn eq_spec(&self, other: &Reading) -> bool {
        floats::equal(self.temp_c, other.temp_c) && floats::equal(self.usage, other.usage)
            && floats::equal(self.power, other.power) && floats::equal(self.freq, other.freq)
            && floats::equal(self.ratio, other.ratio) && self.power_measured
            == other.power_measured
    }
}

/// The temperature that is sent: zero in place of one that is not finite.
pub open spec fn sent_temp(bits: u32) -> u32 {
    if floats::finite(bits) {
        bits
    } else {
        0
    }
}

/// The wire values of a reading, where `fahrenheit` is its temperature on that scale.
pub open spec fn wire(r: Reading, unit: Unit, fahrenheit: u32) -> Sensors {
    Sensors {
        temp: sent_temp(
            match unit {
                Unit::Celsius => r.temp_c,
                Unit::Fahrenheit => fahrenheit,
            },
        ),
        usage: floats::field(r.usage, u8::MAX as int) as u8,
        power: floats::field(r.power, u16::MAX as int) as u16,
        freq: floats::field(r.freq, u16::MAX as int) as u16,
        ratio: floats::field(r.ratio, u8::MAX as int) as u8,
    }
}

impl Reading {
    /// Convert to the wire representation, rounding and saturating to the field widths.
    ///
    /// `fahrenheit` is `temp_c` on the Fahrenheit scale, as the bits of a single-precision
    /// float; it counts only for that unit. Nonsense from a misbehaving sensor does not
    /// become a nonsense frame: what is not a number becomes zero.
    pub fn to_frame(&self, unit: Unit, fahrenheit: u32) -> (s: Sensors)
        ensures
            s == wire(*self, unit, fahrenheit),
            floats::finite(s.temp),
    {
        let temp: u32 = match unit {
            Unit::Celsius => self.temp_c,
            Unit::Fahrenheit => fahrenheit,
        };
        Sensors {
            temp: if floats::is_finite(temp) {
                temp
            } else {
                0
            },
            usage: floats::to_field(self.usage, 0xFF) as u8,
            power: floats::to_field(self.power, 0xFFFF),
            freq: floats::to_field(self.freq, 0xFFFF),
            ratio: floats::to_field(self.ratio, 0xFF) as u8,
        }
    }
}

/// Samples the CPU, holding the counters that only make sense as differences.
#[derive(Debug)]
pub struct Cpu {
    temp_input: Option<String>,
    energy: Option<EnergyZone>,
    prev_cpu: Option<(u64, u64)>,
    prev_energy: Option<(u64, u128)>,
}

/// The value of a [`Cpu`].
pub struct CpuView {
    /// The temperature sensor in use, below the sysfs mount point.
    pub temp_input: Option<Seq<char>>,
    /// The energy counter in use, below the sysfs mount point.
    pub energy_path: Option<Seq<char>>,
    /// Where that counter wraps.
    pub energy_max: Option<u64>,
    /// Busy and total jiffies when they were last read.
    pub prev_cpu: Option<(u64, u64)>,
    /// The energy counter when it was last read, and when that was.
    pub prev_energy: Option<(u64, u128)>,
}

impl View for Cpu {
    type V = CpuView;

    closed spec fn view(&self) -> CpuView {
        CpuView {
            temp_input: match self.temp_input {
                Some(s) => Some(s@),
                None => None,
            },
            energy_path: match self.energy {
                Some(z) => Some(z.path@),
                None => None,
            },
            energy_max: match self.energy {
                Some(z) => z.max,
                None => None,
            },
            prev_cpu: self.prev_cpu,
            prev_energy: self.prev_energy,
        }
    }
}

/// What the files say at one moment. A text is missing where the file could not be read.
#[derive(Debug)]
pub struct Raw {
    /// The text of the CPU time counters.
    pub proc_stat: Option<String>,
    /// The text of the energy counter in use.
    pub energy_uj: Option<String>,
    /// When the energy counter was read, in nanoseconds of a steady clock.
    pub now: u128,
    /// The text of the temperature sensor in use.
    pub temp: Option<String>,
    /// The entries of the directory that lists the CPUs.
    pub cores: Vec<Core>,
}

/// One sample in the kernel's own units. What is missing reads as zero, except that power
/// which was not measured is estimated.
#[derive(Debug, Clone, Copy, PartialEq, Eq)]
pub struct Sample {
    /// Package temperature, thousandths of a degree Celsius.
    pub temp_milli: Option<i64>,
    /// Busy and elapsed jiffies since the previous sample.
    pub usage: Option<(u64, u64)>,
    /// Microjoules used since the previous sample, and over how many nanoseconds.
    pub power: Option<(u64, u128)>,
    /// The sum of the core frequencies, kHz.
    pub total_khz: u64,
    /// How many cores that sums.
    pub cores: u32,
}

/// A text as the specification has it.
pub open spec fn text_of(s: Option<String>) -> Option<Seq<char>> {
    match s {
        Some(t) => Some(t@),
        None => None,
    }
}

/// The CPU times that a text counts.
pub open spec fn times_in(stat: Option<Seq<char>>) -> Option<(u64, u64)> {
    match stat {
        Some(t) => match cpustat::cpu_times(t) {
            Some((busy, total)) => Some((busy as u64, total as u64)),
            None => None,
        },
        None => None,
    }
}

/// The utilisation since the previous times: none without previous times to difference
/// against.
pub open spec fn usage_since(prev: Option<(u64, u64)>, cur: Option<(u64, u64)>) -> Option<
    (u64, u64),
> {
    match (prev, cur) {
        (Some(p), Some(c)) => cpustat::busy_share(p, c),
        _ => None,
    }
}

/// What is remembered after a reading: the reading, or what was there before if there is
/// none.
pub open spec fn remembered<T>(prev: Option<T>, cur: Option<T>) -> Option<T> {
    if cur is Some {
        cur
    } else {
        prev
    }
}

/// The energy counter that a text gives, and when.
pub open spec fn energy_in(energy: Option<Seq<char>>, now: u128) -> Option<(u64, u128)> {
    match energy {
        Some(t) => match numbers::u64_in(t) {
            Some(uj) => Some((uj as u64, now)),
            None => None,
        },
        None => None,
    }
}

/// The energy used since the counter was last read, and over how long: none where it
/// cannot be told or no time went by.
pub open spec fn power_since(
    prev: Option<(u64, u128)>,
    cur: Option<(u64, u128)>,
    max: Option<u64>,
) -> Option<(u64, u128)> {
    match (prev, cur) {
        (Some((before, then_at)), Some((uj, at))) => match powercap::energy_between(
            before,
            uj,
            max,
        ) {
            Some(used) => if at > then_at {
                Some((used as u64, (at - then_at) as u128))
            } else {
                None
            },
            None => None,
        },
        _ => None,
    }
}

/// The temperature that a text gives.
pub open spec fn temp_in(text: Option<Seq<char>>) -> Option<int> {
    match text {
        Some(t) => numbers::i64_in(t),
        None => None,
    }
}

/// Whether the counters are small enough to add up.
pub open spec fn sums_fit(raw: Raw) -> bool {
    &&& raw.proc_stat matches Some(t) ==> cpustat::times_fit(t@)
    &&& cpustat::frequencies_fit(raw.cores@)
}

/// Whether the counters are small enough to add up, which [`Cpu::sample`] asks for.
pub fn counters_fit(raw: &Raw) -> (r: bool)
    ensures
        r == sums_fit(*raw),
{
    let times: bool = match &raw.proc_stat {
        Some(t) => cpustat::jiffies_fit(t.as_str()),
        None => true,
    };
    times && cpustat::cores_fit(&raw.cores)
}

impl Cpu {
    /// Locate the sensors among the listed chips and zones. Discovery happens once;
    /// sampling afterwards is only reads.
    pub fn new(config: &Config, chips: &Vec<HwmonChip>, zones: &Vec<PowercapZone>) -> (cpu: Cpu)
        ensures
            cpu@.temp_input == hwmon::temp_choice(chips@, text_of(config.temp_label)),
            match powercap::zone_choice(zones@) {
                Some(z) => {
                    &&& cpu@.energy_path == Some(powercap::energy_path(z))
                    &&& match cpu@.energy_max {
                        Some(m) => powercap::zone_max(z) == Some(m as int),
                        None => powercap::zone_max(z) is None,
                    }
                },
                None => cpu@.energy_path is None,
            },
            cpu@.prev_cpu is None,
            cpu@.prev_energy is None,
    {
        let label: Option<&str> = match &config.temp_label {
            Some(l) => Some(l.as_str()),
            None => None,
        };
        Cpu {
            temp_input: hwmon::find_temp_input(chips, label),
            energy: powercap::find_energy_zone(zones),
            prev_cpu: None,
            prev_energy: None,
        }
    }

    /// The temperature sensor in use, if one was found, below the sysfs mount point.
    pub fn temp_input(&self) -> (r: Option<&str>)
        ensures
            match r {
                Some(s) => self@.temp_input == Some(s@),
                None => self@.temp_input is None,
            },
    {
        match &self.temp_input {
            Some(s) => Some(s.as_str()),
            None => None,
        }
    }

    /// The energy counter in use, below the sysfs mount point. `None` means power will be
    /// estimated: the counters are readable by root only on most distributions.
    pub fn energy_path(&self) -> (r: Option<&str>)
        ensures
            match r {
                Some(s) => self@.energy_path == Some(s@),
                None => self@.energy_path is None,
            },
    {
        match &self.energy {
            Some(z) => Some(z.path.as_str()),
            None => None,
        }
    }

    /// The busy and elapsed jiffies since the previous sample.
    fn usage(&mut self, stat: &Option<String>) -> (r: Option<(u64, u64)>)
        requires
            stat matches Some(t) ==> cpustat::times_fit(t@),
        ensures
            r == usage_since(old(self)@.prev_cpu, times_in(text_of(*stat))),
            final(self)@ == (CpuView {
                prev_cpu: remembered(old(self)@.prev_cpu, times_in(text_of(*stat))),
                ..old(self)@
            }),
    {
        let times: Option<(u64, u64)> = match stat {
            Some(t) => cpustat::parse_cpu_times(t.as_str()),
            None => None,
        };
        let cur: (u64, u64) = match times {
            Some(cur) => cur,
            None => {
                return None;
            },
        };
        let usage: Option<(u64, u64)> = match self.prev_cpu {
            Some(prev) => cpustat::usage_between(prev, cur),
            None => None,
        };
        self.prev_cpu = Some(cur);
        usage
    }

    /// The energy used since the previous sample, and over how long.
    fn rapl_power(&mut self, energy: &Option<String>, now: u128) -> (r: Option<(u64, u128)>)
        ensures
            old(self)@.energy_path is None ==> r is None && final(self)@ == old(self)@,
            old(self)@.energy_path is Some ==> {
                let cur = energy_in(text_of(*energy), now);
                &&& r == power_since(old(self)@.prev_energy, cur, old(self)@.energy_max)
                &&& final(self)@ == (CpuView {
                    prev_energy: remembered(old(self)@.prev_energy, cur),
                    ..old(self)@
                })
            },
    {
        let max: Option<u64> = match &self.energy {
            Some(z) => z.max,
            None => {
                return None;
            },
        };
        let reading: Option<u64> = match energy {
            Some(t) => numbers::read_u64(t.as_str()),
            None => None,
        };
        let now_uj: u64 = match reading {
            Some(uj) => uj,
            None => {
                return None;
            },
        };
        let power: Option<(u64, u128)> = match self.prev_energy {
            Some((prev_uj, prev_at)) => match powercap::energy_delta(prev_uj, now_uj, max) {
                Some(delta) => if now > prev_at {
                    Some((delta, now - prev_at))
                } else {
                    None
                },
                None => None,
            },
            None => None,
        };
        self.prev_energy = Some((now_uj, now));
        power
    }

    /// Take a sample.
    ///
    /// Utilisation and power are differences against the previous call, so the first
    /// sample has neither. Prime the deltas by sampling once and discarding the result.
    pub fn sample(&mut self, raw: &Raw) -> (s: Sample)
        requires
            sums_fit(*raw),
        ensures
            s.usage == usage_since(old(self)@.prev_cpu, times_in(text_of(raw.proc_stat))),
            s.power == (if old(self)@.energy_path is Some {
                power_since(
                    old(self)@.prev_energy,
                    energy_in(text_of(raw.energy_uj), raw.now),
                    old(self)@.energy_max,
                )
            } else {
                None
            }),
            match s.temp_milli {
                Some(t) => old(self)@.temp_input is Some && temp_in(text_of(raw.temp)) == Some(
                    t as int,
                ),
                None => old(self)@.temp_input is None || temp_in(text_of(raw.temp)) is None,
            },
            s.total_khz == cpustat::khz_sum(raw.cores@),
            s.cores == cpustat::core_count(raw.cores@),
            final(self)@ == (CpuView {
                prev_cpu: remembered(old(self)@.prev_cpu, times_in(text_of(raw.proc_stat))),
                prev_energy: if old(self)@.energy_path is Some {
                    remembered(
                        old(self)@.prev_energy,
                        energy_in(text_of(raw.energy_uj), raw.now),
                    )
                } else {
                    old(self)@.prev_energy
                },
                ..old(self)@
            }),
    {
        let usage: Option<(u64, u64)> = self.usage(&raw.proc_stat);
        let power: Option<(u64, u128)> = self.rapl_power(&raw.energy_uj, raw.now);
        let temp_milli: Option<i64> = match (&self.temp_input, &raw.temp) {
            (Some(_), Some(t)) => numbers::read_i64(t.as_str()),
            _ => None,
        };
        let (total_khz, cores): (u64, u32) = cpustat::total_frequency(&raw.cores);
        Sample { temp_milli, usage, power, total_khz, cores }
    }
}

/// The first sample has no utilisation and no measured power, whatever the files say.
pub proof fn law_first_sample_has_no_differences(
    times: Option<(u64, u64)>,
    energy: Option<(u64, u128)>,
    max: Option<u64>,
)
    ensures
        usage_since(None, times) is None,
        power_since(None, energy, max) is None,
{
}

/// Files that cannot be read yield nothing, and what was remembered stays remembered.
pub proof fn law_missing_files_read_as_nothing(
    prev_cpu: Option<(u64, u64)>,
    prev_energy: Option<(u64, u128)>,
    now: u128,
    max: Option<u64>,
)
    ensures
        usage_since(prev_cpu, times_in(None)) is None,
        remembered(prev_cpu, times_in(None)) == prev_cpu,
        power_since(prev_energy, energy_in(None, now), max) is None,
        remembered(prev_energy, energy_in(None, now)) == prev_energy,
        temp_in(None) is None,
        cpustat::khz_sum(Seq::empty()) == 0,
        cpustat::core_count(Seq::empty()) == 0,
{
}

/// Utilisation is the busy share between the last two samples whose times could be read:
/// a sample that could not be read in between loses nothing.
pub proof fn law_usage_spans_unreadable_samples(
    prev: Option<(u64, u64)>,
    first: Seq<char>,
    second: Seq<char>,
)
    requires
        times_in(Some(first)) is Some,
        times_in(Some(second)) is Some,
    ensures
        ({
            let seen = remembered(prev, times_in(Some(first)));
            let share = cpustat::busy_share(times_in(Some(first))->0, times_in(Some(second))->0);
            &&& usage_since(seen, times_in(Some(second))) == share
            &&& usage_since(remembered(seen, times_in(None)), times_in(Some(second))) == share
        }),
{
}

/// Measured power is the energy used between the last two readings of the counter, over
/// the time between them, and a counter that wrapped in between is still measured right.
pub proof fn law_measured_power_survives_a_wrap(
    before: u64,
    used: u64,
    max: u64,
    since: u128,
    now: u128,
)
    requires
        before < max,
        used < max,
        since < now,
    ensures
        power_since(
            Some((before, since)),
            Some((((before + used) % (max as int)) as u64, now)),
            Some(max),
        ) == Some((used, (now - since) as u128)),
{
    powercap::law_energy_survives_one_wrap(before, used, max);
}

/// A reading becomes a frame whatever it holds: the temperature sent is finite, and every
/// other value fits its field.
pub proof fn law_any_reading_can_be_sent(r: Reading, unit: Unit, fahrenheit: u32)
    ensures
        ({
            let s = wire(r, unit, fahrenheit);
            &&& floats::finite(s.temp)
            &&& s.usage == floats::field(r.usage, 255)
            &&& s.power == floats::field(r.power, 65535)
            &&& s.freq == floats::field(r.freq, 65535)
            &&& s.ratio == floats::field(r.ratio, 255)
        }),
{
    floats::law_field_fits(r.usage, 255);
    floats::law_field_fits(r.power, 65535);
    floats::law_field_fits(r.freq, 65535);
    floats::law_field_fits(r.ratio, 255);
}

/// A temperature file that holds a number of thousandths of a degree is read as exactly that
/// number, of any size and sign an `i64` has, whatever white space stands around it.
pub proof fn law_temperature_is_what_the_file_says(
    n: i64,
    before: Seq<char>,
    d: Seq<char>,
    after: Seq<char>,
)
    requires
        d.len() > 0,
        forall|i: int| 0 <= i < d.len() ==> '0' <= #[trigger] d[i] <= '9',
        forall|i: int| 0 <= i < before.len() ==> text::white(#[trigger] before[i]),
        forall|i: int| 0 <= i < after.len() ==> text::white(#[trigger] after[i]),
    ensures
        temp_in(Some(numbers::written(n as int) + after)) == Some(n as int),
        numbers::value(d, 10) <= i64::MAX ==> temp_in(Some(before + d + after)) == Some(
            numbers::value(d, 10),
        ) && temp_in(Some(before + (seq!['+'] + d) + after)) == Some(numbers::value(d, 10)),
        numbers::value(d, 10) <= i64::MAX + 1 ==> temp_in(Some(before + (seq!['-'] + d) + after))
            == Some(-numbers::value(d, 10)),
{
    numbers::law_signed_file_reads_back(n, after);
    numbers::law_number_files(before, d, after);
}

/// A temperature is read only off a file that holds, white space around it aside, a sign, if
/// any, and digits, and it is what these are worth.
pub proof fn law_only_numbers_are_temperatures(file: Seq<char>)
    ensures
        temp_in(None) is None,
        temp_in(Some(file)) matches Some(n) ==> {
            let t = text::trim(file);
            let d = numbers::without_sign(t, "+-"@);
            &&& d.len() > 0
            &&& forall|i: int| 0 <= i < d.len() ==> '0' <= #[trigger] d[i] <= '9'
            &&& n == if t[0] == '-' {
                -numbers::value(d, 10)
            } else {
                numbers::value(d, 10)
            }
            &&& i64::MIN <= n <= i64::MAX
        },
{
    numbers::law_only_numbers_read_as_numbers(file);
}

/// An energy file that holds a number gives that number and when it was read; any other gives
/// nothing.
pub proof fn law_energy_is_what_the_file_says(
    before: Seq<char>,
    d: Seq<char>,
    after: Seq<char>,
    now: u128,
    file: Seq<char>,
)
    requires
        d.len() > 0,
        forall|i: int| 0 <= i < d.len() ==> '0' <= #[trigger] d[i] <= '9',
        forall|i: int| 0 <= i < before.len() ==> text::white(#[trigger] before[i]),
        forall|i: int| 0 <= i < after.len() ==> text::white(#[trigger] after[i]),
    ensures
        numbers::value(d, 10) <= u64::MAX ==> energy_in(Some(before + d + after), now) == Some(
            (numbers::value(d, 10) as u64, now),
        ),
        energy_in(Some(file), now) matches Some((uj, at)) ==> at == now && numbers::u64_in(file)
            == Some(uj as int),
        numbers::u64_in(file) is Some ==> energy_in(Some(file), now) is Some,
{
    numbers::law_number_files(before, d, after);
    numbers::law_only_numbers_read_as_numbers(file);
    numbers::lemma_unsigned(text::trim(file), 10, u64::MAX as int);
}

/// Measured power is what the counter gained and the time that went by, whatever is known of
/// where it wraps; a counter that went backwards gained what was left of its range and what it
/// shows; and there is none where no time went by.
pub proof fn law_power_is_gain_over_time(
    prev: u64,
    used: u64,
    max: Option<u64>,
    left: u64,
    now: u64,
    since: u128,
    at: u128,
)
    requires
        prev + used <= u64::MAX,
        prev + left <= u64::MAX,
        now < prev,
    ensures
        since < at ==> power_since(
            Some((prev, since)),
            Some(((prev + used) as u64, at)),
            max,
        ) == Some((used, (at - since) as u128)),
        since < at ==> power_since(
            Some((prev, since)),
            Some((now, at)),
            Some((prev + left) as u64),
        ) == Some(((left + now) as u64, (at - since) as u128)),
        power_since(Some((prev, since)), Some((now, at)), None) is None,
        at <= since ==> power_since(Some((prev, since)), Some((now, at)), max) is None
            && power_since(Some((prev, since)), Some(((prev + used) as u64, at)), max) is None,
{
    powercap::law_energy_is_what_the_counter_gained(prev, used, max);
    powercap::law_energy_after_a_wrap(left, prev, now);
}

/// Utilisation is what the CPU times gained since they were last read: where a text counts `b`
/// more busy and `t` more total jiffies than the one before it, exactly those.
pub proof fn law_usage_is_gain_between_texts(
    first: Seq<char>,
    second: Seq<char>,
    busy: u64,
    total: u64,
    b: u64,
    t: u64,
)
    requires
        busy + b <= u64::MAX,
        total + t <= u64::MAX,
        t > 0,
        cpustat::cpu_times(first) == Some((busy as int, total as int)),
        cpustat::cpu_times(second) == Some((busy + b, total + t)),
    ensures
        times_in(Some(first)) == Some((busy, total)),
        usage_since(times_in(Some(first)), times_in(Some(second))) == Some((b, t)),
{
    cpustat::law_usage_is_what_the_counters_gained((busy, total), b, t);
}

/// A text that counts no CPU times gives none.
pub proof fn law_no_times_give_no_usage(text: Seq<char>, prev: Option<(u64, u64)>)
    requires
        cpustat::cpu_times(text) is None,
    ensures
        times_in(Some(text)) is None,
        usage_since(prev, times_in(Some(text))) is None,
{
}

/// The last reading is remembered: a new one takes the place of the one before it, and where
/// there is no new one the old one stays.
pub proof fn law_last_reading_is_remembered(
    prev: Option<(u64, u64)>,
    cur: (u64, u64),
    prev_energy: Option<(u64, u128)>,
    cur_energy: (u64, u128),
)
    ensures
        remembered(prev, Some(cur)) == Some(cur),
        remembered(prev, None) == prev,
        remembered(prev_energy, Some(cur_energy)) == Some(cur_energy),
        remembered(prev_energy, None) == prev_energy,
{
}

/// The temperature is sent as it is, on the scale of the unit; only one that is infinite or
/// not a number is sent as zero.
pub proof fn law_temperature_is_sent_as_it_is(r: Reading, fahrenheit: u32)
    ensures
        wire(r, Unit::Celsius, fahrenheit).temp == if r.temp_c % 0x8000_0000 < 0x7F80_0000 {
            r.temp_c
        } else {
            0
        },
        wire(r, Unit::Fahrenheit, fahrenheit).temp == if fahrenheit % 0x8000_0000 < 0x7F80_0000 {
            fahrenheit
        } else {
            0
        },
{
}

/// A text that is there stands for its own characters, an empty one too.
pub proof fn law_texts_stand_for_themselves(s: String)
    ensures
        text_of(Some(s)) == Some(s@),
        text_of(None) is None,
{
}

/// A sample can be taken whenever what its files count can be added up; a file that is missing
/// stands in no sample's way.
pub proof fn law_sample_can_be_taken(raw: Raw)
    requires
        cpustat::frequencies_fit(raw.cores@),
    ensures
        raw.proc_stat is None ==> sums_fit(raw),
        raw.proc_stat matches Some(t) ==> (sums_fit(raw) <==> cpustat::times_fit(t@)),
{
}

} // verus!
