use std::time::Duration;
use sudokoo_linux::cpustat::{
    cores_fit, is_core, jiffies_fit, parse_cpu_times, total_frequency, usage_between, Core,
};
use sudokoo_linux::floats::{is_equal, is_finite, is_lasting, is_positive, to_field, SHORTEST_PERIOD};
use sudokoo_linux::frame::Unit;
use sudokoo_linux::hwmon::{find_temp_input, label_index, temp_chip, HwmonChip, LabelFile};
use sudokoo_linux::powercap::{energy_delta, find_energy_zone, PowercapZone};
use sudokoo_linux::sensors::{counters_fit, Config, Cpu, Raw, Reading, Sample};

fn chip(node: &str, name: &str, labels: &[(&str, &str)], inputs: &[&str]) -> HwmonChip {
    HwmonChip {
        node: node.to_string(),
        name: Some(name.to_string()),
        labels: labels
            .iter()
            .map(|(file, text)| LabelFile {
                file: file.to_string(),
                text: Some(text.to_string()),
            })
            .collect(),
        inputs: inputs.iter().map(|i| i.to_string()).collect(),
    }
}

/// A k10temp layout: Tctl on temp1, Tccd1 on temp3.
fn amd_hwmon() -> Vec<HwmonChip> {
    vec![
        chip("hwmon0", "acpitz_0\n", &[], &[]),
        chip(
            "hwmon6",
            "k10temp\n",
            &[("temp1_label", "Tctl\n"), ("temp3_label", "Tccd1\n")],
            &["temp1_input", "temp3_input"],
        ),
    ]
}

fn zone(node: &str, name: Option<&str>, energy: Option<&str>, max: Option<&str>) -> PowercapZone {
    PowercapZone {
        node: node.to_string(),
        energy_uj: energy.map(|s| s.to_string()),
        name: name.map(|s| s.to_string()),
        max_energy_range_uj: max.map(|s| s.to_string()),
    }
}

fn cpu_entry(name: &str, khz: Option<&str>) -> Core {
    Core {
        name: name.to_string(),
        scaling_cur_freq: khz.map(|s| s.to_string()),
    }
}

/// Utilisation in percent, as the share that two samples give.
fn percent(share: Option<(u64, u64)>) -> f32 {
    match share {
        Some((busy, total)) => (100.0 * busy as f32 / total as f32).clamp(0.0, 100.0),
        None => 0.0,
    }
}

/// A sample in the units of a reading, with power estimated where it was not measured.
fn figures(s: &Sample, tdp: f32) -> (f32, f32, f32, f32, f32) {
    let temp = s.temp_milli.map_or(0.0, |milli| milli as f32 / 1000.0);
    let usage = percent(s.usage);
    let power = match s.power {
        Some((uj, ns)) => uj as f32 / 1e6 / (ns as f32 / 1e9),
        None => (tdp * (0.25 + 0.75 * usage / 100.0)).max(0.0),
    };
    let freq = if s.cores == 0 {
        0.0
    } else {
        s.total_khz as f32 / s.cores as f32 / 1000.0
    };
    let ratio = if tdp > 0.0 {
        (100.0 * power / tdp).clamp(0.0, 100.0)
    } else {
        0.0
    };
    (temp, usage, power, freq, ratio)
}

fn fahrenheit(celsius: f32) -> u32 {
    (celsius * 1.8 + 32.0).to_bits()
}

#[test]
fn temp_discovery_prefers_the_package_label() {
    let chips = amd_hwmon();
    assert_eq!(
        find_temp_input(&chips, None).as_deref(),
        Some("class/hwmon/hwmon6/temp1_input")
    );
    assert_eq!(
        find_temp_input(&chips, Some("Tccd1")).as_deref(),
        Some("class/hwmon/hwmon6/temp3_input")
    );
}

#[test]
fn temp_discovery_prefers_amd_over_intel_regardless_of_hwmon_number() {
    let chips = vec![
        chip(
            "hwmon1",
            "coretemp\n",
            &[("temp1_label", "Package id 0\n")],
            &["temp1_input"],
        ),
        chip("hwmon9", "k10temp\n", &[("temp1_label", "Tctl\n")], &["temp1_input"]),
    ];
    assert_eq!(
        find_temp_input(&chips, None).as_deref(),
        Some("class/hwmon/hwmon9/temp1_input")
    );
}

#[test]
fn temp_discovery_falls_back_to_temp1_but_never_past_an_explicit_label() {
    let chips = vec![chip("hwmon0", "k10temp\n", &[], &["temp1_input"])];
    assert_eq!(
        find_temp_input(&chips, None).as_deref(),
        Some("class/hwmon/hwmon0/temp1_input")
    );
    // Asking for a label that does not exist must fail rather than quietly return
    // some other sensor's reading.
    assert_eq!(find_temp_input(&chips, Some("Tdie")), None);
    assert_eq!(find_temp_input(&Vec::new(), None), None);
}

#[test]
fn temp_discovery_takes_chips_and_labels_by_number() {
    let both = &[
        ("temp10_label", "Tctl\n"),
        ("temp2_label", "Tctl\n"),
        ("temp+2_label", "Tctl\n"),
        ("tempx_label", "Tctl\n"),
        ("temp1_label", "Tctl\n"),
    ];
    // The input of temp1 is missing, and a plus sign orders before a digit.
    let inputs = &["temp10_input", "temp2_input", "temp+2_input", "tempx_input"];
    let chips = vec![
        chip("hwmon10", "k10temp\n", both, inputs),
        chip("hwmon2", " k10temp ", both, inputs),
    ];
    assert_eq!(
        find_temp_input(&chips, None).as_deref(),
        Some("class/hwmon/hwmon2/temp+2_input")
    );
    let mut unnamed = chip("hwmon1", "k10temp\n", both, inputs);
    unnamed.name = None;
    let mut unread = chip("hwmon3", "k10temp\n", both, inputs);
    unread.labels[0].text = None;
    assert_eq!(find_temp_input(&vec![unnamed], None), None);
    assert_eq!(
        find_temp_input(&vec![unread], Some("Tctl")).as_deref(),
        Some("class/hwmon/hwmon3/temp+2_input")
    );
}

#[test]
fn chips_and_label_files_are_recognised_by_name() {
    assert_eq!(temp_chip("k10temp\n"), Some(0));
    assert_eq!(temp_chip("zenpower\n"), Some(1));
    assert_eq!(temp_chip("coretemp\n"), Some(2));
    assert_eq!(temp_chip("nvme\n"), None);
    assert_eq!(label_index("temp3_label"), Some("3"));
    assert_eq!(label_index("temp_label"), Some(""));
    assert_eq!(label_index("temp3_input"), None);
    assert_eq!(label_index("in3_label"), None);
    assert_eq!(label_index("tem_label"), None);
}

#[test]
fn energy_zone_prefers_the_package_over_its_subzones() {
    let zones = vec![
        zone("intel-rapl", None, None, None),
        zone(
            "intel-rapl:0",
            Some("package-0\n"),
            Some("1234\n"),
            Some("65532610987\n"),
        ),
        zone("intel-rapl:0:0", Some("core\n"), Some("99\n"), None),
    ];
    let zone = find_energy_zone(&zones).expect("a readable package zone");
    assert_eq!(zone.path, "class/powercap/intel-rapl:0/energy_uj");
    assert_eq!(zone.max, Some(65_532_610_987));
    // A tree with no energy counters at all, as when RAPL is root-only.
    assert!(find_energy_zone(&Vec::new()).is_none());
}

#[test]
fn energy_zones_rank_by_name_and_order_by_node() {
    let zones = vec![
        zone("d", Some("dram\n"), Some("1"), None),
        zone("c", Some("package-1\n"), Some("1"), None),
        zone("b", Some("package-1\n"), Some("1"), Some("x")),
        zone("a", Some("package-0\n"), Some("unreadable"), None),
    ];
    let best = find_energy_zone(&zones).unwrap();
    assert_eq!(best.path, "class/powercap/b/energy_uj");
    assert_eq!(best.max, None);
    let parts = vec![
        zone("z", None, Some("1"), None),
        zone("y", Some("core\n"), Some("1"), None),
    ];
    assert_eq!(
        find_energy_zone(&parts).unwrap().path,
        "class/powercap/y/energy_uj"
    );
}

#[test]
fn cpu_times_ignore_guest_which_is_already_inside_user() {
    // The `cpu` aggregate line, not `cpu0`.
    let stat = "cpu  100 20 30 700 50 0 0 0 900 10\ncpu0 1 1 1 1 1 0 0 0 0 0\n";
    let (busy, total) = parse_cpu_times(stat).unwrap();
    assert_eq!(total, 100 + 20 + 30 + 700 + 50, "guest must not be summed");
    assert_eq!(busy, 150, "idle and iowait are not busy");
    assert_eq!(parse_cpu_times("intr 1 2 3\n"), None);
}

#[test]
fn cpu_times_need_five_counters_and_take_nonsense_as_zero() {
    assert_eq!(parse_cpu_times("cpu 1 2 3 4\n"), None);
    assert_eq!(parse_cpu_times("cpu 1 2 3 4 5\n"), Some((6, 15)));
    assert_eq!(parse_cpu_times("cpu0 9\ncpu 1 x 3 4 5 6\n"), Some((10, 19)));
    assert_eq!(parse_cpu_times("cpu\t1 2 3 4 5\n"), None);
    assert_eq!(parse_cpu_times(""), None);
    assert!(jiffies_fit("cpu 1 2 3 4 5\n"));
    assert!(jiffies_fit("intr\n"));
    assert!(!jiffies_fit("cpu 18446744073709551615 1 0 0 0\n"));
    assert!(jiffies_fit("cpu 18446744073709551615 1 0 0\n"));
}

#[test]
fn usage_is_the_busy_share_of_elapsed_jiffies() {
    assert_eq!(percent(usage_between((0, 0), (25, 100))), 25.0);
    assert_eq!(percent(usage_between((100, 400), (200, 500))), 100.0);
    // A counter that did not move, or went backwards across a suspend.
    assert_eq!(percent(usage_between((10, 100), (10, 100))), 0.0);
    assert_eq!(percent(usage_between((10, 100), (5, 50))), 0.0);
    assert_eq!(usage_between((0, 0), (25, 100)), Some((25, 100)));
    assert_eq!(usage_between((10, 100), (5, 150)), Some((0, 50)));
}

#[test]
fn energy_delta_handles_the_counter_wrapping() {
    assert_eq!(energy_delta(100, 500, Some(1000)), Some(400));
    // Wrapped: 900 -> 1000, then 0 -> 50.
    assert_eq!(energy_delta(900, 50, Some(1000)), Some(150));
    // Went backwards with no known wrap point: a reset, so drop the sample.
    assert_eq!(energy_delta(900, 50, None), None);
}

#[test]
fn energy_delta_never_exceeds_the_counter() {
    assert_eq!(energy_delta(900, 50, Some(10)), Some(50));
    assert_eq!(energy_delta(u64::MAX, u64::MAX - 1, Some(u64::MAX)), Some(u64::MAX - 1));
    assert_eq!(energy_delta(7, 7, None), Some(0));
}

#[test]
fn readings_round_and_saturate_into_the_wire_fields() {
    let reading = Reading {
        temp_c: 73.5f32.to_bits(),
        usage: 87.6f32.to_bits(),
        power: 142.4f32.to_bits(),
        freq: 5300.0f32.to_bits(),
        ratio: 77.0f32.to_bits(),
        power_measured: true,
    };
    let wire = reading.to_frame(Unit::Celsius, fahrenheit(73.5));
    assert_eq!(f32::from_bits(wire.temp), 73.5);
    assert_eq!(wire.usage, 88, "rounded, not truncated");
    assert_eq!(wire.power, 142);
    assert_eq!(wire.freq, 5300);

    let scaled = reading.to_frame(Unit::Fahrenheit, fahrenheit(73.5));
    assert_eq!(f32::from_bits(scaled.temp), 164.3);

    // Nonsense from a misbehaving sensor must not become a nonsense frame.
    let broken = Reading {
        temp_c: f32::NAN.to_bits(),
        usage: 500.0f32.to_bits(),
        power: 1e9f32.to_bits(),
        freq: (-1.0f32).to_bits(),
        ratio: f32::NAN.to_bits(),
        power_measured: false,
    };
    let wire = broken.to_frame(Unit::Celsius, fahrenheit(f32::NAN));
    assert_eq!(f32::from_bits(wire.temp), 0.0);
    assert_eq!(wire.usage, 255, "saturates at the field width");
    assert_eq!(wire.power, u16::MAX);
    assert_eq!(wire.freq, 0);
    assert_eq!(wire.ratio, 0, "NaN casts to zero");
}

#[test]
fn rounding_is_that_of_the_machine() {
    let mut bits: u32 = 0;
    loop {
        let value = f32::from_bits(bits);
        assert_eq!(to_field(bits, 0xFFFF), value.round() as u16, "{value}");
        assert_eq!(to_field(bits, 0xFF) as u8, value.round() as u8, "{value}");
        assert_eq!(is_finite(bits), value.is_finite(), "{value}");
        assert_eq!(is_positive(bits), value.is_finite() && value > 0.0, "{value}");
        match bits.checked_add(4001) {
            Some(next) => bits = next,
            None => break,
        }
    }
    for tenths in 0..2000u32 {
        let value = tenths as f32 / 4.0;
        assert_eq!(to_field(value.to_bits(), 0xFFFF), value.round() as u16);
        assert_eq!(to_field((-value).to_bits(), 0xFFFF), 0);
    }
    assert_eq!(to_field(f32::INFINITY.to_bits(), 0xFF), 0xFF);
    assert_eq!(to_field(f32::NEG_INFINITY.to_bits(), 0xFF), 0);
    assert_eq!(to_field(0.49999997f32.to_bits(), 0xFF), 0);
    assert_eq!(to_field(254.5f32.to_bits(), 0xFF), 255);
}

#[test]
fn periods_that_last_are_told_from_their_bits() {
    for value in [
        0.0,
        -0.0,
        1.0,
        -1.0,
        0.5,
        1e-9,
        6e-10,
        5e-10,
        4e-10,
        1e-10,
        f64::MIN_POSITIVE,
        5e-324,
        1e19,
        f64::INFINITY,
        f64::NEG_INFINITY,
        f64::NAN,
        -f64::NAN,
    ] {
        let lasts = value.is_finite() && value > 0.0 && !Duration::from_secs_f64(value).is_zero();
        assert_eq!(is_lasting(value.to_bits()), lasts, "{value}");
    }
    assert!(is_lasting(f64::MAX.to_bits()));
    // The bound is where rounding to whole nanoseconds starts to leave something.
    for bits in SHORTEST_PERIOD - 1000..SHORTEST_PERIOD + 1000 {
        let zero = Duration::from_secs_f64(f64::from_bits(bits)).is_zero();
        assert_eq!(zero, bits < SHORTEST_PERIOD);
        assert_eq!(is_lasting(bits), !zero);
    }
}

#[test]
fn sampling_a_fixture_tree_reads_every_field() {
    let tdp = 100.0f32;
    let config = Config {
        tdp: tdp.to_bits(),
        temp_label: None,
        sysfs: String::from("/fixture"),
        proc_stat: String::from("/fixture/proc/stat"),
    };
    let mut cpu = Cpu::new(&config, &amd_hwmon(), &Vec::new());
    assert_eq!(cpu.temp_input(), Some("class/hwmon/hwmon6/temp1_input"));
    let raw = |stat: &str| Raw {
        proc_stat: Some(stat.to_string()),
        energy_uj: None,
        now: 0,
        temp: Some("52125\n".to_string()),
        cores: vec![
            cpu_entry("cpu0", Some("4000000\n")),
            cpu_entry("cpu1", Some("5000000\n")),
            cpu_entry("cpufreq", None),
        ],
    };

    let first = raw("cpu  100 0 100 800 0 0 0 0\n");
    assert!(counters_fit(&first));
    let sample = cpu.sample(&first);
    let (temp_c, usage, power, freq, ratio) = figures(&sample, tdp);
    assert_eq!(temp_c, 52.125);
    assert_eq!(freq, 4500.0, "mean of the cores, kHz to MHz");
    assert_eq!(usage, 0.0, "no previous sample to difference against");
    assert!(sample.power.is_none(), "no readable RAPL zone in the fixture");
    assert_eq!(power, 25.0, "idle estimate is a quarter of TDP");
    assert_eq!(ratio, 25.0);

    // 200 more busy jiffies out of 400 elapsed.
    let sample = cpu.sample(&raw("cpu  200 0 200 900 100 0 0 0\n"));
    let (_, usage, power, _, _) = figures(&sample, tdp);
    assert_eq!(usage, 50.0);
    assert_eq!(power, 62.5);
}

#[test]
fn missing_sensors_read_as_zero_rather_than_failing() {
    let config = Config {
        tdp: 0.0f32.to_bits(),
        temp_label: None,
        sysfs: String::from("nothing/here"),
        proc_stat: String::from("nothing/here/stat"),
    };
    let mut cpu = Cpu::new(&config, &Vec::new(), &Vec::new());
    let sample = cpu.sample(&Raw {
        proc_stat: None,
        energy_uj: None,
        now: 0,
        temp: None,
        cores: Vec::new(),
    });
    let (temp_c, usage, power, freq, ratio) = figures(&sample, 0.0);
    assert_eq!(temp_c, 0.0);
    assert_eq!(usage, 0.0);
    assert_eq!(freq, 0.0);
    assert_eq!(power, 0.0);
    assert_eq!(ratio, 0.0, "a zero TDP must not divide by zero");
    assert_eq!(cpu.temp_input(), None);
    assert_eq!(cpu.energy_path(), None);
}

#[test]
fn power_is_measured_from_the_second_reading_on() {
    let zones = vec![zone(
        "intel-rapl:0",
        Some("package-0\n"),
        Some("900\n"),
        Some("1000\n"),
    )];
    let mut cpu = Cpu::new(&Config::default(), &Vec::new(), &zones);
    assert_eq!(cpu.energy_path(), Some("class/powercap/intel-rapl:0/energy_uj"));
    let raw = |energy: Option<&str>, now: u128| Raw {
        proc_stat: None,
        energy_uj: energy.map(|s| s.to_string()),
        now,
        temp: Some("1\n".to_string()),
        cores: Vec::new(),
    };
    assert_eq!(cpu.sample(&raw(Some("900\n"), 5)).power, None);
    assert_eq!(cpu.sample(&raw(Some("950\n"), 7)).power, Some((50, 2)));
    // Unreadable once: the next difference spans it, and the wrap.
    assert_eq!(cpu.sample(&raw(None, 8)).power, None);
    assert_eq!(cpu.sample(&raw(Some("20\n"), 10)).power, Some((70, 3)));
    // No time went by.
    assert_eq!(cpu.sample(&raw(Some("30\n"), 10)).power, None);
    // There is no sensor for the temperature text to come from.
    assert_eq!(cpu.sample(&raw(None, 11)).temp_milli, None);
}

#[test]
fn usage_spans_an_unreadable_sample() {
    let mut cpu = Cpu::new(&Config::default(), &Vec::new(), &Vec::new());
    let raw = |stat: Option<&str>| Raw {
        proc_stat: stat.map(|s| s.to_string()),
        energy_uj: Some("1\n".to_string()),
        now: 1,
        temp: None,
        cores: Vec::new(),
    };
    assert_eq!(cpu.sample(&raw(Some("cpu 10 0 0 90 0\n"))).usage, None);
    assert_eq!(cpu.sample(&raw(None)).usage, None);
    assert_eq!(cpu.sample(&raw(Some("cpu 20 0 0 110 0\n"))).usage, Some((10, 30)));
}

#[test]
fn only_numbered_cpus_are_cores() {
    assert!(is_core("cpu0"));
    assert!(is_core("cpu12"));
    assert!(!is_core("cpu"));
    assert!(!is_core("cpufreq"));
    assert!(!is_core("cpu1x"));
    assert!(!is_core("cp"));
    let cores = vec![
        cpu_entry("cpu0", Some("4000000\n")),
        cpu_entry("cpufreq", Some("1\n")),
        cpu_entry("cpu", Some("5\n")),
        cpu_entry("cpu1", None),
        cpu_entry("cpu2", Some("x")),
        cpu_entry("cpu3", Some("5000000\n")),
    ];
    assert!(cores_fit(&cores));
    assert_eq!(total_frequency(&cores), (9_000_000, 2));
    let huge = vec![
        cpu_entry("cpu0", Some("18446744073709551615")),
        cpu_entry("cpu1", Some("1")),
    ];
    assert!(!cores_fit(&huge));
}

#[test]
fn the_default_configuration_reads_the_system() {
    let config = Config::default();
    assert_eq!(f32::from_bits(config.tdp), 65.0);
    assert_eq!(config.temp_label, None);
    assert_eq!(config.sysfs, "/sys");
    assert_eq!(config.proc_stat, "/proc/stat");
}

#[test]
fn the_listing_order_makes_no_difference_to_the_sensors() {
    let label = &[("temp1_label", "Tctl\n")];
    let mut chips = vec![
        chip("hwmon3", "coretemp\n", label, &["temp1_input"]),
        chip("hwmon12", "zenpower\n", label, &["temp1_input"]),
        chip("hwmon9", "zenpower\n", label, &["temp1_input"]),
    ];
    let mut zones = vec![
        zone("b", Some("package-1\n"), Some("1"), None),
        zone("c", Some("dram\n"), Some("1"), None),
        zone("a", Some("package-1\n"), Some("1"), Some("9\n")),
    ];
    for _ in 0..3 {
        assert_eq!(
            find_temp_input(&chips, None).as_deref(),
            Some("class/hwmon/hwmon9/temp1_input")
        );
        let best = find_energy_zone(&zones).unwrap();
        assert_eq!(best.path, "class/powercap/a/energy_uj");
        assert_eq!(best.max, Some(9));
        chips.rotate_left(1);
        zones.rotate_left(1);
    }
}

#[test]
fn a_package_label_wins_over_the_first_sensor() {
    let chips = vec![chip(
        "hwmon0",
        "coretemp\n",
        &[("temp7_label", "Package id 0\n"), ("temp5_label", "Tdie\n")],
        &["temp1_input", "temp5_input", "temp7_input"],
    )];
    assert_eq!(
        find_temp_input(&chips, None).as_deref(),
        Some("class/hwmon/hwmon0/temp5_input")
    );
}

#[test]
fn a_configuration_can_be_copied() {
    let config = Config {
        temp_label: Some("Tccd1".to_string()),
        ..Config::default()
    };
    let copy = config.clone();
    assert_eq!(copy.tdp, config.tdp);
    assert_eq!(copy.temp_label, config.temp_label);
    assert_eq!(copy.sysfs, config.sysfs);
    assert_eq!(copy.proc_stat, config.proc_stat);
}

#[test]
fn readings_are_equal_as_numbers() {
    let with = |power: f32| Reading {
        temp_c: 73.5f32.to_bits(),
        usage: 88.0f32.to_bits(),
        power: power.to_bits(),
        freq: 5300.0f32.to_bits(),
        ratio: 77.0f32.to_bits(),
        power_measured: true,
    };
    assert_eq!(with(142.0), with(142.0));
    assert_eq!(with(0.0), with(-0.0));
    assert_ne!(with(142.0), with(141.0));
    assert_ne!(with(f32::NAN), with(f32::NAN));
    assert_ne!(
        Reading {
            power_measured: false,
            ..with(142.0)
        },
        with(142.0)
    );
    let values = [
        0.0,
        -0.0,
        1.0,
        -1.0,
        f32::MIN_POSITIVE,
        1e-45,
        -1e-45,
        f32::MAX,
        f32::INFINITY,
        f32::NEG_INFINITY,
        f32::NAN,
        -f32::NAN,
    ];
    for a in values {
        for b in values {
            assert_eq!(is_equal(a.to_bits(), b.to_bits()), a == b, "{a} {b}");
        }
    }
}
