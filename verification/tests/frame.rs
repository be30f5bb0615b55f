use sudokoo_linux::frame::{
    close, open, sensor, set_unit, Report, Sensors, Unit, ADDR, CTRL, END, MODE_REPORT, OP_DISPLAY,
    REPORT_ID, REPORT_LEN, START,
};

/// Check the framing invariants that hold for every frame, and return the data bytes. A
/// frame the device rejects is indistinguishable from silence, so these are the only checks
/// available away from hardware.
fn data_of(report: &Report) -> &[u8] {
    let b = report.as_bytes();
    assert_eq!(b.len(), REPORT_LEN, "reports are always a full packet");
    assert_eq!(b[0], REPORT_ID);
    assert_eq!(b[1], START);
    assert_eq!(b[2], ADDR);
    assert_eq!(b[3], CTRL);

    let len = b[4] as usize;
    let data = &b[5..5 + len];
    let sum = b[1..5 + len].iter().fold(0u8, |acc, &x| acc.wrapping_add(x));
    assert_eq!(b[5 + len], sum, "checksum is the byte sum from START");
    assert_eq!(b[6 + len], END);
    assert!(
        b[7 + len..].iter().all(|&x| x == 0),
        "everything past the terminator is padding"
    );
    data
}

/// The demo values confirmed against the panel.
fn demo() -> Sensors {
    Sensors {
        temp: 55.0f32.to_bits(),
        usage: 50,
        power: 60,
        freq: 4200,
        ratio: 0,
    }
}

#[test]
fn open_matches_known_good_frame() {
    let expected = [
        0x10, 0x68, 0x01, 0x09, 0x0d, 0x01, 0x01, 0x00, 0x64, 0x32, 0x00, 0x42, 0x70, 0x00, 0x00,
        0x28, 0x0e, 0x10, 0x0f, 0x16,
    ];
    assert_eq!(&open().as_bytes()[..expected.len()], expected);
}

#[test]
fn close_matches_the_vendors_hardcoded_frame() {
    let expected = [
        0x10, 0x68, 0x01, 0x09, 0x0d, 0x01, 0x00, 0x00, 0x64, 0x32, 0x00, 0x42, 0x70, 0x00, 0x00,
        0x28, 0x0e, 0x10, 0x0e, 0x16,
    ];
    assert_eq!(&close().as_bytes()[..expected.len()], expected);
}

#[test]
fn set_unit_matches_the_vendors_hardcoded_frames() {
    let celsius = [0x10, 0x68, 0x01, 0x09, 0x02, 0x03, 0x00, 0x77, 0x16];
    let fahrenheit = [0x10, 0x68, 0x01, 0x09, 0x02, 0x03, 0x01, 0x78, 0x16];
    assert_eq!(&set_unit(Unit::Celsius).as_bytes()[..celsius.len()], celsius);
    assert_eq!(
        &set_unit(Unit::Fahrenheit).as_bytes()[..fahrenheit.len()],
        fahrenheit
    );
}

#[test]
fn sensor_matches_known_good_frame() {
    let expected = [
        0x10, 0x68, 0x01, 0x09, 0x0d, 0x01, 0x02, 0x00, 0x3c, 0x00, 0x00, 0x42, 0x5c, 0x00, 0x00,
        0x32, 0x10, 0x68, 0x06, 0x16,
    ];
    let frame = sensor(&demo(), Unit::Celsius);
    assert_eq!(&frame.as_bytes()[..expected.len()], expected);
}

#[test]
fn every_frame_satisfies_the_framing_invariants() {
    for report in [
        open(),
        close(),
        set_unit(Unit::Celsius),
        set_unit(Unit::Fahrenheit),
        sensor(&demo(), Unit::Celsius),
        sensor(&Sensors::default(), Unit::Fahrenheit),
    ] {
        data_of(&report);
    }
}

#[test]
fn length_field_counts_only_the_data_bytes() {
    // A length field that disagrees with the data gets a frame rejected.
    assert_eq!(data_of(&sensor(&demo(), Unit::Celsius)).len(), 13);
    assert_eq!(data_of(&open()).len(), 13);
    assert_eq!(data_of(&close()).len(), 13);
    assert_eq!(data_of(&set_unit(Unit::Celsius)).len(), 2);
}

#[test]
fn checksum_wraps_rather_than_saturating() {
    // Values chosen so the byte sum runs well past 0xFF several times over.
    let hot = Sensors {
        temp: (-273.15f32).to_bits(),
        usage: 100,
        power: 65535,
        freq: 65535,
        ratio: 255,
    };
    let frame = sensor(&hot, Unit::Fahrenheit);
    let b = frame.as_bytes();
    let wide: u32 = b[1..18].iter().map(|&x| x as u32).sum();
    assert!(wide > 0xFF, "test is only meaningful if the sum overflows");
    assert_eq!(b[18], (wide & 0xFF) as u8);
    data_of(&frame);
}

#[test]
fn temperature_is_a_big_endian_f32() {
    for temp in [55.0f32, 73.5, 0.0, -40.0, 212.0] {
        let frame = sensor(
            &Sensors {
                temp: temp.to_bits(),
                ..demo()
            },
            Unit::Celsius,
        );
        let data = data_of(&frame);
        assert_eq!(&data[6..10], temp.to_be_bytes());
    }
}

#[test]
fn sensor_fields_land_in_their_documented_positions() {
    let s = Sensors {
        temp: 73.5f32.to_bits(),
        usage: 88,
        power: 142,
        freq: 5300,
        ratio: 77,
    };
    let frame = sensor(&s, Unit::Fahrenheit);
    let data = data_of(&frame);

    assert_eq!(data[0], OP_DISPLAY);
    assert_eq!(data[1], MODE_REPORT);
    assert_eq!(u16::from_be_bytes([data[2], data[3]]), s.power);
    assert_eq!(data[4], s.ratio);
    assert_eq!(data[5], Unit::Fahrenheit.as_byte());
    assert_eq!(
        f32::from_be_bytes([data[6], data[7], data[8], data[9]]),
        f32::from_bits(s.temp)
    );
    assert_eq!(data[10], s.usage);
    assert_eq!(u16::from_be_bytes([data[11], data[12]]), s.freq);
}

#[test]
fn different_values_make_different_frames() {
    let a = sensor(&demo(), Unit::Celsius);
    let b = sensor(&demo(), Unit::Fahrenheit);
    let c = sensor(
        &Sensors {
            power: 61,
            ..demo()
        },
        Unit::Celsius,
    );
    assert_ne!(a, b);
    assert_ne!(a, c);
    assert_ne!(open(), close());
    assert_eq!(a, sensor(&demo(), Unit::Celsius));
}

#[test]
fn a_report_can_be_written_as_a_slice() {
    let report = open();
    let slice: &[u8] = report.as_ref();
    assert_eq!(slice, report.as_bytes());
    assert_eq!(slice.len(), 64);
}

#[test]
fn units_have_their_wire_bytes() {
    assert_eq!(Unit::Celsius.as_byte(), 0);
    assert_eq!(Unit::Fahrenheit.as_byte(), 1);
    assert_eq!(Unit::default(), Unit::Celsius);
}

#[test]
fn values_default_to_zero() {
    let s = Sensors::default();
    assert_eq!((s.temp, s.usage, s.power, s.freq, s.ratio), (0, 0, 0, 0, 0));
}

#[test]
fn values_are_equal_as_numbers() {
    let with = |temp: f32| Sensors {
        temp: temp.to_bits(),
        ..demo()
    };
    assert_eq!(with(55.0), demo());
    assert_eq!(with(0.0), with(-0.0));
    assert_ne!(with(1.0), with(-1.0));
    assert_ne!(with(f32::NAN), with(f32::NAN));
    assert_ne!(
        Sensors {
            ratio: 1,
            ..demo()
        },
        demo()
    );
}
