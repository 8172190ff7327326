use msr_power::msr::{
    decode_register, energy_from_words, energy_unit_exponent, Energy, Msr, RegisterAccessError,
    CORE_ENERGY_OFFSET, PACKAGE_ENERGY_OFFSET, POWER_UNIT_OFFSET,
};

#[test]
fn register_offsets() {
    assert_eq!(POWER_UNIT_OFFSET, 0xC0010299);
    assert_eq!(CORE_ENERGY_OFFSET, 0xC001029A);
    assert_eq!(PACKAGE_ENERGY_OFFSET, 0xC001029B);
}

#[test]
fn energy_unit_fourteen() {
    assert_eq!(energy_unit_exponent(0b01110 << 8), 14);
    // the other bits do not matter
    assert_eq!(energy_unit_exponent(0xFFFF_FFFF_FFFF_EEFF), 14);
    let one = Energy { raw: 1, unit: energy_unit_exponent(0x0E03) };
    // 2^-14 joules is 2^17 counts of 2^-31 joules
    assert_eq!(one.fine_count(), 1u128 << 17);
}

#[test]
fn energy_unit_zero_is_one_joule() {
    assert_eq!(energy_unit_exponent(0), 0);
    assert_eq!(energy_unit_exponent(0xFFFF_FFFF_FFFF_E0FF), 0);
    let one = Energy { raw: 1, unit: 0 };
    assert_eq!(one.fine_count(), 1u128 << 31);
}

#[test]
fn largest_energy_is_exact() {
    let e = Energy { raw: u64::MAX, unit: 0 };
    assert_eq!(e.fine_count(), (u64::MAX as u128) << 31);
    let e = Energy { raw: u64::MAX, unit: 31 };
    assert_eq!(e.fine_count(), u64::MAX as u128);
}

#[test]
fn register_bytes_are_little_endian() {
    let bytes = [0x88u8, 0x77, 0x66, 0x55, 0x44, 0x33, 0x22, 0x11];
    assert_eq!(decode_register(&bytes), Ok(0x1122_3344_5566_7788));
    assert_eq!(decode_register(&[0xFF; 8]), Ok(u64::MAX));
    assert_eq!(decode_register(&[0; 8]), Ok(0));
}

#[test]
fn short_register_read_fails() {
    assert_eq!(decode_register(&[1, 2, 3, 4, 5, 6, 7]), Err(RegisterAccessError::ShortRead));
    assert_eq!(decode_register(&[]), Err(RegisterAccessError::ShortRead));
}

#[test]
fn extra_register_bytes_are_ignored() {
    assert_eq!(decode_register(&[5, 0, 0, 0, 0, 0, 0, 0, 9]), Ok(5));
}

#[test]
fn energy_from_register_words() {
    let counter = 1000u64.to_le_bytes();
    let units = 0x0A0E03u64.to_le_bytes();
    assert_eq!(
        energy_from_words(&counter, &units),
        Ok(Energy { raw: 1000, unit: 14 })
    );
    assert_eq!(
        energy_from_words(&counter[..4], &units),
        Err(RegisterAccessError::ShortRead)
    );
    assert_eq!(
        energy_from_words(&counter, &units[..7]),
        Err(RegisterAccessError::ShortRead)
    );
}

#[test]
fn msr_device_path() {
    let m = Msr::new(3);
    assert_eq!(m.core, 3);
    assert_eq!(m.path, "/dev/cpu/3/msr");
    assert_eq!(Msr::new(127).path, "/dev/cpu/127/msr");
    assert_eq!(Msr::new(0).path, "/dev/cpu/0/msr");
}
