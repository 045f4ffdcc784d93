use pinmame_nvram::dips::{
    get_all_dip_switches, get_dip_switch, set_dip_switch, set_dip_switches,
    validate_dip_switch_range, DipSwitchState, MAX_SWITCH_COUNT,
};
use pinmame_nvram::error::{ErrorKind, NvramError};

#[test]
fn test_dip_switches() {
    // an image of 32 bytes; the last 6 bytes always hold the dip switches
    let switch_count = 32;
    let mut data = vec![0u8; switch_count];
    let switch1 = get_dip_switch(&data, 1).unwrap();
    let switch2 = get_dip_switch(&data, 32).unwrap();

    assert_eq!(false, switch1);
    assert_eq!(false, switch2);

    set_dip_switch(&mut data, 1, true).unwrap();
    set_dip_switch(&mut data, 32, true).unwrap();
    let switch1 = get_dip_switch(&data, 1).unwrap();
    let switch2 = get_dip_switch(&data, 32).unwrap();

    assert_eq!(true, switch1);
    assert_eq!(true, switch2);

    // the switch data should be written to the image
    assert_eq!([1, 0, 0, 128, 0, 0], data[data.len() - 6..]);

    // other data in the image should not be changed
    assert_eq!([0, 0], data[0..2]);
}

#[test]
fn test_dip_switch_out_of_range() {
    let result = validate_dip_switch_range(16, 17);
    assert!(matches!(
        result,
        Err(ref e) if e.kind() == ErrorKind::InvalidInput && e.message() == "Dip switch #17 out of range, expected 1-16"
    ));
    let result = validate_dip_switch_range(16, 0);
    assert!(matches!(
        result,
        Err(ref e) if e.kind() == ErrorKind::InvalidInput && e.message() == "Dip switch #0 out of range, expected 1-16"
    ));
    let result = validate_dip_switch_range(8 * 6 + 1, 1);
    println!("{result:?}");
    assert!(matches!(
        result,
        Err(ref e) if e.kind() == ErrorKind::InvalidInput && e.message() == "Switch count 49 out of range, expected 0-48"
    ));
}

#[test]
fn test_dip_switch_all() {
    let mut data = vec![0u8; 6];
    let dip_switches = get_all_dip_switches(&data).unwrap();
    assert_eq!(MAX_SWITCH_COUNT, dip_switches.len());
    for dip_switch in dip_switches {
        assert_eq!(false, dip_switch.on);
    }
    let mut written_switches = Vec::new();
    for i in (1..=MAX_SWITCH_COUNT).step_by(2) {
        written_switches.push(DipSwitchState { nr: i, on: true });
    }
    set_dip_switches(&mut data, &written_switches).unwrap();
    let read_switches = get_all_dip_switches(&data).unwrap();

    for (i, dip_switch) in read_switches.iter().enumerate() {
        if i % 2 == 0 {
            assert_eq!(true, dip_switch.on);
        } else {
            assert_eq!(false, dip_switch.on);
        }
    }
}

#[test]
fn dip_switch_set_then_get_keeps_neighbours() {
    let mut data = vec![0xAAu8; 10];
    set_dip_switch(&mut data, 10, false).unwrap();
    assert_eq!(false, get_dip_switch(&data, 10).unwrap());
    assert_eq!(true, get_dip_switch(&data, 12).unwrap());
    assert_eq!(vec![0xAA, 0xAA, 0xAA, 0xAA, 0xAA, 0xA8, 0xAA, 0xAA, 0xAA, 0xAA], data);
}

#[test]
fn dip_switch_number_out_of_range() {
    let data = vec![0u8; 6];
    let err = get_dip_switch(&data, 49).unwrap_err();
    assert_eq!(ErrorKind::InvalidInput, err.kind());
    assert_eq!("Dip switch #49 out of range, expected 1-48", err.message());
    assert!(matches!(get_dip_switch(&data, 0), Err(NvramError::DipSwitchOutOfRange { number: 0, max: 48 })));
}

#[test]
fn dip_switch_image_too_short() {
    let mut data = vec![0u8; 3];
    assert!(matches!(get_dip_switch(&data, 1), Err(NvramError::NegativeSeek)));
    // the last bank lies within three bytes of the end
    assert_eq!(Ok(false), get_dip_switch(&data, 41).map_err(|e| e.message()));
    assert!(matches!(get_all_dip_switches(&data), Err(NvramError::NegativeSeek)));
    // the first switch that fails stops the rest; those before it stay set
    let states = [DipSwitchState { nr: 48, on: true }, DipSwitchState { nr: 1, on: true }, DipSwitchState { nr: 47, on: true }];
    let err = set_dip_switches(&mut data, &states).unwrap_err();
    assert_eq!("invalid seek to a negative or overflowing position", err.message());
    assert_eq!(vec![0, 0, 0x80], data);
}
