use energy_monitor::dto::Consumption;
use energy_monitor::meter::{
    consumption_from_messages, extract_consumption, MeterError, MeterMessage, ReadingEntry,
};

fn power_entry(value: Option<i32>) -> ReadingEntry {
    ReadingEntry {
        obj_name: vec![1, 0, 16, 7, 0, 255],
        value,
    }
}

fn other_entry() -> ReadingEntry {
    ReadingEntry {
        obj_name: vec![1, 0, 1, 8, 0, 255],
        value: Some(77),
    }
}

#[test]
fn extraction_publishes_the_power_reading() {
    let msgs = vec![
        MeterMessage::Other,
        MeterMessage::ListResponse(vec![other_entry(), power_entry(Some(950))]),
    ];
    assert_eq!(
        consumption_from_messages(&msgs),
        Ok(Consumption { consumption: 950 })
    );
}

#[test]
fn extraction_takes_the_first_matching_entry() {
    let msgs = vec![
        MeterMessage::Other,
        MeterMessage::ListResponse(vec![power_entry(Some(1)), power_entry(Some(2))]),
    ];
    assert_eq!(
        consumption_from_messages(&msgs),
        Ok(Consumption { consumption: 1 })
    );
}

#[test]
fn extraction_counts_a_non_integer_power_entry_as_zero() {
    let msgs = vec![
        MeterMessage::Other,
        MeterMessage::ListResponse(vec![power_entry(None)]),
    ];
    assert_eq!(
        consumption_from_messages(&msgs),
        Ok(Consumption { consumption: 0 })
    );
}

#[test]
fn too_short_message_list_fails_the_cycle() {
    let msgs = vec![MeterMessage::ListResponse(vec![power_entry(Some(950))])];
    assert_eq!(
        consumption_from_messages(&msgs),
        Err(MeterError::TooFewMessages)
    );
}

#[test]
fn wrong_second_message_fails_the_cycle() {
    let msgs = vec![MeterMessage::Other, MeterMessage::Other];
    assert_eq!(
        consumption_from_messages(&msgs),
        Err(MeterError::WrongStructure)
    );
}

#[test]
fn missing_power_entry_fails_the_cycle() {
    let msgs = vec![
        MeterMessage::Other,
        MeterMessage::ListResponse(vec![other_entry()]),
    ];
    assert_eq!(
        consumption_from_messages(&msgs),
        Err(MeterError::NoPowerEntry)
    );
}

/// A real meter response: one transport frame holding an open response, a
/// list-of-readings response whose active-power entry reads 613 W, and a
/// close response.
fn sample_response() -> Vec<u8> {
    vec![
        0x1b, 0x1b, 0x1b, 0x1b, 0x01, 0x01, 0x01, 0x01, 0x76, 0x09, 0xe4, 0x06,
        0x00, 0x00, 0x09, 0x99, 0x87, 0xd9, 0x62, 0x00, 0x62, 0x00, 0x72, 0x65,
        0x00, 0x00, 0x01, 0x01, 0x76, 0x01, 0x01, 0x09, 0x00, 0x00, 0x00, 0x00,
        0x03, 0x33, 0x34, 0x2c, 0x0b, 0x0a, 0x01, 0x49, 0x54, 0x52, 0x00, 0x03,
        0x48, 0xf5, 0x8e, 0x72, 0x62, 0x01, 0x65, 0x03, 0x33, 0x36, 0x98, 0x01,
        0x63, 0xc6, 0xa3, 0x00, 0x76, 0x09, 0xe4, 0x06, 0x00, 0x00, 0x09, 0x99,
        0x87, 0xda, 0x62, 0x00, 0x62, 0x00, 0x72, 0x65, 0x00, 0x00, 0x07, 0x01,
        0x77, 0x01, 0x0b, 0x0a, 0x01, 0x49, 0x54, 0x52, 0x00, 0x03, 0x48, 0xf5,
        0x8e, 0x07, 0x01, 0x00, 0x62, 0x0a, 0xff, 0xff, 0x72, 0x62, 0x01, 0x65,
        0x03, 0x33, 0x36, 0x98, 0x74, 0x77, 0x07, 0x01, 0x00, 0x60, 0x32, 0x01,
        0x01, 0x01, 0x01, 0x01, 0x01, 0x04, 0x49, 0x54, 0x52, 0x01, 0x77, 0x07,
        0x01, 0x00, 0x60, 0x01, 0x00, 0xff, 0x01, 0x01, 0x01, 0x01, 0x0b, 0x0a,
        0x01, 0x49, 0x54, 0x52, 0x00, 0x03, 0x48, 0xf5, 0x8e, 0x01, 0x77, 0x07,
        0x01, 0x00, 0x01, 0x08, 0x00, 0xff, 0x65, 0x00, 0x1c, 0x01, 0x04, 0x01,
        0x62, 0x1e, 0x52, 0xff, 0x69, 0x00, 0x00, 0x00, 0x00, 0x04, 0xe1, 0xa2,
        0x0d, 0x01, 0x77, 0x07, 0x01, 0x00, 0x10, 0x07, 0x00, 0xff, 0x01, 0x01,
        0x62, 0x1b, 0x52, 0x00, 0x55, 0x00, 0x00, 0x02, 0x65, 0x01, 0x01, 0x01,
        0x63, 0xdd, 0x64, 0x00, 0x76, 0x09, 0xe4, 0x06, 0x00, 0x00, 0x09, 0x99,
        0x87, 0xdb, 0x62, 0x00, 0x62, 0x00, 0x72, 0x65, 0x00, 0x00, 0x02, 0x01,
        0x71, 0x01, 0x63, 0x41, 0x9a, 0x00, 0x00, 0x00, 0x1b, 0x1b, 0x1b, 0x1b,
        0x1a, 0x02, 0xeb, 0x0f,
    ]
}

#[test]
fn full_extraction_from_a_real_response() {
    let body = sample_response();
    assert_eq!(
        extract_consumption(&body),
        Ok(Consumption { consumption: 613 })
    );
}

#[test]
fn garbage_bytes_fail_the_cycle() {
    let body = b"hello world".to_vec();
    assert!(extract_consumption(&body).is_err());
}
