use energy_monitor::awtrix3::{decode_custom_application, CustomApplication};
use energy_monitor::dto::{Consumption, Decimal, PriceInformation, PriceLevel};
use energy_monitor::topic::{Decode, Encode, Topic};

fn text_of(bytes: Vec<u8>) -> String {
    String::from_utf8(bytes).unwrap()
}

#[test]
fn test_encode_decode() {
    let price_info = PriceInformation {
        total: Decimal { hundredths: 10000 },
        level: PriceLevel::Cheap,
    };

    let topic: Topic<PriceInformation> = Topic::new("Tibber/price_information");
    let encoded = topic.encode(&price_info);
    let decoded = topic.decode(&encoded).unwrap();

    assert_eq!(price_info, decoded);
}

#[test]
fn consumption_encodes_exactly() {
    let encoded = Consumption::encode(&Consumption { consumption: 950 });
    assert_eq!(text_of(encoded), "{\"consumption\":950}");
}

#[test]
fn consumption_negative_round_trip() {
    let c = Consumption { consumption: -1234 };
    let encoded = Consumption::encode(&c);
    assert_eq!(text_of(encoded.clone()), "{\"consumption\":-1234}");
    assert_eq!(Consumption::decode(&encoded).unwrap(), c);
}

#[test]
fn consumption_extreme_values_round_trip() {
    for v in [i32::MIN, i32::MAX, 0, -1, 1] {
        let c = Consumption { consumption: v };
        let encoded = Consumption::encode(&c);
        assert_eq!(Consumption::decode(&encoded).unwrap(), c);
    }
}

#[test]
fn consumption_rejects_wrong_shape() {
    assert!(Consumption::decode(b"").is_err());
    assert!(Consumption::decode(b"{}").is_err());
    assert!(Consumption::decode(b"{\"consumption\":}").is_err());
    assert!(Consumption::decode(b"{\"consumption\":01}").is_err());
    assert!(Consumption::decode(b"{\"consumption\":-0}").is_err());
    assert!(Consumption::decode(b"{\"consumption\":950} ").is_err());
    assert!(Consumption::decode(b"{\"total\":1.00,\"level\":\"Cheap\"}").is_err());
    assert!(Consumption::decode(b"{\"consumption\":99999999999999999999}").is_err());
}

#[test]
fn price_encodes_exactly() {
    let p = PriceInformation {
        total: Decimal { hundredths: 10000 },
        level: PriceLevel::Cheap,
    };
    let encoded = PriceInformation::encode(&p);
    assert_eq!(text_of(encoded), "{\"total\":100.00,\"level\":\"Cheap\"}");
}

#[test]
fn price_levels_round_trip() {
    for level in [
        PriceLevel::Cheap,
        PriceLevel::Expensive,
        PriceLevel::Normal,
        PriceLevel::VeryCheap,
        PriceLevel::VeryExpensive,
        PriceLevel::NoneLevel,
    ] {
        let p = PriceInformation {
            total: Decimal { hundredths: -5 },
            level,
        };
        let encoded = PriceInformation::encode(&p);
        assert_eq!(PriceInformation::decode(&encoded).unwrap(), p);
    }
}

#[test]
fn price_none_level_uses_none_tag() {
    let p = PriceInformation {
        total: Decimal { hundredths: 1 },
        level: PriceLevel::NoneLevel,
    };
    let encoded = PriceInformation::encode(&p);
    assert_eq!(text_of(encoded), "{\"total\":0.01,\"level\":\"None\"}");
}

#[test]
fn price_rejects_wrong_shape() {
    assert!(PriceInformation::decode(b"{\"total\":100.00}").is_err());
    assert!(PriceInformation::decode(b"{\"total\":100.0,\"level\":\"Cheap\"}").is_err());
    assert!(PriceInformation::decode(b"{\"total\":100.00,\"level\":\"cheap\"}").is_err());
    assert!(PriceInformation::decode(b"{\"total\":-0.00,\"level\":\"Cheap\"}").is_err());
    assert!(PriceInformation::decode(b"{\"consumption\":950}").is_err());
}

#[test]
fn decimal_round_trip() {
    for h in [0i64, 1, -1, 45120, -5, 99999999999999999, -99999999999999999] {
        let d = Decimal { hundredths: h };
        let encoded = Decimal::encode(&d);
        assert_eq!(Decimal::decode(&encoded).unwrap(), d);
    }
}

#[test]
fn decimal_encodes_exactly() {
    assert_eq!(text_of(Decimal::encode(&Decimal { hundredths: 45120 })), "451.20");
    assert_eq!(text_of(Decimal::encode(&Decimal { hundredths: -5 })), "-0.05");
    assert_eq!(text_of(Decimal::encode(&Decimal { hundredths: 0 })), "0.00");
}

#[test]
fn decimal_accepts_any_json_number_text() {
    // what an external producer actually publishes: no fixed spelling
    assert_eq!(Decimal::decode(b"1234").unwrap(), Decimal { hundredths: 123400 });
    assert_eq!(Decimal::decode(b"451.2").unwrap(), Decimal { hundredths: 45120 });
    assert_eq!(Decimal::decode(b"0.5").unwrap(), Decimal { hundredths: 50 });
    assert_eq!(Decimal::decode(b"-0.0").unwrap(), Decimal { hundredths: 0 });
    assert_eq!(Decimal::decode(b"007").unwrap(), Decimal { hundredths: 700 });
    assert_eq!(Decimal::decode(b"-12.34").unwrap(), Decimal { hundredths: -1234 });
}

#[test]
fn decimal_rounds_to_nearest_hundredth_ties_away() {
    assert_eq!(Decimal::decode(b"0.005").unwrap(), Decimal { hundredths: 1 });
    assert_eq!(Decimal::decode(b"0.0049999").unwrap(), Decimal { hundredths: 0 });
    assert_eq!(Decimal::decode(b"-0.005").unwrap(), Decimal { hundredths: -1 });
    assert_eq!(Decimal::decode(b"1.239").unwrap(), Decimal { hundredths: 124 });
    assert_eq!(Decimal::decode(b"1.2349").unwrap(), Decimal { hundredths: 123 });
    assert_eq!(Decimal::decode(b"1.999999").unwrap(), Decimal { hundredths: 200 });
}

#[test]
fn decimal_rejects_wrong_shape() {
    assert!(Decimal::decode(b"").is_err());
    assert!(Decimal::decode(b"-").is_err());
    assert!(Decimal::decode(b"451.").is_err());
    assert!(Decimal::decode(b".5").is_err());
    assert!(Decimal::decode(b"1e3").is_err());
    assert!(Decimal::decode(b"1.2.3").is_err());
    assert!(Decimal::decode(b"--1").is_err());
    assert!(Decimal::decode(b"451.20 ").is_err());
    assert!(Decimal::decode(b"nonsense").is_err());
    // sixteen integer digits exceed what the pipelines represent
    assert!(Decimal::decode(b"9999999999999999").is_err());
}

#[test]
fn custom_application_sparse_encoding() {
    let mut d = CustomApplication::default();
    d.text = "23".to_string();
    d.duration = Some(7);
    let encoded = CustomApplication::encode(&d);
    let text = text_of(encoded);
    assert_eq!(text, "{\"text\":\"23\",\"duration\":7}");
    assert!(!text.contains("null"));
}

#[test]
fn custom_application_full_encoding_uses_wire_names() {
    let d = CustomApplication {
        text: "a\"b\\c\nd".to_string(),
        text_case: Some(1),
        top_text: Some(true),
        text_offset: Some(-2),
        center: Some(false),
        color: Some("#66FF00".to_string()),
        gradient: Some("g".to_string()),
        blink_text: Some(3),
        fade_text: Some(4),
        background: Some("b".to_string()),
        rainbow: Some(true),
        icon: Some("52455".to_string()),
        push_icon: Some(0),
        repeat: Some(2),
        duration: Some(5),
        life_time: Some(10),
    };
    let text = text_of(CustomApplication::encode(&d));
    assert_eq!(
        text,
        "{\"text\":\"a\\\"b\\\\c\\u000ad\",\"textCase\":1,\"topText\":true,\"textOffset\":-2,\
         \"center\":false,\"color\":\"#66FF00\",\"gradient\":\"g\",\"blinkText\":3,\
         \"fadeText\":4,\"background\":\"b\",\"rainbow\":true,\"icon\":\"52455\",\
         \"pushIcon\":0,\"repeat\":2,\"duration\":5,\"lifeTime\":10}"
    );
}

#[test]
fn topic_names_are_kept() {
    let topic: Topic<Consumption> = Topic::new("Pulse/consumption");
    assert_eq!(topic.name(), "Pulse/consumption");
}


#[test]
fn custom_application_sparse_round_trip() {
    let mut d = CustomApplication::default();
    d.text = "hi".to_string();
    d.duration = Some(7);
    let encoded = CustomApplication::encode(&d);
    assert_eq!(decode_custom_application(&encoded).unwrap(), d);
}

#[test]
fn custom_application_full_round_trip() {
    let d = CustomApplication {
        text: "a\"b\\c\nd".to_string(),
        text_case: Some(1),
        top_text: Some(true),
        text_offset: Some(-2),
        center: Some(false),
        color: Some("#66FF00".to_string()),
        gradient: Some("g".to_string()),
        blink_text: Some(3),
        fade_text: Some(4),
        background: Some("b".to_string()),
        rainbow: Some(true),
        icon: Some("52455".to_string()),
        push_icon: Some(0),
        repeat: Some(2),
        duration: Some(5),
        life_time: Some(10),
    };
    let encoded = CustomApplication::encode(&d);
    assert_eq!(decode_custom_application(&encoded).unwrap(), d);
}

#[test]
fn custom_application_empty_round_trip() {
    let d = CustomApplication::default();
    let encoded = CustomApplication::encode(&d);
    assert_eq!(String::from_utf8(encoded.clone()).unwrap(), "{\"text\":\"\"}");
    assert_eq!(decode_custom_application(&encoded).unwrap(), d);
}

#[test]
fn custom_application_rejects_wrong_shape() {
    assert!(decode_custom_application(b"").is_err());
    assert!(decode_custom_application(b"{}").is_err());
    assert!(decode_custom_application(b"{\"text\":\"x\"").is_err());
    assert!(decode_custom_application(b"{\"text\":\"x\"} ").is_err());
    // unknown key
    assert!(decode_custom_application(b"{\"text\":\"x\",\"bogus\":1}").is_err());
    // null is never a canonical field value
    assert!(decode_custom_application(b"{\"text\":\"x\",\"icon\":null}").is_err());
    // out-of-order keys are not canonical
    assert!(
        decode_custom_application(b"{\"text\":\"x\",\"duration\":5,\"icon\":\"1\"}").is_err()
    );
    // duplicate keys are not canonical
    assert!(
        decode_custom_application(b"{\"text\":\"x\",\"duration\":5,\"duration\":5}").is_err()
    );
    // a non-minimal escape is not canonical
    assert!(decode_custom_application(b"{\"text\":\"\\u0041\"}").is_err());
}
