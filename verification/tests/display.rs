use energy_monitor::awtrix3::CustomApplication;
use energy_monitor::display::{
    color_from_price_level, format_current_consumption, format_current_price,
    format_current_production, format_yield_day, handle_event,
};
use energy_monitor::dto::{Consumption, Decimal, PriceInformation, PriceLevel};

#[test]
fn test_default_custom_application() {
    let custom_application = CustomApplication::default();

    assert_eq!(custom_application.icon, None);
}

#[test]
fn color_table_is_total() {
    assert_eq!(color_from_price_level(PriceLevel::VeryCheap), "#66FF00");
    assert_eq!(color_from_price_level(PriceLevel::Cheap), "#66FF00");
    assert_eq!(color_from_price_level(PriceLevel::Normal), "#ED872D");
    assert_eq!(color_from_price_level(PriceLevel::Expensive), "#FF0800");
    assert_eq!(color_from_price_level(PriceLevel::VeryExpensive), "#FF0800");
    assert_eq!(color_from_price_level(PriceLevel::NoneLevel), "#FF00FF");
    for level in [
        PriceLevel::Cheap,
        PriceLevel::Expensive,
        PriceLevel::Normal,
        PriceLevel::VeryCheap,
        PriceLevel::VeryExpensive,
        PriceLevel::NoneLevel,
    ] {
        assert!(!color_from_price_level(level).is_empty());
    }
}

#[test]
fn yield_day_directive_fields() {
    let d = format_yield_day(&Decimal { hundredths: 45170 });
    assert_eq!(d.text, "452");
    assert_eq!(d.icon.as_deref(), Some("52455"));
    assert_eq!(d.duration, Some(5));
    assert_eq!(d.life_time, None);
    assert_eq!(d.color, None);
}

#[test]
fn production_directive_rounds_to_whole_watts() {
    let d = format_current_production(&Decimal { hundredths: 12340 });
    assert_eq!(d.text, "123");
    let d = format_current_production(&Decimal { hundredths: -150 });
    assert_eq!(d.text, "-2");
    assert_eq!(d.icon.as_deref(), Some("37515"));
}

#[test]
fn consumption_directive_formats_kilowatts() {
    let d = format_current_consumption(&Consumption { consumption: 950 });
    assert_eq!(d.text, "1.0");
    assert_eq!(d.icon.as_deref(), Some("55888"));
    assert_eq!(d.duration, Some(5));
    assert_eq!(d.life_time, Some(10));

    let d = format_current_consumption(&Consumption { consumption: -940 });
    assert_eq!(d.text, "-0.9");
}

#[test]
fn price_directive_carries_color_and_expiry() {
    let p = PriceInformation {
        total: Decimal { hundredths: 32 },
        level: PriceLevel::Expensive,
    };
    let d = format_current_price(&p);
    assert_eq!(d.text, "0.32");
    assert_eq!(d.color.as_deref(), Some("#FF0800"));
    assert_eq!(d.icon.as_deref(), Some("54231"));
    assert_eq!(d.duration, Some(2));
    assert_eq!(d.life_time, Some(3720));
}

#[test]
fn dispatch_builds_the_consumption_directive() {
    let r = handle_event("Pulse/consumption", b"{\"consumption\":950}")
        .unwrap()
        .unwrap();
    assert_eq!(r.topic, "matrixdisplay/custom/consumption");
    assert_eq!(
        String::from_utf8(r.payload).unwrap(),
        "{\"text\":\"1.0\",\"icon\":\"55888\",\"duration\":5,\"lifeTime\":10}"
    );
}

#[test]
fn dispatch_builds_the_price_directive() {
    let r = handle_event("Tibber/price_information", b"{\"total\":0.32,\"level\":\"VeryCheap\"}")
        .unwrap()
        .unwrap();
    assert_eq!(r.topic, "matrixdisplay/custom/tibberprice");
    assert_eq!(
        String::from_utf8(r.payload).unwrap(),
        "{\"text\":\"0.32\",\"color\":\"#66FF00\",\"icon\":\"54231\",\"duration\":2,\"lifeTime\":3720}"
    );
}

#[test]
fn dispatch_builds_the_yield_and_power_directives() {
    let r = handle_event("OpenDTU/ac/yieldday", b"4.70").unwrap().unwrap();
    assert_eq!(r.topic, "matrixdisplay/custom/yieldday");
    assert_eq!(String::from_utf8(r.payload).unwrap(), "{\"text\":\"5\",\"icon\":\"52455\",\"duration\":5}");

    let r = handle_event("OpenDTU/ac/power", b"451.20").unwrap().unwrap();
    assert_eq!(r.topic, "matrixdisplay/custom/power");
    assert_eq!(String::from_utf8(r.payload).unwrap(), "{\"text\":\"451\",\"icon\":\"37515\",\"duration\":5}");
}

#[test]
fn dispatch_accepts_the_inverters_number_texts() {
    // the inverter publishes plain JSON numbers, not this crate's spelling
    let r = handle_event("OpenDTU/ac/power", b"1234").unwrap().unwrap();
    assert_eq!(r.topic, "matrixdisplay/custom/power");
    assert_eq!(String::from_utf8(r.payload).unwrap(), "{\"text\":\"1234\",\"icon\":\"37515\",\"duration\":5}");

    let r = handle_event("OpenDTU/ac/yieldday", b"451.2").unwrap().unwrap();
    assert_eq!(r.topic, "matrixdisplay/custom/yieldday");
    assert_eq!(String::from_utf8(r.payload).unwrap(), "{\"text\":\"451\",\"icon\":\"52455\",\"duration\":5}");
}

#[test]
fn dispatch_ignores_unknown_topics() {
    let r = handle_event("some/other/topic", b"whatever").unwrap();
    assert!(r.is_none());
}

#[test]
fn dispatch_reports_malformed_payloads() {
    assert!(handle_event("Pulse/consumption", b"not json").is_err());
    assert!(handle_event("Tibber/price_information", b"{}").is_err());
    assert!(handle_event("OpenDTU/ac/power", b"abc").is_err());
}
