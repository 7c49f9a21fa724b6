//! The display consumer: for each decoded bus event, the presentation
//! directive it becomes — fixed icon, duration and expiry per source,
//! source-specific number formatting, and the price level's colour.
use vstd::prelude::*;

use crate::awtrix3::{
    ca_open, field_i32, field_str, key_color, key_duration, key_icon, key_life_time,
    CustomApplication,
};
use crate::dto::{Consumption, Decimal, PriceInformation, PriceLevel};
use crate::format::{fmt_int, fmt_kw, fmt_money, int_chars, kw_chars, money_chars, round100, round_div100};
use crate::json::enc_str;
use crate::topic::{str_eq, Decode, DecodeError, Encode};
use crate::topics::{
    matrix_display_app_current_consumption_topic, matrix_display_app_current_price_topic,
    matrix_display_app_current_production_topic, matrix_display_app_yield_day_topic,
    open_dtu_ac_power_topic, open_dtu_ac_yield_day_topic, pulse_consumption_topic,
    tibber_price_information_topic,
};
use vstd::string::StringExecFns;
use vstd::utf8::encode_utf8;

verus! {

/// The colour assigned to each price level. The table is total: every
/// variant, `NoneLevel` included, maps to a colour.
pub open spec fn spec_color_of(level: PriceLevel) -> Seq<char> {
    match level {
        PriceLevel::Cheap => "#66FF00"@,
        PriceLevel::Expensive => "#FF0800"@,
        PriceLevel::Normal => "#ED872D"@,
        PriceLevel::VeryCheap => "#66FF00"@,
        PriceLevel::VeryExpensive => "#FF0800"@,
        PriceLevel::NoneLevel => "#FF00FF"@,
    }
}

/// Every price level maps to a non-empty colour string.
pub proof fn lemma_color_table_total()
    ensures
        forall|level: PriceLevel| (#[trigger] spec_color_of(level)).len() == 7,
{
    reveal_strlit("#66FF00");
    reveal_strlit("#FF0800");
    reveal_strlit("#ED872D");
    reveal_strlit("#FF00FF");
    assert forall|level: PriceLevel| (#[trigger] spec_color_of(level)).len() == 7 by {
        match level {
            PriceLevel::Cheap => {},
            PriceLevel::Expensive => {},
            PriceLevel::Normal => {},
            PriceLevel::VeryCheap => {},
            PriceLevel::VeryExpensive => {},
            PriceLevel::NoneLevel => {},
        }
    }
}

/// Colour shown for a price directive, keyed by the price level.
pub fn color_from_price_level(level: PriceLevel) -> (r: &'static str)
    ensures
        r@ == spec_color_of(level),
        r@.len() == 7,
{
    proof {
        reveal_strlit("#66FF00");
        reveal_strlit("#FF0800");
        reveal_strlit("#ED872D");
        reveal_strlit("#FF00FF");
    }
    match level {
        PriceLevel::Cheap => "#66FF00",
        PriceLevel::Expensive => "#FF0800",
        PriceLevel::Normal => "#ED872D",
        PriceLevel::VeryCheap => "#66FF00",
        PriceLevel::VeryExpensive => "#FF0800",
        PriceLevel::NoneLevel => "#FF00FF",
    }
}


/// A custom application directive with the given text and nothing else
/// set.
fn bare_directive(text: String) -> (d: CustomApplication)
    ensures
        d.text == text,
        d.text_case is None,
        d.top_text is None,
        d.text_offset is None,
        d.center is None,
        d.color is None,
        d.gradient is None,
        d.blink_text is None,
        d.fade_text is None,
        d.background is None,
        d.rainbow is None,
        d.icon is None,
        d.push_icon is None,
        d.repeat is None,
        d.duration is None,
        d.life_time is None,
{
    CustomApplication {
        text,
        text_case: Option::None,
        top_text: Option::None,
        text_offset: Option::None,
        center: Option::None,
        color: Option::None,
        gradient: Option::None,
        blink_text: Option::None,
        fade_text: Option::None,
        background: Option::None,
        rainbow: Option::None,
        icon: Option::None,
        push_icon: Option::None,
        repeat: Option::None,
        duration: Option::None,
        life_time: Option::None,
    }
}

/// The directive built for a daily yield value: integer text, the yield
/// icon, five seconds on screen.
pub open spec fn spec_yield_day_payload(v: Decimal) -> Seq<u8> {
    ca_open() + enc_str(encode_utf8(int_chars(round_div100(v.hundredths as int)))) + field_str(
        key_icon(),
        Some("52455"@),
    ) + field_i32(key_duration(), Some(5)) + seq![125u8]
}

/// Builds the daily-yield directive: integer text, fixed icon, fixed
/// duration, nothing else set.
pub fn format_yield_day(v: &Decimal) -> (d: CustomApplication)
    requires
        v.wf(),
    ensures
        d.text@ == int_chars(round_div100(v.hundredths as int)),
        d.icon.deep_view() == Some("52455"@),
        d.duration == Some(5i32),
        d.life_time is None,
        d.color is None,
        d.spec_encode() == spec_yield_day_payload(*v),
{
    let t = round100(v.hundredths);
    let mut d = bare_directive(fmt_int(t));
    d.icon = Some(String::from_str("52455"));
    d.duration = Some(5);
    proof {
        assert(d.spec_encode() =~= spec_yield_day_payload(*v));
    }
    d
}

/// The directive built for an instantaneous production value:
/// zero-decimal text, the production icon, five seconds on screen.
pub open spec fn spec_production_payload(v: Decimal) -> Seq<u8> {
    ca_open() + enc_str(encode_utf8(int_chars(round_div100(v.hundredths as int)))) + field_str(
        key_icon(),
        Some("37515"@),
    ) + field_i32(key_duration(), Some(5)) + seq![125u8]
}

/// Builds the current-production directive: zero-decimal text, fixed
/// icon, fixed duration, nothing else set.
pub fn format_current_production(v: &Decimal) -> (d: CustomApplication)
    requires
        v.wf(),
    ensures
        d.text@ == int_chars(round_div100(v.hundredths as int)),
        d.icon.deep_view() == Some("37515"@),
        d.duration == Some(5i32),
        d.life_time is None,
        d.color is None,
        d.spec_encode() == spec_production_payload(*v),
{
    let t = round100(v.hundredths);
    let mut d = bare_directive(fmt_int(t));
    d.icon = Some(String::from_str("37515"));
    d.duration = Some(5);
    proof {
        assert(d.spec_encode() =~= spec_production_payload(*v));
    }
    d
}

/// The directive built for a consumption value: one-decimal kilowatt
/// text, the consumption icon, five seconds on screen, and a short expiry
/// so a stale reading clears if not refreshed.
pub open spec fn spec_consumption_payload(c: Consumption) -> Seq<u8> {
    ca_open() + enc_str(encode_utf8(kw_chars(c.consumption as int))) + field_str(
        key_icon(),
        Some("55888"@),
    ) + field_i32(key_duration(), Some(5)) + field_i32(key_life_time(), Some(10)) + seq![125u8]
}

/// Builds the consumption directive: one-decimal kilowatt text, fixed
/// icon, fixed duration, ten-second expiry, nothing else set.
pub fn format_current_consumption(c: &Consumption) -> (d: CustomApplication)
    ensures
        d.text@ == kw_chars(c.consumption as int),
        d.icon.deep_view() == Some("55888"@),
        d.duration == Some(5i32),
        d.life_time == Some(10i32),
        d.color is None,
        d.spec_encode() == spec_consumption_payload(*c),
{
    let mut d = bare_directive(fmt_kw(c.consumption));
    d.icon = Some(String::from_str("55888"));
    d.duration = Some(5);
    d.life_time = Some(10);
    proof {
        assert(d.spec_encode() =~= spec_consumption_payload(*c));
    }
    d
}

/// The directive built for a price value: two-decimal currency text, the
/// price icon, two seconds on screen, the level's colour, and an expiry a
/// little over an hour to bound staleness across the hourly cadence.
pub open spec fn spec_price_payload(p: PriceInformation) -> Seq<u8> {
    ca_open() + enc_str(encode_utf8(money_chars(p.total.hundredths as int))) + field_str(
        key_color(),
        Some(spec_color_of(p.level)),
    ) + field_str(key_icon(), Some("54231"@)) + field_i32(key_duration(), Some(2)) + field_i32(
        key_life_time(),
        Some(3720),
    ) + seq![125u8]
}

/// Builds the price directive: two-decimal currency text, fixed icon,
/// fixed duration, the level's colour, and an expiry of an hour and two
/// minutes, nothing else set.
pub fn format_current_price(p: &PriceInformation) -> (d: CustomApplication)
    requires
        p.total.wf(),
    ensures
        d.text@ == money_chars(p.total.hundredths as int),
        d.icon.deep_view() == Some("54231"@),
        d.color.deep_view() == Some(spec_color_of(p.level)),
        d.duration == Some(2i32),
        d.life_time == Some(3720i32),
        d.spec_encode() == spec_price_payload(*p),
{
    let mut d = bare_directive(fmt_money(p.total.hundredths));
    d.color = Some(String::from_str(color_from_price_level(p.level)));
    d.icon = Some(String::from_str("54231"));
    d.duration = Some(2);
    d.life_time = Some(3720);
    proof {
        assert(d.spec_encode() =~= spec_price_payload(*p));
    }
    d
}


/// One message to send back onto the bus: a topic and its payload bytes.
pub struct Publication {
    pub topic: &'static str,
    pub payload: Vec<u8>,
}

/// The consumer's dispatch: matches an inbound message's topic against
/// the known set, decodes its payload by the bound type, and builds the
/// corresponding display directive. An unknown topic is ignored; a
/// payload that does not decode fails with the typed decode error and is
/// skipped by the caller.
pub fn handle_event(topic: &str, payload: &[u8]) -> (r: Result<Option<Publication>, DecodeError>)
    ensures
        topic@ == "OpenDTU/ac/yieldday"@ ==> (match Decimal::spec_read(payload@) {
            Some(v) => r matches Ok(Some(p)) && p.topic@ == "matrixdisplay/custom/yieldday"@
                && p.payload@ == spec_yield_day_payload(v),
            Option::None => r == Err::<Option<Publication>, DecodeError>(DecodeError::Malformed),
        }),
        topic@ == "OpenDTU/ac/power"@ ==> (match Decimal::spec_read(payload@) {
            Some(v) => r matches Ok(Some(p)) && p.topic@ == "matrixdisplay/custom/power"@
                && p.payload@ == spec_production_payload(v),
            Option::None => r == Err::<Option<Publication>, DecodeError>(DecodeError::Malformed),
        }),
        topic@ == "Pulse/consumption"@ ==> (match Consumption::spec_read(payload@) {
            Some(c) => r matches Ok(Some(p)) && p.topic@ == "matrixdisplay/custom/consumption"@
                && p.payload@ == spec_consumption_payload(c),
            Option::None => r == Err::<Option<Publication>, DecodeError>(DecodeError::Malformed),
        }),
        topic@ == "Tibber/price_information"@ ==> (match PriceInformation::spec_read(payload@) {
            Some(pi) => r matches Ok(Some(p)) && p.topic@ == "matrixdisplay/custom/tibberprice"@
                && p.payload@ == spec_price_payload(pi),
            Option::None => r == Err::<Option<Publication>, DecodeError>(DecodeError::Malformed),
        }),
        (topic@ != "OpenDTU/ac/yieldday"@ && topic@ != "OpenDTU/ac/power"@ && topic@
            != "Pulse/consumption"@ && topic@ != "Tibber/price_information"@) ==> r == Ok::<
            Option<Publication>,
            DecodeError,
        >(Option::None),
{
    proof {
        reveal_strlit("OpenDTU/ac/yieldday");
        reveal_strlit("OpenDTU/ac/power");
        reveal_strlit("Pulse/consumption");
        reveal_strlit("Tibber/price_information");
        assert("OpenDTU/ac/yieldday"@.len() == 19);
        assert("OpenDTU/ac/power"@.len() == 16);
        assert("Pulse/consumption"@.len() == 17);
        assert("Tibber/price_information"@.len() == 24);
    }
    let yd = open_dtu_ac_yield_day_topic();
    if str_eq(topic, yd.name()) {
        return match yd.decode(payload) {
            Ok(v) => {
                let d = format_yield_day(&v);
                let out = matrix_display_app_yield_day_topic();
                let name = out.name();
                Ok(Some(Publication { topic: name, payload: out.encode(&d) }))
            },
            Err(e) => Err(e),
        };
    }
    let pw = open_dtu_ac_power_topic();
    if str_eq(topic, pw.name()) {
        return match pw.decode(payload) {
            Ok(v) => {
                let d = format_current_production(&v);
                let out = matrix_display_app_current_production_topic();
                let name = out.name();
                Ok(Some(Publication { topic: name, payload: out.encode(&d) }))
            },
            Err(e) => Err(e),
        };
    }
    let pc = pulse_consumption_topic();
    if str_eq(topic, pc.name()) {
        return match pc.decode(payload) {
            Ok(c) => {
                let d = format_current_consumption(&c);
                let out = matrix_display_app_current_consumption_topic();
                let name = out.name();
                Ok(Some(Publication { topic: name, payload: out.encode(&d) }))
            },
            Err(e) => Err(e),
        };
    }
    let tp = tibber_price_information_topic();
    if str_eq(topic, tp.name()) {
        return match tp.decode(payload) {
            Ok(pi) => {
                let d = format_current_price(&pi);
                let out = matrix_display_app_current_price_topic();
                let name = out.name();
                Ok(Some(Publication { topic: name, payload: out.encode(&d) }))
            },
            Err(e) => Err(e),
        };
    }
    Ok(Option::None)
}

} // verus!
