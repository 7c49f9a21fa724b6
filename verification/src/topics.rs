//! The fixed set of topics this system speaks on: each one bound to its
//! payload type.
use vstd::prelude::*;

use crate::awtrix3::CustomApplication;
use crate::dto::{Consumption, Decimal, PriceInformation};
use crate::topic::Topic;

verus! {

/// Daily yield reported by the inverter, as a bare JSON number.
pub fn open_dtu_ac_yield_day_topic() -> (t: Topic<Decimal>)
    ensures
        t.spec_name() == "OpenDTU/ac/yieldday"@,
{
    Topic::new("OpenDTU/ac/yieldday")
}

/// Instantaneous production reported by the inverter.
pub fn open_dtu_ac_power_topic() -> (t: Topic<Decimal>)
    ensures
        t.spec_name() == "OpenDTU/ac/power"@,
{
    Topic::new("OpenDTU/ac/power")
}

/// Power draw reported by the meter bridge.
pub fn pulse_consumption_topic() -> (t: Topic<Consumption>)
    ensures
        t.spec_name() == "Pulse/consumption"@,
{
    Topic::new("Pulse/consumption")
}

/// Current spot price with its level classification.
pub fn tibber_price_information_topic() -> (t: Topic<PriceInformation>)
    ensures
        t.spec_name() == "Tibber/price_information"@,
{
    Topic::new("Tibber/price_information")
}

/// Consumption as reported through the price source's account.
pub fn tibber_consumption_topic() -> (t: Topic<Consumption>)
    ensures
        t.spec_name() == "Tibber/consumption"@,
{
    Topic::new("Tibber/consumption")
}

/// Display directive for the daily yield panel.
pub fn matrix_display_app_yield_day_topic() -> (t: Topic<CustomApplication>)
    ensures
        t.spec_name() == "matrixdisplay/custom/yieldday"@,
{
    Topic::new("matrixdisplay/custom/yieldday")
}

/// Display directive for the production panel.
pub fn matrix_display_app_current_production_topic() -> (t: Topic<CustomApplication>)
    ensures
        t.spec_name() == "matrixdisplay/custom/power"@,
{
    Topic::new("matrixdisplay/custom/power")
}

/// Display directive for the consumption panel.
pub fn matrix_display_app_current_consumption_topic() -> (t: Topic<CustomApplication>)
    ensures
        t.spec_name() == "matrixdisplay/custom/consumption"@,
{
    Topic::new("matrixdisplay/custom/consumption")
}

/// Display directive for the price panel.
pub fn matrix_display_app_current_price_topic() -> (t: Topic<CustomApplication>)
    ensures
        t.spec_name() == "matrixdisplay/custom/tibberprice"@,
{
    Topic::new("matrixdisplay/custom/tibberprice")
}

} // verus!
