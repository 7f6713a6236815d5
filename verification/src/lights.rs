//! A traffic light and the name of its color.

use vstd::prelude::*;

verus! {

/// The three states of a traffic light.
pub enum TrafficLight {
    Red,
    Green,
    Yellow,
}

/// The display name of the light's color.
pub fn light_color_name(light: &TrafficLight) -> (r: &'static str)
    ensures
        match light {
            TrafficLight::Red => r@ == "Red"@,
            TrafficLight::Green => r@ == "Green"@,
            TrafficLight::Yellow => r@ == "Yellow"@,
        },
{
    match light {
        TrafficLight::Red => "Red",
        TrafficLight::Green => "Green",
        TrafficLight::Yellow => "Yellow",
    }
}

} // verus!
