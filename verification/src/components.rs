//! Configuration vocabulary of the HVAC component models: the operating
//! modes and types that component inputs select, and the default energy
//! submeter a component reports to.

use vstd::prelude::*;

verus! {

/// Submeter a component's energy is reported under when the input names none.
pub fn default_submeter() -> (s: String)
    ensures
        s@ == "General"@,
{
    String::from_str("General")
}

/// Boiler water-flow control.
#[derive(Debug, Clone, Copy, PartialEq, Eq, Structural)]
pub enum BoilerFlowMode {
    /// Fixed flow, variable outlet temperature (default).
    NotModulated,
    /// Modulate flow to maintain the leaving water temperature setpoint.
    LeavingSetpointModulated,
}

impl Default for BoilerFlowMode {
    fn default() -> (m: Self)
        ensures
            m == BoilerFlowMode::NotModulated,
    {
        BoilerFlowMode::NotModulated
    }
}

/// Cooling tower fan speed control type.
#[derive(Debug, Clone, Copy, PartialEq, Eq, Structural)]
pub enum CoolingTowerType {
    /// Fan is either fully on or fully off.
    SingleSpeed,
    /// Fan operates at high speed, low speed, or off.
    TwoSpeed,
    /// Fan speed modulates continuously to match load.
    VariableSpeed,
}

/// Evaporative cooler arrangement.
#[derive(Debug, Clone, Copy, PartialEq, Eq, Structural)]
pub enum EvapCoolerMode {
    /// Adiabatic direct stage: adds moisture, lowers dry-bulb temperature.
    Direct,
    /// Indirect heat-exchanger stage: lowers dry-bulb, no moisture added.
    Indirect,
    /// Indirect stage followed by a direct stage.
    TwoStage,
}

impl Default for EvapCoolerMode {
    fn default() -> (m: Self)
        ensures
            m == EvapCoolerMode::Direct,
    {
        EvapCoolerMode::Direct
    }
}

/// Fan type.
#[derive(Debug, Clone, Copy, PartialEq, Eq, Structural)]
pub enum FanType {
    ConstantVolume,
    VAV,
    OnOff,
}

/// Water-to-water heat exchanger control mode.
#[derive(Debug, Clone, Copy, PartialEq, Eq, Structural)]
pub enum HXControlMode {
    /// Active whenever the demand loop has a load.
    AlwaysOn,
    /// Active only when the source side enables free cooling.
    Economizer,
}

/// Defrost strategy of an air-source heat pump coil.
#[derive(Debug, Clone, Copy, PartialEq, Eq, Structural)]
pub enum DefrostStrategy {
    /// Reverse-cycle defrost.
    ReverseCycle,
    /// Resistive heater on the outdoor coil.
    Resistive,
}

/// Air-to-air heat recovery device type.
#[derive(Debug, Clone, Copy, PartialEq, Eq, Structural)]
pub enum HeatRecoveryType {
    /// Rotary enthalpy wheel: recovers sensible and latent heat.
    EnthalpyWheel,
    /// Plate heat exchanger: sensible only.
    PlateHX,
}

/// Heating coil energy source.
#[derive(Debug, Clone, Copy, PartialEq, Eq, Structural)]
pub enum HeatingCoilType {
    /// Electric resistance coil.
    Electric,
    /// Hot water coil on a plant loop.
    HotWater,
    /// Gas furnace.
    Gas,
}

} // verus!
