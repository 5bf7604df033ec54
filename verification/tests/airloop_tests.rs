use openbse::airloop::{coil_role, role_by_lowercase_name, CoilRole, ComponentKind, HvacMode};

#[test]
fn kind_decides_role() {
    assert_eq!(coil_role(Some(ComponentKind::CoolingCoil), "Main Heater"), CoilRole::Cooling);
    assert_eq!(coil_role(Some(ComponentKind::EvapCooler), "x"), CoilRole::Cooling);
    assert_eq!(coil_role(Some(ComponentKind::HeatingCoil), "cooling thing"), CoilRole::Heating);
    assert_eq!(coil_role(Some(ComponentKind::Humidifier), "dx"), CoilRole::Humidifier);
    assert_eq!(coil_role(Some(ComponentKind::Fan), "Cooling Fan"), CoilRole::Other);
}

#[test]
fn name_decides_role_without_kind() {
    assert_eq!(coil_role(None, "DX Cooling Coil"), CoilRole::Cooling);
    assert_eq!(coil_role(None, "CC_1"), CoilRole::Cooling);
    assert_eq!(coil_role(None, "cc main"), CoilRole::Cooling);
    assert_eq!(coil_role(None, "Gas Furnace"), CoilRole::Heating);
    assert_eq!(coil_role(None, "HW Reheat"), CoilRole::Heating);
    assert_eq!(coil_role(None, "HC 2"), CoilRole::Heating);
    assert_eq!(coil_role(None, "Steam Humidifier"), CoilRole::Humidifier);
    assert_eq!(coil_role(None, "Supply Fan"), CoilRole::Other);
}

#[test]
fn chilled_water_is_not_hot_water() {
    assert_eq!(coil_role(None, "CHW Valve"), CoilRole::Other);
    assert_eq!(role_by_lowercase_name("chw coil"), CoilRole::Other);
    // "hc" prefix needs a separator
    assert_eq!(role_by_lowercase_name("hcx"), CoilRole::Other);
}

#[test]
fn cooling_words_take_precedence() {
    assert_eq!(role_by_lowercase_name("heat pump cooling"), CoilRole::Cooling);
    assert_eq!(role_by_lowercase_name("dehumidifier"), CoilRole::Humidifier);
}

#[test]
fn lowercasing_is_applied() {
    assert_eq!(coil_role(None, "PREHEAT"), CoilRole::Heating);
    assert_eq!(role_by_lowercase_name("PREHEAT"), CoilRole::Other);
}

#[test]
fn hvac_modes_are_distinct() {
    assert_ne!(HvacMode::Heating, HvacMode::Cooling);
    assert_ne!(HvacMode::Cooling, HvacMode::Deadband);
}
