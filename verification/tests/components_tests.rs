use openbse::components::{
    default_submeter, BoilerFlowMode, CoolingTowerType, DefrostStrategy, EvapCoolerMode, FanType,
    HXControlMode, HeatRecoveryType, HeatingCoilType,
};
use openbse::paths::{base_directory, resolution, resolve_path, Resolution};

#[test]
fn submeter_defaults_to_general() {
    assert_eq!(default_submeter(), "General");
}

#[test]
fn mode_defaults() {
    assert_eq!(BoilerFlowMode::default(), BoilerFlowMode::NotModulated);
    assert_eq!(EvapCoolerMode::default(), EvapCoolerMode::Direct);
}

#[test]
fn enums_distinguish_variants() {
    assert_ne!(CoolingTowerType::SingleSpeed, CoolingTowerType::VariableSpeed);
    assert_ne!(FanType::VAV, FanType::OnOff);
    assert_ne!(HXControlMode::AlwaysOn, HXControlMode::Economizer);
    assert_ne!(DefrostStrategy::ReverseCycle, DefrostStrategy::Resistive);
    assert_ne!(HeatRecoveryType::EnthalpyWheel, HeatRecoveryType::PlateHX);
    assert_ne!(HeatingCoilType::Gas, HeatingCoilType::HotWater);
}

#[test]
fn resolve_relative_path_against_input_dir() {
    assert_eq!(resolve_path("/models/office/in.yaml", "weather/x.epw"), "/models/office/weather/x.epw");
}

#[test]
fn resolve_keeps_absolute_path() {
    assert_eq!(resolve_path("/models/in.yaml", "/data/x.epw"), "/data/x.epw");
}

#[test]
fn resolve_bare_input_file_name() {
    // parent of a bare file name is the empty path
    assert_eq!(resolve_path("in.yaml", "x.epw"), "x.epw");
    // no parent at all falls back to the current directory
    assert_eq!(resolve_path("/", "x.epw"), "./x.epw");
}

#[test]
fn base_directory_falls_back_to_current_directory() {
    assert_eq!(base_directory(None), ".");
    assert_eq!(base_directory(Some("/models/office".to_string())), "/models/office");
}

#[test]
fn resolution_keeps_absolute_paths_and_joins_relative_ones() {
    match resolution(true, "/data/x.epw", Some("/proj/in".to_string())) {
        Resolution::Keep(t) => assert_eq!(t, "/data/x.epw"),
        Resolution::JoinOnto(_) => panic!("an absolute path is kept"),
    }
    match resolution(false, "weather/x.epw", Some("/proj/in".to_string())) {
        Resolution::JoinOnto(b) => assert_eq!(b, "/proj/in"),
        Resolution::Keep(_) => panic!("a relative path is joined"),
    }
    match resolution(false, "x.epw", None) {
        Resolution::JoinOnto(b) => assert_eq!(b, "."),
        Resolution::Keep(_) => panic!("a relative path is joined"),
    }
}
