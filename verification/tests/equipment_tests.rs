use openbse::equipment::{
    component_names, electric_end_use, fan_names, heat_recovery_name, hot_water_plant_loop,
    names_of_kind, terminal_boxes, AirEquipment, EndUse, EquipmentKind,
};

fn s(x: &str) -> String {
    x.to_string()
}

fn coil(name: &str, source: &str, plant_loop: Option<&str>) -> AirEquipment {
    AirEquipment::HeatingCoil { name: s(name), source: s(source), plant_loop: plant_loop.map(s) }
}

fn rtu() -> Vec<AirEquipment> {
    vec![
        AirEquipment::HeatRecovery(s("ERV")),
        AirEquipment::Fan(s("Supply Fan")),
        AirEquipment::CoolingCoil(s("DX Coil")),
        coil("Preheat", "electric", None),
        coil("HW Coil", "hot_water", Some("HHW Loop")),
        AirEquipment::Fan(s("Return Fan")),
        AirEquipment::Fan(s("Supply Fan")),
        AirEquipment::HeatRecovery(s("Wheel 2")),
        AirEquipment::Humidifier(s("Steam Humidifier")),
        AirEquipment::Duct(s("Supply Duct")),
    ]
}

#[test]
fn component_names_keep_simulation_order() {
    let names = component_names(&rtu());
    assert_eq!(
        names,
        vec![
            "ERV", "Supply Fan", "DX Coil", "Preheat", "HW Coil", "Return Fan", "Supply Fan",
            "Wheel 2", "Steam Humidifier", "Supply Duct"
        ]
    );
}

#[test]
fn fan_names_hold_each_fan_once() {
    let fans = fan_names(&rtu());
    assert_eq!(fans, vec![s("Supply Fan"), s("Return Fan")]);
    assert!(fan_names(&vec![AirEquipment::Duct(s("d"))]).is_empty());
}

#[test]
fn first_heat_recovery_device_is_named() {
    assert_eq!(heat_recovery_name(&rtu()), Some(s("ERV")));
    assert_eq!(heat_recovery_name(&vec![AirEquipment::Fan(s("f"))]), None);
}

#[test]
fn hot_water_plant_loop_comes_from_the_first_fed_coil() {
    assert_eq!(hot_water_plant_loop(&rtu()), Some(s("HHW Loop")));
    // A hot-water coil without a plant loop is passed over.
    let eq = vec![
        coil("A", "hot_water", None),
        coil("B", "steam", Some("Steam Loop")),
        coil("C", "hot_water", Some("Loop 2")),
        coil("D", "hot_water", Some("Loop 3")),
    ];
    assert_eq!(hot_water_plant_loop(&eq), Some(s("Loop 2")));
    assert_eq!(hot_water_plant_loop(&vec![coil("E", "electric", Some("X"))]), None);
}

#[test]
fn names_of_kind_span_all_loops() {
    let loops = vec![
        rtu(),
        vec![AirEquipment::Humidifier(s("Steam Humidifier")), AirEquipment::Humidifier(s("H2"))],
    ];
    assert_eq!(
        names_of_kind(&loops, EquipmentKind::Humidifier),
        vec![s("Steam Humidifier"), s("H2")]
    );
    assert_eq!(names_of_kind(&loops, EquipmentKind::HeatRecovery), vec![s("ERV"), s("Wheel 2")]);
    assert!(names_of_kind(&vec![], EquipmentKind::Fan).is_empty());
}

#[test]
fn terminal_boxes_keep_the_last_terminal_of_a_zone() {
    let zones = vec![
        (s("Core"), Some(s("VAV Core"))),
        (s("East"), None),
        (s("West"), Some(s("VAV West"))),
        (s("Core"), Some(s("PFP Core"))),
    ];
    let map = terminal_boxes(&zones);
    assert_eq!(map, vec![(s("Core"), s("PFP Core")), (s("West"), s("VAV West"))]);
    assert!(terminal_boxes(&vec![(s("A"), None)]).is_empty());
}

#[test]
fn electric_power_is_routed_by_end_use() {
    let pumps = vec![s("CHW Pump"), s("DHW Pump")];
    let humidifiers = vec![s("Steam Humidifier")];
    let recoveries = vec![s("ERV"), s("DHW Pump")];
    assert_eq!(electric_end_use(&s("CHW Pump"), &pumps, &humidifiers, &recoveries), EndUse::Pumps);
    // Pumps take precedence over heat recovery.
    assert_eq!(electric_end_use(&s("DHW Pump"), &pumps, &humidifiers, &recoveries), EndUse::Pumps);
    assert_eq!(
        electric_end_use(&s("Steam Humidifier"), &pumps, &humidifiers, &recoveries),
        EndUse::Humidification
    );
    assert_eq!(electric_end_use(&s("ERV"), &pumps, &humidifiers, &recoveries), EndUse::HeatRecovery);
    assert_eq!(
        electric_end_use(&s("Supply Fan"), &pumps, &humidifiers, &recoveries),
        EndUse::Component
    );
}
