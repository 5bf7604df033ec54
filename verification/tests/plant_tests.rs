use openbse::plant::{plant_dependencies, plant_loop_order, pump_names, PlantEquipment};

fn names(list: &[&str]) -> Vec<String> {
    list.iter().map(|s| s.to_string()).collect()
}

fn hx(source: &str) -> PlantEquipment {
    PlantEquipment::HeatExchanger { source_loop: source.to_string() }
}

fn chiller(condenser: &str) -> PlantEquipment {
    PlantEquipment::Chiller { condenser_loop: Some(condenser.to_string()) }
}

fn pump(name: &str) -> PlantEquipment {
    PlantEquipment::Pump { name: name.to_string() }
}

fn order_of(list: &[&str], links: Vec<Vec<PlantEquipment>>) -> (Vec<usize>, usize) {
    let adj = plant_dependencies(&names(list), &links);
    let r = plant_loop_order(&adj);
    (r.order, r.sorted_len)
}

#[test]
fn no_plant_loops_give_an_empty_order() {
    let (order, sorted_len) = order_of(&[], vec![]);
    assert!(order.is_empty());
    assert_eq!(sorted_len, 0);
}

#[test]
fn independent_loops_keep_their_index_order() {
    let (order, sorted_len) = order_of(
        &["chw", "hw", "cond"],
        vec![vec![PlantEquipment::Other], vec![], vec![]],
    );
    assert_eq!(order, vec![0, 1, 2]);
    assert_eq!(sorted_len, 3);
}

#[test]
fn chiller_loop_runs_before_its_condenser_loop() {
    // The condenser loop comes first in the input but must run second.
    let (order, sorted_len) = order_of(&["cond", "chw"], vec![vec![], vec![chiller("cond")]]);
    assert_eq!(order, vec![1, 0]);
    assert_eq!(sorted_len, 2);
}

#[test]
fn heat_exchanger_source_runs_first() {
    // Loop A draws from loop C through a heat exchanger.
    let (order, sorted_len) = order_of(&["A", "B", "C"], vec![vec![hx("C")], vec![], vec![]]);
    assert_eq!(order, vec![1, 2, 0]);
    assert_eq!(sorted_len, 3);
}

#[test]
fn dependency_chain_is_followed() {
    // chw -> cond (chiller), cond -> hw (heat recovery exchanger on hw).
    let (order, sorted_len) = order_of(
        &["hw", "cond", "chw"],
        vec![vec![hx("cond")], vec![], vec![chiller("cond")]],
    );
    assert_eq!(order, vec![2, 1, 0]);
    assert_eq!(sorted_len, 3);
}

#[test]
fn waterside_economizer_cycle_runs_behind() {
    // chw rejects heat to cond, and a heat exchanger on chw draws from cond:
    // a cycle.  The independent hot-water loop is ordered first.
    let (order, sorted_len) = order_of(
        &["chw", "cond", "hw"],
        vec![vec![chiller("cond"), hx("cond")], vec![], vec![]],
    );
    assert_eq!(order, vec![2, 0, 1]);
    assert_eq!(sorted_len, 1);
}

#[test]
fn loop_downstream_of_a_cycle_also_runs_behind() {
    // 0 <-> 1 form a cycle; 2 draws from 1.
    let (order, sorted_len) = order_of(
        &["a", "b", "c"],
        vec![vec![chiller("b")], vec![chiller("a")], vec![hx("b")]],
    );
    assert_eq!(order, vec![0, 1, 2]);
    assert_eq!(sorted_len, 0);
}

#[test]
fn self_dependent_loop_runs_behind() {
    let (order, sorted_len) = order_of(&["x", "y"], vec![vec![hx("x")], vec![]]);
    assert_eq!(order, vec![1, 0]);
    assert_eq!(sorted_len, 1);
}

#[test]
fn unknown_loop_names_add_no_dependency() {
    let adj = plant_dependencies(
        &names(&["a", "b"]),
        &vec![vec![hx("nowhere")], vec![chiller("missing")]],
    );
    assert_eq!(adj, vec![Vec::<usize>::new(), Vec::new()]);
}

#[test]
fn duplicate_names_resolve_to_the_last_loop() {
    let adj = plant_dependencies(
        &names(&["x", "x", "z"]),
        &vec![vec![], vec![], vec![hx("x")]],
    );
    assert_eq!(adj, vec![vec![], vec![2], vec![]]);
}

#[test]
fn dependency_rows_follow_loop_and_link_order() {
    let adj = plant_dependencies(
        &names(&["chw", "cond", "hw"]),
        &vec![vec![chiller("cond"), chiller("hw")], vec![], vec![hx("chw"), hx("cond")]],
    );
    assert_eq!(adj, vec![vec![1, 2, 2], vec![2], vec![]]);
}

#[test]
fn release_order_is_first_in_first_out() {
    // Sources 0 and 1; 0 releases 3 then 2; 1 releases 4.
    let adj = vec![vec![3, 2], vec![4], vec![], vec![], vec![]];
    let r = plant_loop_order(&adj);
    assert_eq!(r.order, vec![0, 1, 3, 2, 4]);
    assert_eq!(r.sorted_len, 5);
}

#[test]
fn acyclic_graph_is_fully_sorted() {
    let adj = vec![vec![1, 2], vec![3], vec![3], vec![]];
    let r = plant_loop_order(&adj);
    assert_eq!(r.sorted_len, 4);
    assert_eq!(r.order, vec![0, 1, 2, 3]);
}

#[test]
fn repeated_edges_release_after_the_last_copy() {
    // Loop 0 lists loop 2 twice; loop 1 is released in between.
    let adj = vec![vec![2, 1, 2], vec![], vec![]];
    let r = plant_loop_order(&adj);
    assert_eq!(r.order, vec![0, 1, 2]);
    assert_eq!(r.sorted_len, 3);
}

#[test]
fn chiller_without_condenser_loop_adds_no_dependency() {
    let adj = plant_dependencies(
        &names(&["chw", "cond"]),
        &vec![vec![PlantEquipment::Chiller { condenser_loop: None }, pump("p")], vec![]],
    );
    assert_eq!(adj, vec![Vec::<usize>::new(), Vec::new()]);
}

#[test]
fn pump_names_cover_plant_loops_and_hot_water_systems() {
    let equipment = vec![
        vec![pump("CHW Pump"), chiller("cond"), pump("CHW Pump")],
        vec![PlantEquipment::Other, pump("CW Pump")],
    ];
    let dhw = vec![Some("DHW Pump".to_string()), None, Some("CW Pump".to_string())];
    assert_eq!(
        pump_names(&equipment, &dhw),
        vec!["CHW Pump".to_string(), "CW Pump".to_string(), "DHW Pump".to_string()]
    );
    assert!(pump_names(&vec![], &vec![None]).is_empty());
}
