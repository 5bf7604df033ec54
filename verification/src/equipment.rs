//! Equipment lists of the air loops, and the names the simulation routes by:
//! each loop's component names in simulation order, its fans, its heat
//! recovery device and the plant loop feeding its hot-water coils, the
//! terminal box of each zone, and the end use each electric output is booked
//! under.

use vstd::prelude::*;

verus! {

/// One entry of an air loop's equipment list, as far as the loop
/// descriptor reads it.
pub enum AirEquipment {
    Fan(String),
    /// A heating coil; `source` names its energy source (`"hot_water"`,
    /// `"electric"`, ...) and `plant_loop` the plant loop feeding it, if any.
    HeatingCoil { name: String, source: String, plant_loop: Option<String> },
    CoolingCoil(String),
    HeatRecovery(String),
    Humidifier(String),
    Duct(String),
}

/// Kind of an air-loop equipment entry.
#[derive(Debug, Clone, Copy, PartialEq, Eq, Structural)]
pub enum EquipmentKind {
    Fan,
    HeatingCoil,
    CoolingCoil,
    HeatRecovery,
    Humidifier,
    Duct,
}

/// Name of an equipment entry.
pub open spec fn equipment_name(e: AirEquipment) -> Seq<char> {
    match e {
        AirEquipment::Fan(n) => n@,
        AirEquipment::HeatingCoil { name, .. } => name@,
        AirEquipment::CoolingCoil(n) => n@,
        AirEquipment::HeatRecovery(n) => n@,
        AirEquipment::Humidifier(n) => n@,
        AirEquipment::Duct(n) => n@,
    }
}

/// Kind of an equipment entry.
pub open spec fn kind_of(e: AirEquipment) -> EquipmentKind {
    match e {
        AirEquipment::Fan(_) => EquipmentKind::Fan,
        AirEquipment::HeatingCoil { .. } => EquipmentKind::HeatingCoil,
        AirEquipment::CoolingCoil(_) => EquipmentKind::CoolingCoil,
        AirEquipment::HeatRecovery(_) => EquipmentKind::HeatRecovery,
        AirEquipment::Humidifier(_) => EquipmentKind::Humidifier,
        AirEquipment::Duct(_) => EquipmentKind::Duct,
    }
}

/// Each equipment variant has the kind of the same name, and no other.
pub proof fn law_kind_matches_variant(e: AirEquipment)
    ensures
        (kind_of(e) == EquipmentKind::Fan) <==> (e is Fan),
        (kind_of(e) == EquipmentKind::HeatingCoil) <==> (e is HeatingCoil),
        (kind_of(e) == EquipmentKind::CoolingCoil) <==> (e is CoolingCoil),
        (kind_of(e) == EquipmentKind::HeatRecovery) <==> (e is HeatRecovery),
        (kind_of(e) == EquipmentKind::Humidifier) <==> (e is Humidifier),
        (kind_of(e) == EquipmentKind::Duct) <==> (e is Duct),
{
}

/// `names` holds each text value at most once.
pub open spec fn distinct_names(names: Seq<String>) -> bool {
    forall|i: int, j: int| 0 <= i < j < names.len() ==> names[i]@ != names[j]@
}

/// Some entry of `names` reads `s`.
pub open spec fn has_name(names: Seq<String>, s: Seq<char>) -> bool {
    exists|i: int| 0 <= i < names.len() && #[trigger] names[i]@ == s
}

/// Some entry of `equipment` is of kind `kind` and named `s`.
pub open spec fn kind_named(equipment: Seq<AirEquipment>, kind: EquipmentKind, s: Seq<char>) -> bool {
    exists|j: int|
        0 <= j < equipment.len() && kind_of(#[trigger] equipment[j]) == kind && equipment_name(
            equipment[j],
        ) == s
}

/// Some loop of `loops` holds an entry of kind `kind` named `s`.
pub open spec fn kind_named_in_loops(loops: Seq<Vec<AirEquipment>>, kind: EquipmentKind, s: Seq<char>) -> bool {
    exists|l: int| 0 <= l < loops.len() && #[trigger] kind_named(loops[l]@, kind, s)
}

/// The names collected for a kind are those of the entries of the variant
/// of that name: a cooling coil's name is collected for
/// `EquipmentKind::CoolingCoil` and for no other kind, and likewise for
/// fans, heating coils, heat recovery devices, humidifiers and ducts.
pub proof fn law_kind_named_by_variant(equipment: Seq<AirEquipment>, s: Seq<char>)
    ensures
        kind_named(equipment, EquipmentKind::CoolingCoil, s) <==> exists|j: int|
            {
                &&& 0 <= j < equipment.len()
                &&& #[trigger] equipment[j] matches AirEquipment::CoolingCoil(n)
                &&& n@ == s
            },
        kind_named(equipment, EquipmentKind::Fan, s) <==> exists|j: int|
            {
                &&& 0 <= j < equipment.len()
                &&& #[trigger] equipment[j] matches AirEquipment::Fan(n)
                &&& n@ == s
            },
        kind_named(equipment, EquipmentKind::HeatingCoil, s) <==> exists|j: int|
            {
                &&& 0 <= j < equipment.len()
                &&& #[trigger] equipment[j] matches AirEquipment::HeatingCoil { name, .. }
                &&& name@ == s
            },
        kind_named(equipment, EquipmentKind::HeatRecovery, s) <==> exists|j: int|
            {
                &&& 0 <= j < equipment.len()
                &&& #[trigger] equipment[j] matches AirEquipment::HeatRecovery(n)
                &&& n@ == s
            },
        kind_named(equipment, EquipmentKind::Humidifier, s) <==> exists|j: int|
            {
                &&& 0 <= j < equipment.len()
                &&& #[trigger] equipment[j] matches AirEquipment::Humidifier(n)
                &&& n@ == s
            },
        kind_named(equipment, EquipmentKind::Duct, s) <==> exists|j: int|
            {
                &&& 0 <= j < equipment.len()
                &&& #[trigger] equipment[j] matches AirEquipment::Duct(n)
                &&& n@ == s
            },
{
}

/// Name of an equipment entry.
fn name_of(e: &AirEquipment) -> (r: String)
    ensures
        r@ == equipment_name(*e),
{
    match e {
        AirEquipment::Fan(n) => n.clone(),
        AirEquipment::HeatingCoil { name, .. } => name.clone(),
        AirEquipment::CoolingCoil(n) => n.clone(),
        AirEquipment::HeatRecovery(n) => n.clone(),
        AirEquipment::Humidifier(n) => n.clone(),
        AirEquipment::Duct(n) => n.clone(),
    }
}

/// Kind of an equipment entry.
fn kind(e: &AirEquipment) -> (r: EquipmentKind)
    ensures
        r == kind_of(*e),
{
    match e {
        AirEquipment::Fan(_) => EquipmentKind::Fan,
        AirEquipment::HeatingCoil { .. } => EquipmentKind::HeatingCoil,
        AirEquipment::CoolingCoil(_) => EquipmentKind::CoolingCoil,
        AirEquipment::HeatRecovery(_) => EquipmentKind::HeatRecovery,
        AirEquipment::Humidifier(_) => EquipmentKind::Humidifier,
        AirEquipment::Duct(_) => EquipmentKind::Duct,
    }
}

/// Whether some entry of `names` reads `name`.
fn contains_name(names: &Vec<String>, name: &String) -> (r: bool)
    ensures
        r == has_name(names@, name@),
{
    let mut i: usize = 0;
    while i < names.len()
        invariant
            i <= names@.len(),
            forall|k: int| 0 <= k < i ==> names@[k]@ != name@,
        decreases names@.len() - i,
    {
        if names[i] == *name {
            return true;
        }
        i = i + 1;
    }
    false
}

/// Adds `name` to the set of names `names`, unless it is there already.
pub(crate) fn insert_name(names: &mut Vec<String>, name: String)
    requires
        distinct_names(old(names)@),
    ensures
        distinct_names(final(names)@),
        forall|s: Seq<char>| #[trigger]
            has_name(final(names)@, s) <==> (has_name(old(names)@, s) || s == name@),
{
    if !contains_name(names, &name) {
        let ghost before = names@;
        let ghost added = name@;
        names.push(name);
        proof {
            assert forall|s: Seq<char>| #[trigger]
                has_name(names@, s) <==> (has_name(before, s) || s == added) by {
                if has_name(names@, s) {
                    let i = choose|i: int| 0 <= i < names@.len() && #[trigger] names@[i]@ == s;
                    if i < before.len() {
                        assert(before[i]@ == s);
                    }
                }
                if has_name(before, s) {
                    let i = choose|i: int| 0 <= i < before.len() && #[trigger] before[i]@ == s;
                    assert(names@[i]@ == s);
                }
                if s == added {
                    assert(names@[before.len() as int]@ == s);
                }
            }
        }
    }
}

/// Component names of a loop, in simulation order.
pub fn component_names(equipment: &Vec<AirEquipment>) -> (r: Vec<String>)
    ensures
        r@.len() == equipment@.len(),
        forall|i: int| 0 <= i < r@.len() ==> #[trigger] r@[i]@ == equipment_name(equipment@[i]),
{
    let mut r: Vec<String> = Vec::new();
    let mut i: usize = 0;
    while i < equipment.len()
        invariant
            i <= equipment@.len(),
            r@.len() == i,
            forall|k: int| 0 <= k < i ==> #[trigger] r@[k]@ == equipment_name(equipment@[k]),
        decreases equipment@.len() - i,
    {
        r.push(name_of(&equipment[i]));
        i = i + 1;
    }
    r
}

/// Adds to `names` the names of the entries of `equipment` of kind `k`.
fn add_kind_names(names: &mut Vec<String>, equipment: &Vec<AirEquipment>, k: EquipmentKind)
    requires
        distinct_names(old(names)@),
    ensures
        distinct_names(final(names)@),
        forall|s: Seq<char>| #[trigger]
            has_name(final(names)@, s) <==> (has_name(old(names)@, s) || kind_named(
                equipment@,
                k,
                s,
            )),
{
    let ghost start = names@;
    let mut i: usize = 0;
    while i < equipment.len()
        invariant
            i <= equipment@.len(),
            distinct_names(names@),
            forall|s: Seq<char>| #[trigger]
                has_name(names@, s) <==> (has_name(start, s) || kind_named(
                    equipment@.subrange(0, i as int),
                    k,
                    s,
                )),
        decreases equipment@.len() - i,
    {
        let e = &equipment[i];
        let ghost prefix = equipment@.subrange(0, i as int);
        let ghost next = equipment@.subrange(0, i + 1);
        proof {
            assert forall|s: Seq<char>| #[trigger] kind_named(next, k, s) <==> (kind_named(prefix, k, s) || (
            kind_of(*e) == k && equipment_name(*e) == s)) by {
                if kind_named(next, k, s) {
                    let j = choose|j: int|
                        0 <= j < next.len() && kind_of(#[trigger] next[j]) == k && equipment_name(
                            next[j],
                        ) == s;
                    if j < i {
                        assert(prefix[j] == next[j]);
                    }
                }
                if kind_named(prefix, k, s) {
                    let j = choose|j: int|
                        0 <= j < prefix.len() && kind_of(#[trigger] prefix[j]) == k && equipment_name(
                            prefix[j],
                        ) == s;
                    assert(next[j] == prefix[j]);
                }
                if kind_of(*e) == k && equipment_name(*e) == s {
                    assert(next[i as int] == *e);
                }
            }
        }
        if kind(e) == k {
            insert_name(names, name_of(e));
        }
        i = i + 1;
    }
    proof {
        assert(equipment@.subrange(0, equipment@.len() as int) =~= equipment@);
    }
}

/// Names of the fans of a loop, each once.
pub fn fan_names(equipment: &Vec<AirEquipment>) -> (r: Vec<String>)
    ensures
        distinct_names(r@),
        forall|s: Seq<char>| #[trigger] has_name(r@, s) <==> kind_named(equipment@, EquipmentKind::Fan, s),
{
    let mut r: Vec<String> = Vec::new();
    add_kind_names(&mut r, equipment, EquipmentKind::Fan);
    r
}

/// Names of the entries of kind `k` across all the loops, each once (the
/// model's humidifiers and heat recovery devices, for end-use routing).
pub fn names_of_kind(loops: &Vec<Vec<AirEquipment>>, k: EquipmentKind) -> (r: Vec<String>)
    ensures
        distinct_names(r@),
        forall|s: Seq<char>| #[trigger] has_name(r@, s) <==> kind_named_in_loops(loops@, k, s),
{
    let mut r: Vec<String> = Vec::new();
    let mut l: usize = 0;
    while l < loops.len()
        invariant
            l <= loops@.len(),
            distinct_names(r@),
            forall|s: Seq<char>| #[trigger]
                has_name(r@, s) <==> kind_named_in_loops(loops@.subrange(0, l as int), k, s),
        decreases loops@.len() - l,
    {
        let ghost before = r@;
        add_kind_names(&mut r, &loops[l], k);
        proof {
            let prefix = loops@.subrange(0, l as int);
            let next = loops@.subrange(0, l + 1);
            assert forall|s: Seq<char>| #[trigger] has_name(r@, s) <==> kind_named_in_loops(next, k, s) by {
                if kind_named_in_loops(next, k, s) {
                    let m = choose|m: int| 0 <= m < next.len() && #[trigger] kind_named(next[m]@, k, s);
                    if m < l {
                        assert(prefix[m] == next[m]);
                        assert(kind_named_in_loops(prefix, k, s));
                    } else {
                        assert(next[m] == loops@[l as int]);
                    }
                }
                if kind_named_in_loops(prefix, k, s) {
                    let m = choose|m: int| 0 <= m < prefix.len() && #[trigger] kind_named(prefix[m]@, k, s);
                    assert(next[m] == prefix[m]);
                }
                if kind_named(loops@[l as int]@, k, s) {
                    assert(next[l as int] == loops@[l as int]);
                }
            }
        }
        l = l + 1;
    }
    proof {
        assert(loops@.subrange(0, loops@.len() as int) =~= loops@);
    }
    r
}

/// Position of the first entry of kind `k`, if any.
pub open spec fn first_of_kind(equipment: Seq<AirEquipment>, k: EquipmentKind, j: int) -> bool {
    &&& 0 <= j < equipment.len()
    &&& kind_of(equipment[j]) == k
    &&& forall|i: int| 0 <= i < j ==> kind_of(#[trigger] equipment[i]) != k
}

/// Name of the loop's first heat recovery device, if it has one.
pub fn heat_recovery_name(equipment: &Vec<AirEquipment>) -> (r: Option<String>)
    ensures
        r is None <==> forall|i: int|
            0 <= i < equipment@.len() ==> kind_of(#[trigger] equipment@[i]) != EquipmentKind::HeatRecovery,
        r matches Some(n) ==> exists|j: int|
            first_of_kind(equipment@, EquipmentKind::HeatRecovery, j) && #[trigger] equipment_name(
                equipment@[j],
            ) == n@,
{
    let mut i: usize = 0;
    while i < equipment.len()
        invariant
            i <= equipment@.len(),
            forall|k: int| 0 <= k < i ==> kind_of(#[trigger] equipment@[k]) != EquipmentKind::HeatRecovery,
        decreases equipment@.len() - i,
    {
        if let AirEquipment::HeatRecovery(n) = &equipment[i] {
            let r = n.clone();
            assert(first_of_kind(equipment@, EquipmentKind::HeatRecovery, i as int));
            assert(equipment_name(equipment@[i as int]) == r@);
            return Some(r);
        }
        i = i + 1;
    }
    None
}

/// Entry `e` is a hot-water heating coil with a plant loop named.
pub open spec fn fed_by_plant_loop(e: AirEquipment) -> bool {
    e matches AirEquipment::HeatingCoil { source, plant_loop: Some(_), .. } && source@ == "hot_water"@
}

/// Plant loop of the loop's hot-water heating coils: that of the first
/// heating coil whose source is `"hot_water"` and which names a plant loop.
pub fn hot_water_plant_loop(equipment: &Vec<AirEquipment>) -> (r: Option<String>)
    ensures
        r is None <==> forall|i: int|
            0 <= i < equipment@.len() ==> !fed_by_plant_loop(#[trigger] equipment@[i]),
        r matches Some(n) ==> exists|j: int|
            0 <= j < equipment@.len() && fed_by_plant_loop(#[trigger] equipment@[j]) && (forall|i: int|
                0 <= i < j ==> !fed_by_plant_loop(#[trigger] equipment@[i])) && (
            equipment@[j] matches AirEquipment::HeatingCoil { plant_loop: Some(p), .. } && p@ == n@),
{
    let hot_water = String::from_str("hot_water");
    proof {
        reveal_strlit("hot_water");
    }
    let mut i: usize = 0;
    while i < equipment.len()
        invariant
            i <= equipment@.len(),
            hot_water@ == "hot_water"@,
            forall|k: int| 0 <= k < i ==> !fed_by_plant_loop(#[trigger] equipment@[k]),
        decreases equipment@.len() - i,
    {
        if let AirEquipment::HeatingCoil { source, plant_loop: Some(p), .. } = &equipment[i] {
            if *source == hot_water {
                let r = p.clone();
                assert(fed_by_plant_loop(equipment@[i as int]));
                return Some(r);
            }
        }
        i = i + 1;
    }
    None
}

/// Terminal box listed last for zone `z` among the first `k` zone
/// connections, each a zone name and the name of its terminal box, if any.
pub open spec fn last_terminal(zones: Seq<(String, Option<String>)>, z: Seq<char>, k: int) -> Option<
    Seq<char>,
>
    decreases k,
{
    if k <= 0 {
        None
    } else if zones[k - 1].0@ == z && zones[k - 1].1 is Some {
        Some(zones[k - 1].1->0@)
    } else {
        last_terminal(zones, z, k - 1)
    }
}

/// The pair of `map` whose zone reads `z` holds terminal `t`.
pub open spec fn maps_to(map: Seq<(String, String)>, z: Seq<char>, t: Seq<char>) -> bool {
    exists|i: int| 0 <= i < map.len() && #[trigger] map[i].0@ == z && map[i].1@ == t
}

/// `map` lists each zone once, with the terminal box listed last for it.
pub open spec fn is_terminal_map(map: Seq<(String, String)>, zones: Seq<(String, Option<String>)>) -> bool {
    &&& forall|i: int, j: int| 0 <= i < j < map.len() ==> map[i].0@ != map[j].0@
    &&& forall|z: Seq<char>, t: Seq<char>|
        #[trigger] maps_to(map, z, t) <==> last_terminal(zones, z, zones.len() as int) == Some(t)
}

/// Position of the pair of `map` for zone `zone`, if any.
fn find_zone(map: &Vec<(String, String)>, zone: &String) -> (r: Option<usize>)
    ensures
        r matches Some(i) ==> i < map@.len() && map@[i as int].0@ == zone@,
        r is None ==> forall|m: int| 0 <= m < map@.len() ==> map@[m].0@ != zone@,
{
    let mut i: usize = 0;
    while i < map.len()
        invariant
            i <= map@.len(),
            forall|m: int| 0 <= m < i ==> map@[m].0@ != zone@,
        decreases map@.len() - i,
    {
        if map[i].0 == *zone {
            return Some(i);
        }
        i = i + 1;
    }
    None
}

/// Terminal box of each zone of a loop, from its zone connections (zone
/// name, terminal box name if any).  A zone listed twice keeps the terminal
/// listed last.
pub fn terminal_boxes(zones: &Vec<(String, Option<String>)>) -> (r: Vec<(String, String)>)
    ensures
        is_terminal_map(r@, zones@),
{
    let mut r: Vec<(String, String)> = Vec::new();
    let mut k: usize = 0;
    while k < zones.len()
        invariant
            k <= zones@.len(),
            forall|i: int, j: int| 0 <= i < j < r@.len() ==> r@[i].0@ != r@[j].0@,
            forall|z: Seq<char>, t: Seq<char>|
                #[trigger] maps_to(r@, z, t) <==> last_terminal(zones@, z, k as int) == Some(t),
        decreases zones@.len() - k,
    {
        let (zone, terminal) = &zones[k];
        if let Some(t) = terminal {
            let ghost before = r@;
            let pair = (zone.clone(), t.clone());
            let at = find_zone(&r, zone);
            let ghost i: int = match at {
                Some(i) => i as int,
                None => before.len() as int,
            };
            match at {
                Some(i) => r.set(i, pair),
                None => r.push(pair),
            }
            proof {
                assert(r@[i].0@ == zone@ && r@[i].1@ == t@);
                assert forall|m: int| 0 <= m < r@.len() && m != i implies r@[m] == before[m]
                    && before[m].0@ != zone@ by {
                    if at is None {
                    } else {
                        assert(before[i].0@ == zone@);
                    }
                }
                assert forall|a: int, b: int| 0 <= a < b < r@.len() implies r@[a].0@ != r@[b].0@ by {
                    if a != i && b != i {
                        assert(before[a].0@ != before[b].0@);
                    }
                }
                assert forall|z: Seq<char>, tt: Seq<char>|
                    #[trigger] maps_to(r@, z, tt) <==> last_terminal(zones@, z, k + 1) == Some(tt) by {
                    if maps_to(r@, z, tt) {
                        let m = choose|m: int| 0 <= m < r@.len() && #[trigger] r@[m].0@ == z && r@[m].1@ == tt;
                        if m != i {
                            assert(maps_to(before, z, tt));
                        }
                    }
                    if z != zone@ && maps_to(before, z, tt) {
                        let m = choose|m: int| 0 <= m < before.len() && #[trigger] before[m].0@ == z && before[m].1@ == tt;
                        if at is Some {
                            assert(m != i);
                        }
                        assert(r@[m] == before[m]);
                        assert(maps_to(r@, z, tt));
                    }
                }
            }
        }
        k = k + 1;
    }
    r
}

/// End use an electric power output is booked under.
#[derive(Debug, Clone, Copy, PartialEq, Eq, Structural)]
pub enum EndUse {
    Pumps,
    Humidification,
    HeatRecovery,
    /// Any other component: its own electric power.
    Component,
}

/// End use of component `name`'s electric power: pumps first, then
/// humidifiers, then heat recovery devices; anything else is booked as the
/// component's own power.
pub fn electric_end_use(
    name: &String,
    pumps: &Vec<String>,
    humidifiers: &Vec<String>,
    heat_recoveries: &Vec<String>,
) -> (r: EndUse)
    ensures
        r == (if has_name(pumps@, name@) {
            EndUse::Pumps
        } else if has_name(humidifiers@, name@) {
            EndUse::Humidification
        } else if has_name(heat_recoveries@, name@) {
            EndUse::HeatRecovery
        } else {
            EndUse::Component
        }),
{
    if contains_name(pumps, name) {
        EndUse::Pumps
    } else if contains_name(humidifiers, name) {
        EndUse::Humidification
    } else if contains_name(heat_recoveries, name) {
        EndUse::HeatRecovery
    } else {
        EndUse::Component
    }
}

} // verus!
