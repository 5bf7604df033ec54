//! Air-loop control vocabulary: component kinds, the control role each
//! component plays in a loop's coil dispatch, and the zone HVAC mode.

use vstd::prelude::*;

verus! {

/// Classification of simulation components for control and energy accounting.
#[derive(Debug, Clone, Copy, PartialEq, Eq, Structural)]
pub enum ComponentKind {
    Boiler,
    Chiller,
    CoolingCoil,
    DualDuctBox,
    EvapCooler,
    Fan,
    HeatingCoil,
    Humidifier,
}

/// Control role of a component in a signal builder's coil dispatch.
#[derive(Debug, Clone, Copy, PartialEq, Eq, Structural)]
pub enum CoilRole {
    Cooling,
    Heating,
    Humidifier,
    Other,
}

/// Zone conditioning mode.
#[derive(Debug, Clone, Copy, PartialEq, Eq, Structural)]
pub enum HvacMode {
    Heating,
    Cooling,
    Deadband,
}

/// `needle` occurs in `hay` at position `i`.
pub open spec fn occurs_at(hay: Seq<char>, needle: Seq<char>, i: int) -> bool {
    0 <= i && i + needle.len() <= hay.len() && hay.subrange(i, i + needle.len()) == needle
}

/// `needle` occurs somewhere in `hay`, as `str::contains` tests it.
pub open spec fn seq_contains(hay: Seq<char>, needle: Seq<char>) -> bool {
    exists|i: int| occurs_at(hay, needle, i)
}

/// `hay` begins with `needle`, as `str::starts_with` tests it.
pub open spec fn seq_starts_with(hay: Seq<char>, needle: Seq<char>) -> bool {
    occurs_at(hay, needle, 0)
}

/// Lower-case form of a string as `str::to_lowercase` computes it.
pub uninterp spec fn lowercase(s: Seq<char>) -> Seq<char>;

/// Role of a component known only by its lower-cased name `l`: names that
/// mention cooling (`cool`, `dx`, or a `cc ` / `cc_` prefix) are cooling
/// coils, then names that mention heating (`heat`, `furnace`, `hw` but not
/// `chw`, or a `hc ` / `hc_` prefix) are heating coils, then names that
/// mention `humid` are humidifiers; anything else has no coil role.
pub open spec fn role_by_name(l: Seq<char>) -> CoilRole {
    if seq_contains(l, "cool"@) || seq_contains(l, "dx"@) || seq_starts_with(l, "cc "@)
        || seq_starts_with(l, "cc_"@) {
        CoilRole::Cooling
    } else if seq_contains(l, "heat"@) || seq_contains(l, "furnace"@) || (seq_contains(l, "hw"@)
        && !seq_contains(l, "chw"@)) || seq_starts_with(l, "hc "@) || seq_starts_with(
        l,
        "hc_"@,
    ) {
        CoilRole::Heating
    } else if seq_contains(l, "humid"@) {
        CoilRole::Humidifier
    } else {
        CoilRole::Other
    }
}

/// Role of a component: its kind decides when the loop knows it (cooling
/// coils and evaporative coolers cool, heating coils heat, humidifiers
/// humidify, every other kind has no coil role); otherwise its lower-cased
/// name decides.
pub open spec fn coil_role_spec(kind: Option<ComponentKind>, lowered: Seq<char>) -> CoilRole {
    match kind {
        Some(ComponentKind::CoolingCoil) | Some(ComponentKind::EvapCooler) => CoilRole::Cooling,
        Some(ComponentKind::HeatingCoil) => CoilRole::Heating,
        Some(ComponentKind::Humidifier) => CoilRole::Humidifier,
        Some(_) => CoilRole::Other,
        None => role_by_name(lowered),
    }
}

/// A component whose kind the loop knows gets the same role whatever its
/// name: the name is consulted only for components of unknown kind.
pub proof fn law_kind_overrides_name(k: ComponentKind, name1: Seq<char>, name2: Seq<char>)
    ensures
        coil_role_spec(Some(k), lowercase(name1)) == coil_role_spec(Some(k), lowercase(name2)),
{
}

/// Each known kind has one fixed role, whatever the component is named:
/// cooling coils and evaporative coolers cool, heating coils heat,
/// humidifiers humidify, and boilers, chillers, dual-duct boxes and fans
/// have no coil role.
pub proof fn law_role_of_each_kind(lowered: Seq<char>)
    ensures
        coil_role_spec(Some(ComponentKind::CoolingCoil), lowered) == CoilRole::Cooling,
        coil_role_spec(Some(ComponentKind::EvapCooler), lowered) == CoilRole::Cooling,
        coil_role_spec(Some(ComponentKind::HeatingCoil), lowered) == CoilRole::Heating,
        coil_role_spec(Some(ComponentKind::Humidifier), lowered) == CoilRole::Humidifier,
        coil_role_spec(Some(ComponentKind::Boiler), lowered) == CoilRole::Other,
        coil_role_spec(Some(ComponentKind::Chiller), lowered) == CoilRole::Other,
        coil_role_spec(Some(ComponentKind::DualDuctBox), lowered) == CoilRole::Other,
        coil_role_spec(Some(ComponentKind::Fan), lowered) == CoilRole::Other,
{
}

/// A component of unknown kind whose lower-cased name mentions `cool` or
/// `dx`, or begins with `cc ` or `cc_`, is a cooling coil.
pub proof fn law_cooling_keywords_cool(lowered: Seq<char>)
    requires
        seq_contains(lowered, "cool"@) || seq_contains(lowered, "dx"@) || seq_starts_with(
            lowered,
            "cc "@,
        ) || seq_starts_with(lowered, "cc_"@),
    ensures
        coil_role_spec(None, lowered) == CoilRole::Cooling,
{
}

/// A component of unknown kind whose lower-cased name mentions `dx` is a
/// cooling coil, whatever else the name says.
pub proof fn law_dx_name_cools(lowered: Seq<char>)
    requires
        seq_contains(lowered, "dx"@),
    ensures
        coil_role_spec(None, lowered) == CoilRole::Cooling,
{
}

/// No cooling keyword in a lower-cased name: none of `cool`, `dx`, and no
/// `cc ` / `cc_` prefix.
pub open spec fn no_cooling_keyword(l: Seq<char>) -> bool {
    !seq_contains(l, "cool"@) && !seq_contains(l, "dx"@) && !seq_starts_with(l, "cc "@)
        && !seq_starts_with(l, "cc_"@)
}

/// A component of unknown kind whose lower-cased name mentions `hw` but not
/// `chw`, and no cooling keyword, is a heating coil.
pub proof fn law_hot_water_name_heats(lowered: Seq<char>)
    requires
        seq_contains(lowered, "hw"@),
        !seq_contains(lowered, "chw"@),
        no_cooling_keyword(lowered),
    ensures
        coil_role_spec(None, lowered) == CoilRole::Heating,
{
}

/// A component of unknown kind whose lower-cased name mentions `heat` or
/// `furnace`, or begins with `hc ` or `hc_`, and has no cooling keyword, is a
/// heating coil.
pub proof fn law_heating_keywords_heat(lowered: Seq<char>)
    requires
        seq_contains(lowered, "heat"@) || seq_contains(lowered, "furnace"@) || seq_starts_with(
            lowered,
            "hc "@,
        ) || seq_starts_with(lowered, "hc_"@),
        no_cooling_keyword(lowered),
    ensures
        coil_role_spec(None, lowered) == CoilRole::Heating,
{
}

/// A component of unknown kind whose lower-cased name mentions `humid` and
/// neither a cooling nor a heating keyword is a humidifier; a name with no
/// keyword at all gives no coil role.
pub proof fn law_humidifier_and_plain_names(lowered: Seq<char>)
    requires
        no_cooling_keyword(lowered),
        !seq_contains(lowered, "heat"@),
        !seq_contains(lowered, "furnace"@),
        !seq_contains(lowered, "hw"@),
        !seq_starts_with(lowered, "hc "@),
        !seq_starts_with(lowered, "hc_"@),
    ensures
        seq_contains(lowered, "humid"@) ==> coil_role_spec(None, lowered) == CoilRole::Humidifier,
        !seq_contains(lowered, "humid"@) ==> coil_role_spec(None, lowered) == CoilRole::Other,
{
}

/// Wraps `str::to_lowercase`.  Claimed: the result depends on the input
/// text alone (the Unicode lower-case mapping is fixed, not locale-dependent).
#[verifier::external_body]
fn str_to_lowercase(s: &str) -> (r: String)
    ensures
        r@ == lowercase(s@),
{
    s.to_lowercase()
}

/// Characters of a string slice, in order.
fn chars_of(s: &str) -> (v: Vec<char>)
    ensures
        v@ == s@,
{
    let n = s.unicode_len();
    let mut v: Vec<char> = Vec::new();
    let mut i: usize = 0;
    while i < n
        invariant
            n == s@.len(),
            i <= n,
            v@ == s@.subrange(0, i as int),
        decreases n - i,
    {
        let c = s.get_char(i);
        v.push(c);
        i = i + 1;
        assert(v@ =~= s@.subrange(0, i as int));
    }
    assert(v@ =~= s@);
    v
}

/// Whether `needle` occurs in `hay` at position `i`.
fn matches_at(hay: &Vec<char>, needle: &Vec<char>, i: usize) -> (r: bool)
    requires
        i + needle@.len() <= hay@.len(),
    ensures
        r == occurs_at(hay@, needle@, i as int),
{
    let hay_len = hay.len();
    let mut j: usize = 0;
    while j < needle.len()
        invariant
            hay_len == hay@.len(),
            i + needle@.len() <= hay@.len(),
            j <= needle@.len(),
            forall|k: int| 0 <= k < j ==> hay@[i + k] == needle@[k],
        decreases needle@.len() - j,
    {
        if hay[i + j] != needle[j] {
            assert(hay@.subrange(i as int, i + needle@.len())[j as int] != needle@[j as int]);
            return false;
        }
        j = j + 1;
    }
    assert(hay@.subrange(i as int, i + needle@.len()) =~= needle@);
    true
}

/// Whether `needle` occurs anywhere in `hay`.
fn contains_chars(hay: &Vec<char>, needle: &Vec<char>) -> (r: bool)
    ensures
        r == seq_contains(hay@, needle@),
{
    if needle.len() > hay.len() {
        return false;
    }
    let last = hay.len() - needle.len();
    let mut i: usize = 0;
    loop
        invariant
            i <= last,
            last + needle@.len() == hay@.len(),
            forall|k: int| 0 <= k < i ==> !occurs_at(hay@, needle@, k),
        decreases last - i,
    {
        if matches_at(hay, needle, i) {
            return true;
        }
        if i == last {
            return false;
        }
        i = i + 1;
    }
}

/// Whether `hay` begins with `needle`.
fn starts_with_chars(hay: &Vec<char>, needle: &Vec<char>) -> (r: bool)
    ensures
        r == seq_starts_with(hay@, needle@),
{
    if needle.len() > hay.len() {
        return false;
    }
    matches_at(hay, needle, 0)
}

/// Role of a component from its lower-cased name (see [`role_by_name`]).
pub fn role_by_lowercase_name(lowered: &str) -> (r: CoilRole)
    ensures
        r == role_by_name(lowered@),
{
    let l = chars_of(lowered);
    if contains_chars(&l, &chars_of("cool")) || contains_chars(&l, &chars_of("dx"))
        || starts_with_chars(&l, &chars_of("cc ")) || starts_with_chars(&l, &chars_of("cc_")) {
        CoilRole::Cooling
    } else if contains_chars(&l, &chars_of("heat")) || contains_chars(&l, &chars_of("furnace"))
        || (contains_chars(&l, &chars_of("hw")) && !contains_chars(&l, &chars_of("chw")))
        || starts_with_chars(&l, &chars_of("hc ")) || starts_with_chars(&l, &chars_of("hc_")) {
        CoilRole::Heating
    } else if contains_chars(&l, &chars_of("humid")) {
        CoilRole::Humidifier
    } else {
        CoilRole::Other
    }
}

/// Control role of component `name`, whose kind is `kind` when the loop's
/// equipment list knows it.  The kind decides when present; otherwise the
/// name decides, compared case-insensitively.
pub fn coil_role(kind: Option<ComponentKind>, name: &str) -> (r: CoilRole)
    ensures
        r == coil_role_spec(kind, lowercase(name@)),
{
    match kind {
        Some(ComponentKind::CoolingCoil) | Some(ComponentKind::EvapCooler) => CoilRole::Cooling,
        Some(ComponentKind::HeatingCoil) => CoilRole::Heating,
        Some(ComponentKind::Humidifier) => CoilRole::Humidifier,
        Some(_) => CoilRole::Other,
        None => {
            let l = str_to_lowercase(name);
            role_by_lowercase_name(l.as_str())
        },
    }
}

} // verus!
