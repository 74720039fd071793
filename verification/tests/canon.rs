use map_generator::canon::{EntityId, LayerKind, Witness};
use map_generator::persist::{hex, layer_from, layer_name, unhex, witness_from, witness_name};
use map_generator::registry::{EntityKind, Registry, RegistryViolation, Unification, WitnessRef};

fn id(s: &str) -> EntityId {
    EntityId(s.to_string())
}

fn wref(minted: &str, witness: Witness) -> WitnessRef {
    WitnessRef { minted_as: id(minted), witness, layer: LayerKind::Territory, kind: "area" }
}

fn declared(reason: &str) -> Unification {
    Unification::Declared { reason: reason.to_string(), source: "data/unify.json".to_string() }
}

#[test]
fn unknown_ids_resolve_to_themselves() {
    let reg = Registry::new();
    assert_eq!(reg.resolve(&id("rome")), &id("rome"));
    assert!(reg.get(&id("rome")).is_none());
    assert!(reg.why(&id("rome")).is_none());
    assert!(reg.entities().is_empty());
    assert!(reg.validate().is_empty());
}

#[test]
fn a_declaration_resolves_in_one_hop() {
    let mut reg = Registry::new();
    reg.declare(id("phoenicia"), id("partition:phoenicia"), declared("same coast")).unwrap();
    reg.declare(id("partition:phoenicia"), id("third:phoenicia"), declared("same again")).unwrap();
    // never chased: third resolves to what was written for it
    assert_eq!(reg.resolve(&id("third:phoenicia")), &id("partition:phoenicia"));
    assert_eq!(reg.why(&id("third:phoenicia")), Some(&declared("same again")));
    // and validate names the chain
    let v = reg.validate();
    assert!(v.contains(&RegistryViolation::ChainedUnification {
        minted: id("third:phoenicia"),
        via: id("partition:phoenicia"),
    }));
}

#[test]
fn declare_refuses_self_and_silent_redeclaration() {
    let mut reg = Registry::new();
    assert_eq!(
        reg.declare(id("rome"), id("rome"), declared("x")).unwrap_err(),
        "cannot unify \"rome\" with itself"
    );
    reg.declare(id("rome"), id("basemap:rome"), declared("same city")).unwrap();
    reg.declare(id("rome"), id("basemap:rome"), declared("said again")).unwrap();
    assert_eq!(
        reg.declare(id("byzantium"), id("basemap:rome"), declared("no")).unwrap_err(),
        "\"basemap:rome\" is already declared to resolve to \"rome\"; refusing to silently redeclare it to \"byzantium\""
    );
    assert_eq!(reg.resolve(&id("basemap:rome")), &id("rome"));
}

#[test]
fn observations_merge_names_and_sort_witnesses() {
    let mut reg = Registry::new();
    reg.observe(id("egypt"), "Mizraim", EntityKind::Polity, wref("egypt", Witness::Basemap));
    reg.observe(id("egypt"), "Egypt", EntityKind::Polity, wref("egypt", Witness::Atlas));
    reg.observe(id("egypt"), "Egypt", EntityKind::Polity, wref("egypt", Witness::Authored));
    let e = reg.get(&id("egypt")).unwrap();
    assert_eq!(e.names, vec!["Egypt".to_string(), "Mizraim".to_string()]);
    let order: Vec<Witness> = e.witnesses.iter().map(|w| w.witness).collect();
    assert_eq!(order, vec![Witness::Atlas, Witness::Authored, Witness::Basemap]);
    // a repeat sighting of one id is the only reason observe writes
    assert_eq!(reg.why(&id("egypt")), Some(&Unification::SameId));
}

#[test]
fn observation_order_does_not_shape_the_entity() {
    let mut a = Registry::new();
    a.observe(id("tyre"), "Tyre", EntityKind::Polity, wref("tyre", Witness::Atlas));
    a.observe(id("tyre"), "Sur", EntityKind::Polity, wref("tyre", Witness::Basemap));
    let mut b = Registry::new();
    b.observe(id("tyre"), "Sur", EntityKind::Polity, wref("tyre", Witness::Basemap));
    b.observe(id("tyre"), "Tyre", EntityKind::Polity, wref("tyre", Witness::Atlas));
    assert_eq!(a.get(&id("tyre")), b.get(&id("tyre")));
}

#[test]
fn declared_testimony_moves_home() {
    let mut reg = Registry::new();
    reg.observe(id("basemap:rome"), "Roma", EntityKind::Polity, wref("basemap:rome", Witness::Basemap));
    reg.observe(id("rome"), "Rome", EntityKind::Polity, wref("rome", Witness::Atlas));
    reg.declare(id("rome"), id("basemap:rome"), declared("same city")).unwrap();
    assert!(reg.get(&id("basemap:rome")).is_none());
    let home = reg.get(&id("rome")).unwrap();
    assert_eq!(home.names, vec!["Roma".to_string(), "Rome".to_string()]);
    assert_eq!(home.witnesses.len(), 2);
    // later testimony under the alias joins the home directly
    reg.observe(id("basemap:rome"), "Rome", EntityKind::Polity, wref("basemap:rome", Witness::Basemap));
    assert_eq!(reg.get(&id("rome")).unwrap().witnesses.len(), 3);
    // an explicit reason is never replaced by SameId
    assert_eq!(reg.why(&id("basemap:rome")), Some(&declared("same city")));
    let ids: Vec<EntityId> = reg.entities().iter().map(|e| e.id.clone()).collect();
    assert_eq!(ids, vec![id("rome")]);
    assert!(reg.validate().is_empty());
}

#[test]
fn validate_names_every_violation_in_order() {
    let mut reg = Registry::new();
    reg.observe(id("moab"), "Moab", EntityKind::Polity, wref("moab", Witness::Atlas));
    reg.observe(id("moab"), "Moab", EntityKind::People, wref("moab", Witness::Basemap));
    reg.declare(id("edom"), id("basemap:edom"), declared("typo target")).unwrap();
    reg.declare(id("b"), id("a"), declared("chain")).unwrap();
    reg.declare(id("c"), id("b"), declared("chain")).unwrap();
    let v = reg.validate();
    assert_eq!(
        v,
        vec![
            RegistryViolation::DanglingCanonical(id("b")),
            RegistryViolation::DanglingCanonical(id("c")),
            RegistryViolation::DanglingCanonical(id("edom")),
            RegistryViolation::ChainedUnification { minted: id("a"), via: id("b") },
            RegistryViolation::KindConflict { entity: id("moab"), a: EntityKind::Polity, b: EntityKind::People },
        ]
    );
}

#[test]
fn hex_round_trips() {
    assert_eq!(hex(0x1f), "000000000000001f");
    assert_eq!(unhex("000000000000001f"), Ok(0x1f));
    assert_eq!(unhex(&hex(u64::MAX)), Ok(u64::MAX));
    assert_eq!(unhex("xyz").unwrap_err(), "bad id 'xyz': invalid digit found in string");
    assert_eq!(unhex("").unwrap_err(), "bad id '': cannot parse integer from empty string");
    assert_eq!(unhex("10000000000000000").unwrap_err(), "bad id '10000000000000000': number too large to fit in target type");
}

#[test]
fn layer_and_witness_names_round_trip() {
    for k in [
        LayerKind::Territory,
        LayerKind::ScriptureClaims,
        LayerKind::Journeys,
        LayerKind::Water,
        LayerKind::Relief,
        LayerKind::Background,
    ] {
        assert_eq!(layer_from(layer_name(&k)), Ok(k));
    }
    for w in [Witness::Atlas, Witness::Authored, Witness::Basemap, Witness::NaturalEarth] {
        assert_eq!(witness_from(witness_name(&w)), Ok(w));
    }
    assert_eq!(layer_name(&LayerKind::ScriptureClaims), "scripture-claims");
    assert_eq!(layer_from("sea").unwrap_err(), "unknown layer 'sea'");
    assert_eq!(witness_from("rumour").unwrap_err(), "unknown witness 'rumour'");
}

#[test]
fn disagreeing_kinds_and_tied_keys_do_not_depend_on_order() {
    let point = WitnessRef { minted_as: id("gilead"), witness: Witness::Atlas, layer: LayerKind::Territory, kind: "point" };
    let area = WitnessRef { minted_as: id("gilead"), witness: Witness::Atlas, layer: LayerKind::Territory, kind: "area" };
    let mut a = Registry::new();
    a.observe(id("gilead"), "Gilead", EntityKind::Promise, point.clone());
    a.observe(id("gilead"), "Gilead", EntityKind::Polity, area.clone());
    let mut b = Registry::new();
    b.observe(id("gilead"), "Gilead", EntityKind::Polity, area.clone());
    b.observe(id("gilead"), "Gilead", EntityKind::Promise, point.clone());
    let ea = a.get(&id("gilead")).unwrap();
    assert_eq!(Some(ea), b.get(&id("gilead")));
    // the least kind in declaration order, the testimonies ordered by their feature kind
    assert_eq!(ea.kind, EntityKind::Polity);
    assert_eq!(ea.witnesses, vec![area, point]);
    // the disagreement is still named
    assert_eq!(a.validate().len(), 1);
    assert_eq!(b.validate().len(), 1);
}

#[test]
fn a_history_resolves_and_explains_each_id() {
    let mut reg = Registry::new();
    reg.observe(id("a"), "A", EntityKind::Place, wref("a", Witness::Atlas));
    reg.observe(id("x"), "X", EntityKind::Place, wref("x", Witness::Atlas));
    reg.observe(id("x"), "X", EntityKind::Place, wref("x", Witness::Basemap));
    reg.observe(id("y"), "Y", EntityKind::Place, wref("y", Witness::Atlas));
    reg.declare(id("b"), id("a"), declared("first")).unwrap();
    reg.declare(id("c"), id("b"), declared("second")).unwrap();
    assert!(reg.declare(id("d"), id("a"), declared("third")).is_err());
    reg.declare(id("b"), id("a"), declared("again")).unwrap();
    // one hop, to the canonical every accepted declaration named
    assert_eq!(reg.resolve(&id("a")), &id("b"));
    assert_eq!(reg.resolve(&id("b")), &id("c"));
    assert_eq!(reg.resolve(&id("y")), &id("y"));
    // the latest accepted reason; SameId after two sightings; nothing after one
    assert_eq!(reg.why(&id("a")), Some(&declared("again")));
    assert_eq!(reg.why(&id("x")), Some(&Unification::SameId));
    assert_eq!(reg.why(&id("y")), None);
    // the least kind the testimonies gave
    reg.observe(id("y"), "Y", EntityKind::District, wref("y", Witness::Basemap));
    assert_eq!(reg.get(&id("y")).unwrap().kind, EntityKind::District);
}

#[test]
fn three_observations_in_any_order_leave_one_registry() {
    let calls = [
        (id("moab"), "Moab", EntityKind::People, wref("moab", Witness::Basemap)),
        (id("moab"), "Mo'ab", EntityKind::Polity, wref("moab", Witness::Atlas)),
        (id("basemap:moab"), "Moab", EntityKind::Polity, wref("basemap:moab", Witness::Basemap)),
    ];
    let run = |order: [usize; 3]| {
        let mut reg = Registry::new();
        for k in order {
            let (m, n, kind, w) = calls[k].clone();
            reg.observe(m, n, kind, w);
        }
        reg
    };
    let a = run([0, 1, 2]);
    let b = run([2, 0, 1]);
    for x in ["moab", "basemap:moab"] {
        assert_eq!(a.get(&id(x)), b.get(&id(x)));
        assert_eq!(a.why(&id(x)), b.why(&id(x)));
    }
    assert_eq!(a.get(&id("moab")).unwrap().kind, EntityKind::Polity);
}
