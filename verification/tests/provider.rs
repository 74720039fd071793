use map_generator::canon::EntityId;
use map_generator::palette::{color_shared_border_graph, Adjacency};
use map_generator::years::year_index;

fn e(s: &str) -> EntityId {
    EntityId(s.to_string())
}

fn graph(edges: &[(&str, &str)]) -> (Vec<EntityId>, Adjacency) {
    let mut ids: Vec<EntityId> = Vec::new();
    let mut adj = Adjacency::new();
    for (a, b) in edges {
        for x in [a, b] {
            if !ids.contains(&e(x)) {
                ids.push(e(x));
            }
        }
        adj.touch(&e(a), &e(b));
        adj.touch(&e(b), &e(a));
    }
    ids.sort();
    (ids, adj)
}

fn slot_of(slots: &map_generator::idmap::IdMap<usize>, id: &str) -> usize {
    *slots.get(id).unwrap()
}

/// The law the style comment promises: touching territories never
/// share a slot.
#[test]
fn touching_territories_never_match() {
    let edges = [
        ("asher", "manasseh-west"),
        ("asher", "phoenicia"),
        ("asher", "zebulun"),
        ("manasseh-west", "zebulun"),
        ("manasseh-west", "ephraim"),
        ("zebulun", "issachar"),
    ];
    let (ids, adj) = graph(&edges);
    let slot = color_shared_border_graph(&ids, &adj);
    for (a, b) in edges {
        assert_ne!(slot_of(&slot, a), slot_of(&slot, b), "{a:?} and {b:?} touch and match");
    }
}

/// More neighbors than slots: the fallback still answers, and
/// deterministically — same input, same coloring, every time.
#[test]
fn oversubscribed_hub_is_deterministic() {
    // a hub touching nine spokes that all touch each other: the
    // spokes exhaust the eight slots, the hub takes the least-worn
    let mut edges = Vec::new();
    let spokes: Vec<String> = (0..9).map(|i| format!("spoke-{i}")).collect();
    for i in 0..spokes.len() {
        edges.push(("hub".to_string(), spokes[i].clone()));
        for j in i + 1..spokes.len() {
            edges.push((spokes[i].clone(), spokes[j].clone()));
        }
    }
    let borrowed: Vec<(&str, &str)> = edges.iter().map(|(a, b)| (a.as_str(), b.as_str())).collect();
    let (ids, adj) = graph(&borrowed);
    let one = color_shared_border_graph(&ids, &adj);
    let two = color_shared_border_graph(&ids, &adj);
    assert_eq!(one, two, "coloring is a function of the graph, nothing else");
    assert!(one.entries.iter().all(|(_, s)| *s < 8), "every slot is a real slot");
}

/// An entity keeps its slot regardless of which pieces render: the
/// assignment is computed once over the whole graph.
#[test]
fn color_follows_the_entity() {
    let (ids, adj) = graph(&[("judah", "benjamin"), ("benjamin", "ephraim")]);
    let full = color_shared_border_graph(&ids, &adj);
    for id in &ids {
        assert!(full.get(id.0.as_str()).is_some());
    }
}

#[test]
fn the_busiest_territory_chooses_first_and_slots_spread() {
    // benjamin touches two others and is coloured first, taking slot 0;
    // each later territory takes the least-used slot no neighbour wears
    let (ids, adj) = graph(&[("judah", "benjamin"), ("benjamin", "ephraim")]);
    let slots = color_shared_border_graph(&ids, &adj);
    assert_eq!(slot_of(&slots, "benjamin"), 0);
    assert_eq!(slot_of(&slots, "ephraim"), 1);
    assert_eq!(slot_of(&slots, "judah"), 2);
    assert_eq!(slots.entries.len(), 3);
}

#[test]
fn handing_ids_in_another_order_changes_nothing() {
    let (ids, adj) = graph(&[("a", "b"), ("b", "c"), ("c", "a"), ("c", "d")]);
    let mut reversed = ids.clone();
    reversed.reverse();
    assert_eq!(color_shared_border_graph(&ids, &adj), color_shared_border_graph(&reversed, &adj));
}

#[test]
fn an_id_nobody_touches_still_gets_a_slot() {
    let adj = Adjacency::new();
    let slots = color_shared_border_graph(&[e("alone")], &adj);
    assert_eq!(slot_of(&slots, "alone"), 0);
}

#[test]
fn year_index_skips_year_zero() {
    assert_eq!(year_index(1), 0);
    assert_eq!(year_index(-1), -1);
    assert_eq!(year_index(2024), 2023);
    assert_eq!(year_index(-4004), -4004);
}
