use pipeline_cache::overrides::{FALSE_BITS, TRUE_BITS};
use pipeline_cache::Overrides;

fn names_and_values(ov: &Overrides) -> Vec<(String, u64)> {
    ov.canonical_pairs().to_vec()
}

#[test]
fn canonical_pairs_sorts_by_name() {
    let mut ov = Overrides::new();
    ov.set("b", 2.0f64.to_bits());
    ov.set("a", 1.0f64.to_bits());
    assert_eq!(
        names_and_values(&ov),
        vec![
            ("a".to_string(), 1.0f64.to_bits()),
            ("b".to_string(), 2.0f64.to_bits())
        ]
    );
}

#[test]
fn canonical_pairs_of_empty_set() {
    let ov = Overrides::default();
    assert!(ov.canonical_pairs().is_empty());
    assert!(ov.get_map().is_empty());
}

#[test]
fn set_overwrites_last_write_wins() {
    let mut ov = Overrides::new();
    ov.set("X", 1);
    ov.set("X", 7);
    assert_eq!(names_and_values(&ov), vec![("X".to_string(), 7)]);
}

#[test]
fn ordering_is_by_codepoint_with_prefix_first() {
    let mut ov = Overrides::new();
    ov.set("ab", 3);
    ov.set("B", 2);
    ov.set("a", 1);
    ov.set("é", 5);
    ov.set("z", 4);
    let names: Vec<String> = names_and_values(&ov).into_iter().map(|p| p.0).collect();
    assert_eq!(names, vec!["B", "a", "ab", "z", "é"]);
}

#[test]
fn remove_takes_out_only_that_name() {
    let mut ov = Overrides::new();
    ov.set("A", 1);
    ov.set("B", 2);
    ov.remove("A");
    ov.remove("missing");
    assert_eq!(names_and_values(&ov), vec![("B".to_string(), 2)]);
}

#[test]
fn with_chains_sets() {
    let ov = Overrides::new().with("T", 0.5f64.to_bits()).with("S", 2);
    assert_eq!(
        names_and_values(&ov),
        vec![("S".to_string(), 2), ("T".to_string(), 0.5f64.to_bits())]
    );
}

#[test]
fn set_bool_encodes_one_and_zero() {
    let mut ov = Overrides::new();
    ov.set_bool("ON", true);
    ov.set_bool("OFF", false);
    assert_eq!(TRUE_BITS, 1.0f64.to_bits());
    assert_eq!(FALSE_BITS, 0.0f64.to_bits());
    assert_eq!(
        names_and_values(&ov),
        vec![("OFF".to_string(), 0.0f64.to_bits()), ("ON".to_string(), 1.0f64.to_bits())]
    );
}

#[test]
fn get_map_matches_canonical_pairs() {
    let mut ov = Overrides::new();
    ov.set("q", 9);
    ov.set("p", 8);
    assert_eq!(ov.get_map().as_slice(), ov.canonical_pairs());
}
