use pipeline_cache::{Overrides, RenderState, ShaderKey, Topology, WgslSource};

const TRI: WgslSource = WgslSource { name: "tri", code: "// triangle" };

fn cfg(msaa: u32) -> RenderState {
    RenderState { format: 1, depth: true, msaa, topo: Topology::TriangleList }
}

#[test]
fn key_ignores_insertion_order() {
    let mut a = Overrides::new();
    a.set("USE_FOG", 1.0f64.to_bits());
    a.set("TINT_R", 1.0f64.to_bits());
    a.set("TINT_G", 0.9f64.to_bits());
    let mut b = Overrides::new();
    b.set("TINT_G", 0.9f64.to_bits());
    b.set("USE_FOG", 1.0f64.to_bits());
    b.set("TINT_R", 1.0f64.to_bits());
    assert_eq!(ShaderKey::new(&TRI, cfg(1), &a), ShaderKey::new(&TRI, cfg(1), &b));
}

#[test]
fn key_is_stable_across_calls() {
    let ov = Overrides::new().with("A", 3);
    let k1 = ShaderKey::new(&TRI, cfg(1), &ov);
    let k2 = ShaderKey::new(&TRI, cfg(1), &ov);
    assert_eq!(k1, k2);
    assert_eq!(k1.consts_hash, k2.consts_hash);
}

#[test]
fn key_keeps_identity_and_state() {
    let ov = Overrides::new();
    let k = ShaderKey::new(&TRI, cfg(4), &ov);
    assert_eq!(k.src_name, "tri");
    assert_eq!(k.state, cfg(4));
}

#[test]
fn key_scenario_insert_then_remove() {
    let plain = Overrides::new().with("USE_FOG", 1.0f64.to_bits());
    let mut detour = Overrides::new();
    detour.set("UNRELATED", 5.0f64.to_bits());
    detour.set("USE_FOG", 1.0f64.to_bits());
    detour.remove("UNRELATED");
    let k_plain = ShaderKey::new(&TRI, cfg(1), &plain);
    let k_detour = ShaderKey::new(&TRI, cfg(1), &detour);
    assert_eq!(k_plain, k_detour);
    let k_msaa4 = ShaderKey::new(&TRI, cfg(4), &plain);
    assert_ne!(k_plain, k_msaa4);
}

#[test]
fn key_changes_with_each_state_field() {
    let ov = Overrides::new().with("A", 1);
    let base = RenderState { format: 1, depth: true, msaa: 1, topo: Topology::TriangleList };
    let k = ShaderKey::new(&TRI, base, &ov);
    let variants = [
        RenderState { format: 2, ..base },
        RenderState { depth: false, ..base },
        RenderState { msaa: 4, ..base },
        RenderState { topo: Topology::TriangleStrip, ..base },
        RenderState { topo: Topology::LineList, ..base },
    ];
    for v in variants {
        assert_ne!(k, ShaderKey::new(&TRI, v, &ov));
    }
}

#[test]
fn key_changes_with_identity() {
    let ov = Overrides::new();
    let other = WgslSource { name: "quad", code: "// triangle" };
    assert_ne!(ShaderKey::new(&TRI, cfg(1), &ov), ShaderKey::new(&other, cfg(1), &ov));
}

#[test]
fn key_ignores_source_text() {
    let ov = Overrides::new();
    let edited = WgslSource { name: "tri", code: "// edited" };
    assert_eq!(ShaderKey::new(&TRI, cfg(1), &ov), ShaderKey::new(&edited, cfg(1), &ov));
}

#[test]
fn key_changes_with_a_constant_value() {
    let a = Overrides::new().with("USE_FOG", 1.0f64.to_bits()).with("TINT", 0.5f64.to_bits());
    let b = Overrides::new().with("USE_FOG", 0.0f64.to_bits()).with("TINT", 0.5f64.to_bits());
    assert_ne!(ShaderKey::new(&TRI, cfg(1), &a), ShaderKey::new(&TRI, cfg(1), &b));
}

#[test]
fn key_tells_signed_zeros_apart() {
    let a = Overrides::new().with("Z", 0.0f64.to_bits());
    let b = Overrides::new().with("Z", (-0.0f64).to_bits());
    assert_ne!(ShaderKey::new(&TRI, cfg(1), &a), ShaderKey::new(&TRI, cfg(1), &b));
}

#[test]
fn key_changes_with_a_constant_name() {
    let a = Overrides::new().with("A", 1);
    let b = Overrides::new().with("B", 1);
    let empty = Overrides::new();
    let ka = ShaderKey::new(&TRI, cfg(1), &a);
    assert_ne!(ka, ShaderKey::new(&TRI, cfg(1), &b));
    assert_ne!(ka, ShaderKey::new(&TRI, cfg(1), &empty));
}

#[test]
fn key_equality_compares_every_field() {
    let ov = Overrides::new();
    let k = ShaderKey::new(&TRI, cfg(1), &ov);
    let mut other = k;
    assert_eq!(k, other);
    other.consts_hash ^= 1;
    assert_ne!(k, other);
}
