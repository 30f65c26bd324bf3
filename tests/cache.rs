use pipeline_cache::{
    Overrides, PipelineCache, RenderState, ShaderBackend, ShaderKey, Topology, WgslSource,
};

const TRI: WgslSource = WgslSource { name: "tri", code: "// triangle" };

#[derive(Debug, PartialEq)]
struct Compiled {
    serial: usize,
    name: &'static str,
    constants: Vec<(String, u64)>,
}

/// Counts compiles and fails while `failing` is set.
struct Counting {
    calls: usize,
    failing: bool,
}

impl ShaderBackend for Counting {
    type Pipeline = Compiled;
    type Error = String;

    fn compile_pipeline(
        &mut self,
        src: &WgslSource,
        _state: &RenderState,
        constants: &[(String, u64)],
    ) -> Result<Compiled, String> {
        self.calls += 1;
        if self.failing {
            return Err(format!("cannot compile {}", src.name));
        }
        Ok(Compiled { serial: self.calls, name: src.name, constants: constants.to_vec() })
    }
}

fn state(topo: Topology) -> RenderState {
    RenderState { format: 1, depth: true, msaa: 1, topo }
}

#[test]
fn second_call_with_equal_key_does_not_compile() {
    let mut cache = PipelineCache::new();
    let mut backend = Counting { calls: 0, failing: false };
    let ov = Overrides::new().with("USE_FOG", 1.0f64.to_bits());
    let st = state(Topology::TriangleList);
    let key = ShaderKey::new(&TRI, st, &ov);
    let first = cache.get_or_create(key, &mut backend, &TRI, &st, &ov).unwrap().serial;
    let second = cache.get_or_create(key, &mut backend, &TRI, &st, &ov).unwrap().serial;
    assert_eq!(backend.calls, 1);
    assert_eq!(first, 1);
    assert_eq!(second, first);
}

#[test]
fn equal_key_from_other_insertion_order_hits() {
    let mut cache = PipelineCache::new();
    let mut backend = Counting { calls: 0, failing: false };
    let st = state(Topology::TriangleList);
    let a = Overrides::new().with("A", 1).with("B", 2);
    let b = Overrides::new().with("B", 2).with("A", 1);
    let ka = ShaderKey::new(&TRI, st, &a);
    let kb = ShaderKey::new(&TRI, st, &b);
    cache.get_or_create(ka, &mut backend, &TRI, &st, &a).unwrap();
    cache.get_or_create(kb, &mut backend, &TRI, &st, &b).unwrap();
    assert_eq!(backend.calls, 1);
}

#[test]
fn failure_is_not_cached() {
    let mut cache = PipelineCache::new();
    let mut backend = Counting { calls: 0, failing: true };
    let ov = Overrides::new();
    let st = state(Topology::LineList);
    let key = ShaderKey::new(&TRI, st, &ov);
    let err = cache.get_or_create(key, &mut backend, &TRI, &st, &ov).unwrap_err();
    assert_eq!(err, "cannot compile tri");
    assert_eq!(backend.calls, 1);
    assert!(cache.get_or_create(key, &mut backend, &TRI, &st, &ov).is_err());
    assert_eq!(backend.calls, 2);
    backend.failing = false;
    let p = cache.get_or_create(key, &mut backend, &TRI, &st, &ov).unwrap();
    assert_eq!(p.serial, 3);
    assert_eq!(backend.calls, 3);
}

#[test]
fn distinct_keys_compile_separately() {
    let mut cache = PipelineCache::new();
    let mut backend = Counting { calls: 0, failing: false };
    let ov = Overrides::new();
    let list = state(Topology::TriangleList);
    let strip = state(Topology::TriangleStrip);
    let k_list = ShaderKey::new(&TRI, list, &ov);
    let k_strip = ShaderKey::new(&TRI, strip, &ov);
    assert_eq!(cache.get_or_create(k_list, &mut backend, &TRI, &list, &ov).unwrap().serial, 1);
    assert_eq!(cache.get_or_create(k_strip, &mut backend, &TRI, &strip, &ov).unwrap().serial, 2);
    assert_eq!(cache.get_or_create(k_list, &mut backend, &TRI, &list, &ov).unwrap().serial, 1);
    assert_eq!(backend.calls, 2);
}

#[test]
fn backend_receives_constants_in_name_order() {
    let mut cache = PipelineCache::new();
    let mut backend = Counting { calls: 0, failing: false };
    let mut ov = Overrides::new();
    ov.set("b", 2.0f64.to_bits());
    ov.set("a", 1.0f64.to_bits());
    let st = state(Topology::TriangleList);
    let key = ShaderKey::new(&TRI, st, &ov);
    let p = cache.get_or_create(key, &mut backend, &TRI, &st, &ov).unwrap();
    assert_eq!(p.name, "tri");
    assert_eq!(
        p.constants,
        vec![("a".to_string(), 1.0f64.to_bits()), ("b".to_string(), 2.0f64.to_bits())]
    );
}
