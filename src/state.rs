use vstd::prelude::*;

verus! {

/// A shader's stable identity and its source text. Only the identity takes
/// part in a pipeline key; a new text must come with a new identity.
#[derive(Clone, Copy, Debug)]
pub struct WgslSource {
    pub name: &'static str,
    pub code: &'static str,
}

/// How vertices are assembled into primitives.
#[derive(Clone, Copy, Debug, Hash, PartialEq, Eq, Structural)]
pub enum Topology {
    TriangleList,
    TriangleStrip,
    LineList,
}

/// The fixed-function state a pipeline is compiled against. Two states are
/// equal exactly when every field is equal.
///
/// `format` is an identifier that the graphics backend defines for the
/// colour target's pixel format; `msaa` is the sample count, 1 meaning no
/// multisampling.
#[derive(Clone, Copy, Debug, Hash, PartialEq, Eq, Structural)]
pub struct RenderState {
    pub format: u32,
    pub depth: bool,
    pub msaa: u32,
    pub topo: Topology,
}

} // verus!
