//! Render pipeline configuration with the engine's conventions: entry points
//! `vs_main`/`fs_main`, triangle lists, no culling, depth testing on unless
//! switched off.

use vstd::prelude::*;

verus! {

/// The settings a render pipeline is built from.
pub struct PipelineBuilder<'a> {
    /// Debug label of the pipeline and its shader module.
    pub label: &'a str,
    /// WGSL source of the shader module.
    pub shader_source: &'a str,
    /// Whether the pipeline tests and writes depth.
    pub depth_test: bool,
}

impl<'a> PipelineBuilder<'a> {
    /// A builder for `shader_source` labelled `label`, with depth testing on.
    pub fn new(label: &'a str, shader_source: &'a str) -> (b: Self)
        ensures
            b.label@ == label@,
            b.shader_source@ == shader_source@,
            b.depth_test,
    {
        PipelineBuilder { label, shader_source, depth_test: true }
    }

    /// The same builder with depth testing switched to `enabled`.
    pub fn depth_test(self, enabled: bool) -> (b: Self)
        ensures
            b.label@ == self.label@,
            b.shader_source@ == self.shader_source@,
            b.depth_test == enabled,
    {
        let mut b = self;
        b.depth_test = enabled;
        b
    }
}

} // verus!
