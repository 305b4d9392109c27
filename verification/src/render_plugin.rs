//! Render plugin: the systems it registers and the default render graph.
use vstd::prelude::*;
use crate::render_graph::AttachmentId;
use crate::render_graph::PassId;
use crate::render_graph::RenderGraph;
use crate::render_graph::NodeView;
use crate::render_graph::attachment_ids;
use crate::render_graph::pass_ids;

verus! {

/// System that syncs transforms to GPU buffers.
pub struct RenderSyncSystem;

/// System that updates particle emitters.
pub struct ParticleUpdateSystem;

/// System that tracks asset reloads for GPU resource recreation.
pub struct GpuAssetSyncSystem {
    pending_reloads: Vec<(u64, String)>,
}

impl GpuAssetSyncSystem {
    /// The reloads waiting to be processed: asset handle and path.
    pub closed spec fn pending(&self) -> Seq<(u64, Seq<char>)> {
        self.pending_reloads@.map_values(|e: (u64, String)| (e.0, e.1@))
    }

    /// A system with nothing pending.
    pub fn new() -> (s: Self)
        ensures
            s.pending().len() == 0,
    {
        GpuAssetSyncSystem { pending_reloads: Vec::new() }
    }

    /// Record that the asset with `handle` was reloaded from `path`.
    pub fn queue_reload(&mut self, handle: u64, path: String)
        ensures
            final(self).pending() == old(self).pending().push((handle, path@)),
    {
        self.pending_reloads.push((handle, path));
        assert(self.pending() =~= old(self).pending().push((handle, path@)));
    }

    /// Process the pending reloads: returns how many there were and clears
    /// the list.
    pub fn flush_reloads(&mut self) -> (n: usize)
        ensures
            n == old(self).pending().len(),
            final(self).pending().len() == 0,
    {
        let n = self.pending_reloads.len();
        self.pending_reloads.clear();
        n
    }
}

impl Default for GpuAssetSyncSystem {
    fn default() -> (s: Self)
        ensures
            s.pending().len() == 0,
    {
        GpuAssetSyncSystem::new()
    }
}

/// Render plugin: which optional systems to register.
pub struct RenderPlugin {
    pub particles_enabled: bool,
    pub asset_sync_enabled: bool,
}

impl Default for RenderPlugin {
    fn default() -> (p: Self)
        ensures
            p.particles_enabled,
            p.asset_sync_enabled,
    {
        RenderPlugin { particles_enabled: true, asset_sync_enabled: true }
    }
}

/// A system the render plugin registers, with its stage.
#[derive(Debug, Clone, Copy, PartialEq, Eq, Structural)]
pub enum RenderSystemKind {
    /// Transform sync, in the post-update stage.
    RenderSync,
    /// Particle update, in the update stage.
    ParticleUpdate,
    /// GPU asset sync, in the post-update stage.
    GpuAssetSync,
}

impl RenderPlugin {
    /// The systems to register, in order: transform sync always, then the
    /// particle update and the asset sync when enabled.
    pub fn systems(&self) -> (v: Vec<RenderSystemKind>)
        ensures
            v@ == seq![RenderSystemKind::RenderSync] + (if self.particles_enabled {
                seq![RenderSystemKind::ParticleUpdate]
            } else {
                Seq::empty()
            }) + (if self.asset_sync_enabled {
                seq![RenderSystemKind::GpuAssetSync]
            } else {
                Seq::empty()
            }),
    {
        let mut v: Vec<RenderSystemKind> = Vec::new();
        v.push(RenderSystemKind::RenderSync);
        if self.particles_enabled {
            v.push(RenderSystemKind::ParticleUpdate);
        }
        if self.asset_sync_enabled {
            v.push(RenderSystemKind::GpuAssetSync);
        }
        assert(v@ =~= seq![RenderSystemKind::RenderSync] + (if self.particles_enabled {
            seq![RenderSystemKind::ParticleUpdate]
        } else {
            Seq::empty()
        }) + (if self.asset_sync_enabled {
            seq![RenderSystemKind::GpuAssetSync]
        } else {
            Seq::empty()
        }));
        v
    }
}

/// The standard graph the render plugin installs: shadow, opaque,
/// transparent, post-process and UI passes in that order, each depending
/// on the one before; the shadow pass writes the shadow map, the opaque
/// pass the HDR colour and depth, and the transparent and post-process
/// passes the HDR colour.
pub fn standard_render_graph() -> (g: RenderGraph)
    ensures
        g.wf(),
        g.passes() == seq![PassId(0), PassId(1), PassId(2), PassId(3), PassId(5)],
        g.nodes_view() == map![
            PassId(0) => NodeView { deps: seq![], inputs: seq![], outputs: seq![AttachmentId(2)] },
            PassId(1) => NodeView { deps: seq![PassId(0)], inputs: seq![], outputs: seq![AttachmentId(0), AttachmentId(1)] },
            PassId(2) => NodeView { deps: seq![PassId(1)], inputs: seq![], outputs: seq![AttachmentId(0)] },
            PassId(3) => NodeView { deps: seq![PassId(2)], inputs: seq![], outputs: seq![AttachmentId(0)] },
            PassId(5) => NodeView { deps: seq![PassId(3)], inputs: seq![], outputs: seq![] },
        ],
{
    let mut graph = RenderGraph::new();
    graph.add_pass(pass_ids::SHADOW());
    assert(graph.nodes_view() =~~= map![PassId(0) => NodeView { deps: seq![], inputs: seq![], outputs: seq![] }]);
    graph.add_pass(pass_ids::OPAQUE());
    assert(graph.nodes_view() =~~= map![PassId(0) => NodeView { deps: seq![], inputs: seq![], outputs: seq![] }, PassId(1) => NodeView { deps: seq![], inputs: seq![], outputs: seq![] }]);
    graph.add_pass(pass_ids::TRANSPARENT());
    assert(graph.nodes_view() =~~= map![PassId(0) => NodeView { deps: seq![], inputs: seq![], outputs: seq![] }, PassId(1) => NodeView { deps: seq![], inputs: seq![], outputs: seq![] }, PassId(2) => NodeView { deps: seq![], inputs: seq![], outputs: seq![] }]);
    graph.add_pass(pass_ids::POST_PROCESS());
    assert(graph.nodes_view() =~~= map![PassId(0) => NodeView { deps: seq![], inputs: seq![], outputs: seq![] }, PassId(1) => NodeView { deps: seq![], inputs: seq![], outputs: seq![] }, PassId(2) => NodeView { deps: seq![], inputs: seq![], outputs: seq![] }, PassId(3) => NodeView { deps: seq![], inputs: seq![], outputs: seq![] }]);
    graph.add_pass(pass_ids::UI());
    assert(graph.nodes_view() =~~= map![PassId(0) => NodeView { deps: seq![], inputs: seq![], outputs: seq![] }, PassId(1) => NodeView { deps: seq![], inputs: seq![], outputs: seq![] }, PassId(2) => NodeView { deps: seq![], inputs: seq![], outputs: seq![] }, PassId(3) => NodeView { deps: seq![], inputs: seq![], outputs: seq![] }, PassId(5) => NodeView { deps: seq![], inputs: seq![], outputs: seq![] }]);
    graph.add_dependency(pass_ids::OPAQUE(), pass_ids::SHADOW());
    assert(graph.nodes_view() =~~= map![PassId(0) => NodeView { deps: seq![], inputs: seq![], outputs: seq![] }, PassId(1) => NodeView { deps: seq![PassId(0)], inputs: seq![], outputs: seq![] }, PassId(2) => NodeView { deps: seq![], inputs: seq![], outputs: seq![] }, PassId(3) => NodeView { deps: seq![], inputs: seq![], outputs: seq![] }, PassId(5) => NodeView { deps: seq![], inputs: seq![], outputs: seq![] }]);
    graph.add_dependency(pass_ids::TRANSPARENT(), pass_ids::OPAQUE());
    assert(graph.nodes_view() =~~= map![PassId(0) => NodeView { deps: seq![], inputs: seq![], outputs: seq![] }, PassId(1) => NodeView { deps: seq![PassId(0)], inputs: seq![], outputs: seq![] }, PassId(2) => NodeView { deps: seq![PassId(1)], inputs: seq![], outputs: seq![] }, PassId(3) => NodeView { deps: seq![], inputs: seq![], outputs: seq![] }, PassId(5) => NodeView { deps: seq![], inputs: seq![], outputs: seq![] }]);
    graph.add_dependency(pass_ids::POST_PROCESS(), pass_ids::TRANSPARENT());
    assert(graph.nodes_view() =~~= map![PassId(0) => NodeView { deps: seq![], inputs: seq![], outputs: seq![] }, PassId(1) => NodeView { deps: seq![PassId(0)], inputs: seq![], outputs: seq![] }, PassId(2) => NodeView { deps: seq![PassId(1)], inputs: seq![], outputs: seq![] }, PassId(3) => NodeView { deps: seq![PassId(2)], inputs: seq![], outputs: seq![] }, PassId(5) => NodeView { deps: seq![], inputs: seq![], outputs: seq![] }]);
    graph.add_dependency(pass_ids::UI(), pass_ids::POST_PROCESS());
    assert(graph.nodes_view() =~~= map![PassId(0) => NodeView { deps: seq![], inputs: seq![], outputs: seq![] }, PassId(1) => NodeView { deps: seq![PassId(0)], inputs: seq![], outputs: seq![] }, PassId(2) => NodeView { deps: seq![PassId(1)], inputs: seq![], outputs: seq![] }, PassId(3) => NodeView { deps: seq![PassId(2)], inputs: seq![], outputs: seq![] }, PassId(5) => NodeView { deps: seq![PassId(3)], inputs: seq![], outputs: seq![] }]);
    graph.add_output(pass_ids::SHADOW(), attachment_ids::SHADOW_MAP());
    assert(graph.nodes_view() =~~= map![PassId(0) => NodeView { deps: seq![], inputs: seq![], outputs: seq![AttachmentId(2)] }, PassId(1) => NodeView { deps: seq![PassId(0)], inputs: seq![], outputs: seq![] }, PassId(2) => NodeView { deps: seq![PassId(1)], inputs: seq![], outputs: seq![] }, PassId(3) => NodeView { deps: seq![PassId(2)], inputs: seq![], outputs: seq![] }, PassId(5) => NodeView { deps: seq![PassId(3)], inputs: seq![], outputs: seq![] }]);
    graph.add_output(pass_ids::OPAQUE(), attachment_ids::HDR_COLOR());
    assert(graph.nodes_view() =~~= map![PassId(0) => NodeView { deps: seq![], inputs: seq![], outputs: seq![AttachmentId(2)] }, PassId(1) => NodeView { deps: seq![PassId(0)], inputs: seq![], outputs: seq![AttachmentId(0)] }, PassId(2) => NodeView { deps: seq![PassId(1)], inputs: seq![], outputs: seq![] }, PassId(3) => NodeView { deps: seq![PassId(2)], inputs: seq![], outputs: seq![] }, PassId(5) => NodeView { deps: seq![PassId(3)], inputs: seq![], outputs: seq![] }]);
    graph.add_output(pass_ids::OPAQUE(), attachment_ids::DEPTH());
    assert(graph.nodes_view().dom().contains(PassId(1)));
    assert(graph.nodes_view()[PassId(1)].outputs =~= seq![AttachmentId(0), AttachmentId(1)]);
    assert(graph.nodes_view() =~~= map![PassId(0) => NodeView { deps: seq![], inputs: seq![], outputs: seq![AttachmentId(2)] }, PassId(1) => NodeView { deps: seq![PassId(0)], inputs: seq![], outputs: seq![AttachmentId(0), AttachmentId(1)] }, PassId(2) => NodeView { deps: seq![PassId(1)], inputs: seq![], outputs: seq![] }, PassId(3) => NodeView { deps: seq![PassId(2)], inputs: seq![], outputs: seq![] }, PassId(5) => NodeView { deps: seq![PassId(3)], inputs: seq![], outputs: seq![] }]);
    graph.add_output(pass_ids::TRANSPARENT(), attachment_ids::HDR_COLOR());
    assert(graph.nodes_view() =~~= map![PassId(0) => NodeView { deps: seq![], inputs: seq![], outputs: seq![AttachmentId(2)] }, PassId(1) => NodeView { deps: seq![PassId(0)], inputs: seq![], outputs: seq![AttachmentId(0), AttachmentId(1)] }, PassId(2) => NodeView { deps: seq![PassId(1)], inputs: seq![], outputs: seq![AttachmentId(0)] }, PassId(3) => NodeView { deps: seq![PassId(2)], inputs: seq![], outputs: seq![] }, PassId(5) => NodeView { deps: seq![PassId(3)], inputs: seq![], outputs: seq![] }]);
    graph.add_output(pass_ids::POST_PROCESS(), attachment_ids::HDR_COLOR());
    assert(graph.nodes_view() =~~= map![PassId(0) => NodeView { deps: seq![], inputs: seq![], outputs: seq![AttachmentId(2)] }, PassId(1) => NodeView { deps: seq![PassId(0)], inputs: seq![], outputs: seq![AttachmentId(0), AttachmentId(1)] }, PassId(2) => NodeView { deps: seq![PassId(1)], inputs: seq![], outputs: seq![AttachmentId(0)] }, PassId(3) => NodeView { deps: seq![PassId(2)], inputs: seq![], outputs: seq![AttachmentId(0)] }, PassId(5) => NodeView { deps: seq![PassId(3)], inputs: seq![], outputs: seq![] }]);
    assert(graph.passes() =~= seq![PassId(0), PassId(1), PassId(2), PassId(3), PassId(5)]);
    graph
}

} // verus!
