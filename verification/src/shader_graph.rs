//! Shader graph: node-based material authoring compiled to WGSL.
//!
//! A graph is a list of nodes and of connections from one node's output
//! slot to another node's input slot.  The compiler orders the nodes with
//! Kahn's algorithm and emits one `let` per node output, then wires the
//! PBR output node.  Constant nodes carry their values as text: the fixed
//! six-decimal form that goes into WGSL and the debug form used in labels
//! and diagnostics.
use vstd::prelude::*;

pub mod topo;

use crate::decimal::push_u32;
use crate::decimal::push_u64;
use crate::decimal::spec_decimal;
use std::collections::HashMap;
use crate::shader_graph::topo::node_ids;
use crate::shader_graph::topo::key_set;
use crate::shader_graph::topo::count_into;
use crate::shader_graph::topo::start_degrees;
use crate::shader_graph::topo::ready_prefix;
use crate::shader_graph::topo::relax;
use crate::shader_graph::topo::kahn_run;
use crate::shader_graph::topo::kahn_budget;
use crate::shader_graph::topo::kahn_order;
use crate::shader_graph::topo::topo_result;
use crate::shader_graph::topo::kahn_inv;
use crate::shader_graph::topo::relax_inv;
use crate::shader_graph::topo::lemma_pop_inv;
use crate::shader_graph::topo::lemma_relax_step;
use crate::shader_graph::topo::lemma_relax_done;
use crate::shader_graph::topo::lemma_start_inv;
use crate::shader_graph::topo::lemma_state_bound;

verus! {

/// Unique node identifier within a graph.
pub type NodeId = u32;

/// Slot index on a node (both input and output).
pub type SlotIndex = u32;

/// Decimal text of a number.
pub open spec fn dec(n: int) -> Seq<char> {
    spec_decimal(n as nat)
}

/// Push `t` at the end of `s`.
fn push(s: &mut String, t: &str)
    ensures
        final(s)@ == old(s)@ + t@,
{
    s.append(t);
}

/// How serious a diagnostic is.
#[derive(Debug, Clone, Copy, PartialEq, Eq, Structural)]
pub enum DiagnosticSeverity {
    Error,
    Warning,
    Info,
}

/// A single diagnostic message from graph validation or compilation.
#[derive(Debug, Clone)]
pub struct ShaderGraphDiagnostic {
    /// The node that caused the issue (if applicable).
    pub node_id: Option<NodeId>,
    pub severity: DiagnosticSeverity,
    pub message: String,
}

/// Result of a live-preview compilation attempt.
#[derive(Debug, Clone)]
pub struct CompileResult {
    /// The generated WGSL (empty if compilation failed).
    pub wgsl: String,
    /// All diagnostics collected during compilation.
    pub diagnostics: Vec<ShaderGraphDiagnostic>,
    /// Whether compilation succeeded (no errors).
    pub success: bool,
}

/// A diagnostic as values: node, severity, message text.
pub type DiagView = (Option<u32>, DiagnosticSeverity, Seq<char>);

/// The diagnostics as values.
pub open spec fn diag_views(ds: Seq<ShaderGraphDiagnostic>) -> Seq<DiagView> {
    Seq::new(ds.len(), |i: int| (ds[i].node_id, ds[i].severity, ds[i].message@))
}

/// A floating-point constant as text: `fixed` is its six-decimal form (as
/// it goes into WGSL), `debug` its shortest round-trip form (as it shows
/// in node labels and diagnostics).
#[derive(Debug, Clone)]
pub struct FloatLiteral {
    pub fixed: String,
    pub debug: String,
}

/// The kinds of node available in the shader graph.
#[derive(Debug, Clone)]
pub enum ShaderNodeKind {
    /// Mesh UV coordinate set (index).
    TexCoord { set: u32 },
    /// Camera-space position of the fragment.
    WorldPosition,
    /// World-space normal.
    WorldNormal,
    /// View direction (camera to fragment).
    ViewDirection,
    /// Time (seconds) from engine clock.
    Time,
    ConstFloat(FloatLiteral),
    ConstVec2(FloatLiteral, FloatLiteral),
    ConstVec3(FloatLiteral, FloatLiteral, FloatLiteral),
    ConstVec4(FloatLiteral, FloatLiteral, FloatLiteral, FloatLiteral),
    ConstColor(FloatLiteral, FloatLiteral, FloatLiteral, FloatLiteral),
    /// Sample a 2D texture. Input 0 = UV (vec2).
    TextureSample { binding_slot: u32 },
    Add,
    Subtract,
    Multiply,
    Divide,
    /// Component-wise power.
    Power,
    /// Square root.
    Sqrt,
    /// Absolute value.
    Abs,
    /// Clamp(value, min, max). Inputs: 0=value, 1=min, 2=max.
    Clamp,
    /// Dot product of two vectors.
    Dot,
    /// Cross product of two vec3s.
    Cross,
    /// Normalise a vector.
    Normalize,
    /// Length of a vector.
    Length,
    /// Saturate (clamp 0..1).
    Saturate,
    /// Negate.
    Negate,
    /// One minus value.
    OneMinus,
    /// Lerp(a, b, t). Inputs: 0=a, 1=b, 2=t.
    Lerp,
    /// Smoothstep(edge0, edge1, x). Inputs: 0=edge0, 1=edge1, 2=x.
    Smoothstep,
    /// If(condition > threshold) then A else B.
    /// Inputs: 0=condition(f32), 1=threshold(f32), 2=A, 3=B.
    If,
    /// Schlick Fresnel. Inputs: 0=normal, 1=view, 2=exponent(f32).
    Fresnel,
    /// Split vec4 into (x, y, z, w).
    SplitVec4,
    /// Combine (x, y, z, w) into a vec4.
    CombineVec4,
    /// The final PBR output: inputs map to base_color, normal, roughness,
    /// metallic, emissive, alpha.
    PbrOutput,
}

/// Debug text of a list of two to four constants: `[a, b, ...]`.
pub open spec fn list_text2(a: FloatLiteral, b: FloatLiteral) -> Seq<char> {
    "["@ + a.debug@ + ", "@ + b.debug@ + "]"@
}

/// Debug text of a list of three constants.
pub open spec fn list_text3(a: FloatLiteral, b: FloatLiteral, c: FloatLiteral) -> Seq<char> {
    "["@ + a.debug@ + ", "@ + b.debug@ + ", "@ + c.debug@ + "]"@
}

/// Debug text of a list of four constants.
pub open spec fn list_text4(a: FloatLiteral, b: FloatLiteral, c: FloatLiteral, d: FloatLiteral) -> Seq<char> {
    "["@ + a.debug@ + ", "@ + b.debug@ + ", "@ + c.debug@ + ", "@ + d.debug@ + "]"@
}

/// The debug text of a node kind, as node labels and diagnostics show it.
pub open spec fn kind_text(k: ShaderNodeKind) -> Seq<char> {
    match k {
        ShaderNodeKind::TexCoord { set } => "TexCoord { set: "@ + dec(set as int) + " }"@,
        ShaderNodeKind::WorldPosition => "WorldPosition"@,
        ShaderNodeKind::WorldNormal => "WorldNormal"@,
        ShaderNodeKind::ViewDirection => "ViewDirection"@,
        ShaderNodeKind::Time => "Time"@,
        ShaderNodeKind::ConstFloat(v) => "ConstFloat("@ + v.debug@ + ")"@,
        ShaderNodeKind::ConstVec2(a, b) => "ConstVec2("@ + list_text2(a, b) + ")"@,
        ShaderNodeKind::ConstVec3(a, b, c) => "ConstVec3("@ + list_text3(a, b, c) + ")"@,
        ShaderNodeKind::ConstVec4(a, b, c, d) => "ConstVec4("@ + list_text4(a, b, c, d) + ")"@,
        ShaderNodeKind::ConstColor(a, b, c, d) => "ConstColor("@ + list_text4(a, b, c, d) + ")"@,
        ShaderNodeKind::TextureSample { binding_slot } => "TextureSample { binding_slot: "@ + dec(
            binding_slot as int,
        ) + " }"@,
        ShaderNodeKind::Add => "Add"@,
        ShaderNodeKind::Subtract => "Subtract"@,
        ShaderNodeKind::Multiply => "Multiply"@,
        ShaderNodeKind::Divide => "Divide"@,
        ShaderNodeKind::Power => "Power"@,
        ShaderNodeKind::Sqrt => "Sqrt"@,
        ShaderNodeKind::Abs => "Abs"@,
        ShaderNodeKind::Clamp => "Clamp"@,
        ShaderNodeKind::Dot => "Dot"@,
        ShaderNodeKind::Cross => "Cross"@,
        ShaderNodeKind::Normalize => "Normalize"@,
        ShaderNodeKind::Length => "Length"@,
        ShaderNodeKind::Saturate => "Saturate"@,
        ShaderNodeKind::Negate => "Negate"@,
        ShaderNodeKind::OneMinus => "OneMinus"@,
        ShaderNodeKind::Lerp => "Lerp"@,
        ShaderNodeKind::Smoothstep => "Smoothstep"@,
        ShaderNodeKind::If => "If"@,
        ShaderNodeKind::Fresnel => "Fresnel"@,
        ShaderNodeKind::SplitVec4 => "SplitVec4"@,
        ShaderNodeKind::CombineVec4 => "CombineVec4"@,
        ShaderNodeKind::PbrOutput => "PbrOutput"@,
    }
}

/// Number of input slots of a node kind.
pub open spec fn inputs_of(k: ShaderNodeKind) -> u32 {
    match k {
        ShaderNodeKind::TexCoord { .. } | ShaderNodeKind::WorldPosition | ShaderNodeKind::WorldNormal
        | ShaderNodeKind::ViewDirection | ShaderNodeKind::Time | ShaderNodeKind::ConstFloat(..)
        | ShaderNodeKind::ConstVec2(..) | ShaderNodeKind::ConstVec3(..) | ShaderNodeKind::ConstVec4(..)
        | ShaderNodeKind::ConstColor(..) => 0,
        ShaderNodeKind::TextureSample { .. } => 1,
        ShaderNodeKind::Add | ShaderNodeKind::Subtract | ShaderNodeKind::Multiply | ShaderNodeKind::Divide
        | ShaderNodeKind::Power | ShaderNodeKind::Dot | ShaderNodeKind::Cross => 2,
        ShaderNodeKind::Sqrt | ShaderNodeKind::Abs | ShaderNodeKind::Normalize | ShaderNodeKind::Length
        | ShaderNodeKind::Saturate | ShaderNodeKind::Negate | ShaderNodeKind::OneMinus
        | ShaderNodeKind::SplitVec4 => 1,
        ShaderNodeKind::Clamp | ShaderNodeKind::Lerp | ShaderNodeKind::Smoothstep | ShaderNodeKind::Fresnel => 3,
        ShaderNodeKind::If => 4,
        ShaderNodeKind::CombineVec4 => 4,
        ShaderNodeKind::PbrOutput => 6,
    }
}

/// Number of output slots of a node kind.
pub open spec fn outputs_of(k: ShaderNodeKind) -> u32 {
    match k {
        ShaderNodeKind::PbrOutput => 0,
        ShaderNodeKind::SplitVec4 => 4,
        _ => 1,
    }
}

impl ShaderNodeKind {
    /// The kind's debug text (see `kind_text`).
    pub fn debug_text(&self) -> (s: String)
        ensures
            s@ == kind_text(*self),
    {
        let mut s = String::new();
        match self {
            ShaderNodeKind::TexCoord { set } => {
                push(&mut s, "TexCoord { set: ");
                push_u32(&mut s, *set);
                push(&mut s, " }");
            },
            ShaderNodeKind::WorldPosition => push(&mut s, "WorldPosition"),
            ShaderNodeKind::WorldNormal => push(&mut s, "WorldNormal"),
            ShaderNodeKind::ViewDirection => push(&mut s, "ViewDirection"),
            ShaderNodeKind::Time => push(&mut s, "Time"),
            ShaderNodeKind::ConstFloat(v) => {
                push(&mut s, "ConstFloat(");
                push(&mut s, v.debug.as_str());
                push(&mut s, ")");
            },
            ShaderNodeKind::ConstVec2(a, b) => {
                push(&mut s, "ConstVec2(");
                push(&mut s, "[");
                push(&mut s, a.debug.as_str());
                push(&mut s, ", ");
                push(&mut s, b.debug.as_str());
                push(&mut s, "]");
                push(&mut s, ")");
            },
            ShaderNodeKind::ConstVec3(a, b, c) => {
                push(&mut s, "ConstVec3(");
                push(&mut s, "[");
                push(&mut s, a.debug.as_str());
                push(&mut s, ", ");
                push(&mut s, b.debug.as_str());
                push(&mut s, ", ");
                push(&mut s, c.debug.as_str());
                push(&mut s, "]");
                push(&mut s, ")");
            },
            ShaderNodeKind::ConstVec4(a, b, c, d) => {
                push(&mut s, "ConstVec4(");
                push(&mut s, "[");
                push_list4(&mut s, a, b, c, d);
                push(&mut s, "]");
                push(&mut s, ")");
            },
            ShaderNodeKind::ConstColor(a, b, c, d) => {
                push(&mut s, "ConstColor(");
                push(&mut s, "[");
                push_list4(&mut s, a, b, c, d);
                push(&mut s, "]");
                push(&mut s, ")");
            },
            ShaderNodeKind::TextureSample { binding_slot } => {
                push(&mut s, "TextureSample { binding_slot: ");
                push_u32(&mut s, *binding_slot);
                push(&mut s, " }");
            },
            ShaderNodeKind::Add => push(&mut s, "Add"),
            ShaderNodeKind::Subtract => push(&mut s, "Subtract"),
            ShaderNodeKind::Multiply => push(&mut s, "Multiply"),
            ShaderNodeKind::Divide => push(&mut s, "Divide"),
            ShaderNodeKind::Power => push(&mut s, "Power"),
            ShaderNodeKind::Sqrt => push(&mut s, "Sqrt"),
            ShaderNodeKind::Abs => push(&mut s, "Abs"),
            ShaderNodeKind::Clamp => push(&mut s, "Clamp"),
            ShaderNodeKind::Dot => push(&mut s, "Dot"),
            ShaderNodeKind::Cross => push(&mut s, "Cross"),
            ShaderNodeKind::Normalize => push(&mut s, "Normalize"),
            ShaderNodeKind::Length => push(&mut s, "Length"),
            ShaderNodeKind::Saturate => push(&mut s, "Saturate"),
            ShaderNodeKind::Negate => push(&mut s, "Negate"),
            ShaderNodeKind::OneMinus => push(&mut s, "OneMinus"),
            ShaderNodeKind::Lerp => push(&mut s, "Lerp"),
            ShaderNodeKind::Smoothstep => push(&mut s, "Smoothstep"),
            ShaderNodeKind::If => push(&mut s, "If"),
            ShaderNodeKind::Fresnel => push(&mut s, "Fresnel"),
            ShaderNodeKind::SplitVec4 => push(&mut s, "SplitVec4"),
            ShaderNodeKind::CombineVec4 => push(&mut s, "CombineVec4"),
            ShaderNodeKind::PbrOutput => push(&mut s, "PbrOutput"),
        }
        assert(s@ =~= kind_text(*self));
        s
    }

    /// Whether this is the PBR output kind.
    pub fn is_pbr_output(&self) -> (b: bool)
        ensures
            b == (*self is PbrOutput),
    {
        match self {
            ShaderNodeKind::PbrOutput => true,
            _ => false,
        }
    }
}

fn push_list4(s: &mut String, a: &FloatLiteral, b: &FloatLiteral, c: &FloatLiteral, d: &FloatLiteral)
    ensures
        final(s)@ == old(s)@ + a.debug@ + ", "@ + b.debug@ + ", "@ + c.debug@ + ", "@ + d.debug@,
{
    push(s, a.debug.as_str());
    push(s, ", ");
    push(s, b.debug.as_str());
    push(s, ", ");
    push(s, c.debug.as_str());
    push(s, ", ");
    push(s, d.debug.as_str());
}

/// A single node in the shader graph.
#[derive(Debug, Clone)]
pub struct ShaderNode {
    pub id: NodeId,
    pub kind: ShaderNodeKind,
    /// Human-readable label (used in the editor).
    pub label: String,
}

impl ShaderNode {
    /// A node labelled with its kind's debug text.
    pub fn new(id: NodeId, kind: ShaderNodeKind) -> (n: Self)
        ensures
            n.id == id,
            n.kind == kind,
            n.label@ == kind_text(kind),
    {
        let label = kind.debug_text();
        ShaderNode { id, kind, label }
    }

    /// Number of input slots this node exposes.
    pub fn input_count(&self) -> (n: u32)
        ensures
            n == inputs_of(self.kind),
    {
        match &self.kind {
            ShaderNodeKind::TexCoord { .. } | ShaderNodeKind::WorldPosition | ShaderNodeKind::WorldNormal
            | ShaderNodeKind::ViewDirection | ShaderNodeKind::Time | ShaderNodeKind::ConstFloat(..)
            | ShaderNodeKind::ConstVec2(..) | ShaderNodeKind::ConstVec3(..) | ShaderNodeKind::ConstVec4(..)
            | ShaderNodeKind::ConstColor(..) => 0,
            ShaderNodeKind::TextureSample { .. } => 1,
            ShaderNodeKind::Add | ShaderNodeKind::Subtract | ShaderNodeKind::Multiply | ShaderNodeKind::Divide
            | ShaderNodeKind::Power | ShaderNodeKind::Dot | ShaderNodeKind::Cross => 2,
            ShaderNodeKind::Sqrt | ShaderNodeKind::Abs | ShaderNodeKind::Normalize | ShaderNodeKind::Length
            | ShaderNodeKind::Saturate | ShaderNodeKind::Negate | ShaderNodeKind::OneMinus
            | ShaderNodeKind::SplitVec4 => 1,
            ShaderNodeKind::Clamp | ShaderNodeKind::Lerp | ShaderNodeKind::Smoothstep
            | ShaderNodeKind::Fresnel => 3,
            ShaderNodeKind::If => 4,
            ShaderNodeKind::CombineVec4 => 4,
            ShaderNodeKind::PbrOutput => 6,
        }
    }

    /// Number of output slots this node exposes.
    pub fn output_count(&self) -> (n: u32)
        ensures
            n == outputs_of(self.kind),
    {
        match &self.kind {
            ShaderNodeKind::PbrOutput => 0,
            ShaderNodeKind::SplitVec4 => 4,
            _ => 1,
        }
    }
}

/// A directed edge from one node's output slot to another's input slot.
#[derive(Debug, Clone, Copy, PartialEq, Eq, Hash, Structural)]
pub struct ShaderConnection {
    pub from_node: NodeId,
    pub from_slot: SlotIndex,
    pub to_node: NodeId,
    pub to_slot: SlotIndex,
}

/// The first connection into input `slot` of node `node`.
pub open spec fn find_input_in(conns: Seq<ShaderConnection>, node: u32, slot: u32) -> Option<ShaderConnection>
    decreases conns.len(),
{
    if conns.len() == 0 {
        None
    } else if conns[0].to_node == node && conns[0].to_slot == slot {
        Some(conns[0])
    } else {
        find_input_in(conns.drop_first(), node, slot)
    }
}

/// The first node with identifier `id`.
pub open spec fn node_in(nodes: Seq<ShaderNode>, id: u32) -> Option<ShaderNode>
    decreases nodes.len(),
{
    if nodes.len() == 0 {
        None
    } else if nodes[0].id == id {
        Some(nodes[0])
    } else {
        node_in(nodes.drop_first(), id)
    }
}

/// The first PBR output node.
pub open spec fn output_in(nodes: Seq<ShaderNode>) -> Option<ShaderNode>
    decreases nodes.len(),
{
    if nodes.len() == 0 {
        None
    } else if nodes[0].kind is PbrOutput {
        Some(nodes[0])
    } else {
        output_in(nodes.drop_first())
    }
}

/// The shader graph: nodes connected by typed connections.
#[derive(Debug, Clone)]
pub struct ShaderGraph {
    pub name: String,
    pub nodes: Vec<ShaderNode>,
    pub connections: Vec<ShaderConnection>,
    next_id: NodeId,
}

impl ShaderGraph {
    /// The graph's name.
    pub closed spec fn name_text(&self) -> Seq<char> {
        self.name@
    }

    /// The nodes, in insertion order.
    pub closed spec fn node_seq(&self) -> Seq<ShaderNode> {
        self.nodes@
    }

    /// The connections, in insertion order.
    pub closed spec fn conn_seq(&self) -> Seq<ShaderConnection> {
        self.connections@
    }

    /// The identifier the next added node gets.
    pub closed spec fn next_node_id(&self) -> u32 {
        self.next_id
    }

    /// An empty graph.
    pub fn new(name: &str) -> (g: Self)
        ensures
            g.name_text() == name@,
            g.node_seq().len() == 0,
            g.conn_seq().len() == 0,
            g.next_node_id() == 0,
    {
        ShaderGraph { name: name.to_owned(), nodes: Vec::new(), connections: Vec::new(), next_id: 0 }
    }

    /// Add a node and return its identifier (identifiers count up from 0).
    pub fn add_node(&mut self, kind: ShaderNodeKind) -> (id: NodeId)
        requires
            old(self).next_node_id() < u32::MAX,
        ensures
            id == old(self).next_node_id(),
            final(self).next_node_id() == id + 1,
            final(self).node_seq().len() == old(self).node_seq().len() + 1,
            final(self).node_seq().drop_last() == old(self).node_seq(),
            final(self).node_seq().last().id == id,
            final(self).node_seq().last().kind == kind,
            final(self).node_seq().last().label@ == kind_text(kind),
            final(self).conn_seq() == old(self).conn_seq(),
            final(self).name_text() == old(self).name_text(),
    {
        let id = self.next_id;
        self.next_id = self.next_id + 1;
        self.nodes.push(ShaderNode::new(id, kind));
        assert(self.nodes@.drop_last() =~= old(self).nodes@);
        id
    }

    /// Connect `from_node:from_slot` to `to_node:to_slot`.
    pub fn connect(&mut self, from_node: NodeId, from_slot: SlotIndex, to_node: NodeId, to_slot: SlotIndex)
        ensures
            final(self).conn_seq() == old(self).conn_seq().push(
                ShaderConnection { from_node, from_slot, to_node, to_slot },
            ),
            final(self).node_seq() == old(self).node_seq(),
            final(self).next_node_id() == old(self).next_node_id(),
            final(self).name_text() == old(self).name_text(),
    {
        self.connections.push(ShaderConnection { from_node, from_slot, to_node, to_slot });
    }

    /// The first connection that drives a particular input slot.
    pub fn find_input(&self, node_id: NodeId, slot: SlotIndex) -> (r: Option<&ShaderConnection>)
        ensures
            match r {
                Some(c) => find_input_in(self.conn_seq(), node_id, slot) == Some(*c),
                None => find_input_in(self.conn_seq(), node_id, slot) == None::<ShaderConnection>,
            },
    {
        let n = self.connections.len();
        let mut i: usize = 0;
        assert(self.connections@.skip(0) =~= self.connections@);
        while i < n
            invariant
                n == self.connections@.len(),
                i <= n,
                find_input_in(self.connections@, node_id, slot) == find_input_in(
                    self.connections@.skip(i as int),
                    node_id,
                    slot,
                ),
            decreases n - i,
        {
            let c = &self.connections[i];
            assert(self.connections@.skip(i as int)[0] == *c);
            assert(self.connections@.skip(i as int).drop_first() =~= self.connections@.skip(i + 1));
            if c.to_node == node_id && c.to_slot == slot {
                return Some(c);
            }
            i = i + 1;
        }
        None
    }

    /// The first node with the given identifier.
    pub fn node(&self, id: NodeId) -> (r: Option<&ShaderNode>)
        ensures
            match r {
                Some(nd) => node_in(self.node_seq(), id) == Some(*nd),
                None => node_in(self.node_seq(), id) == None::<ShaderNode>,
            },
    {
        let n = self.nodes.len();
        let mut i: usize = 0;
        assert(self.nodes@.skip(0) =~= self.nodes@);
        while i < n
            invariant
                n == self.nodes@.len(),
                i <= n,
                node_in(self.nodes@, id) == node_in(self.nodes@.skip(i as int), id),
            decreases n - i,
        {
            let nd = &self.nodes[i];
            assert(self.nodes@.skip(i as int)[0] == *nd);
            assert(self.nodes@.skip(i as int).drop_first() =~= self.nodes@.skip(i + 1));
            if nd.id == id {
                return Some(nd);
            }
            i = i + 1;
        }
        None
    }

    /// The first PBR output node.
    pub fn output_node(&self) -> (r: Option<&ShaderNode>)
        ensures
            match r {
                Some(nd) => output_in(self.node_seq()) == Some(*nd),
                None => output_in(self.node_seq()) == None::<ShaderNode>,
            },
    {
        let n = self.nodes.len();
        let mut i: usize = 0;
        assert(self.nodes@.skip(0) =~= self.nodes@);
        while i < n
            invariant
                n == self.nodes@.len(),
                i <= n,
                output_in(self.nodes@) == output_in(self.nodes@.skip(i as int)),
            decreases n - i,
        {
            let nd = &self.nodes[i];
            assert(self.nodes@.skip(i as int)[0] == *nd);
            assert(self.nodes@.skip(i as int).drop_first() =~= self.nodes@.skip(i + 1));
            if nd.kind.is_pbr_output() {
                return Some(nd);
            }
            i = i + 1;
        }
        None
    }
}

/// FNV-1a (64-bit) of a byte string.
pub open spec fn fnv1a(bytes: Seq<u8>) -> u64
    decreases bytes.len(),
{
    if bytes.len() == 0 {
        0xcbf29ce484222325
    } else {
        let h = fnv1a(bytes.drop_last());
        vstd::wrapping::u64_specs::wrapping_mul(h ^ (bytes.last() as u64), 0x100000001b3)
    }
}

/// FNV-1a hash (64-bit) of a byte string: start from the offset basis,
/// and for each byte xor it in and multiply by the FNV prime, wrapping.
pub fn fnv1a_64(bytes: &[u8]) -> (h: u64)
    ensures
        h == fnv1a(bytes@),
{
    let mut h: u64 = 0xcbf29ce484222325;
    let mut i: usize = 0;
    while i < bytes.len()
        invariant
            i <= bytes@.len(),
            h == fnv1a(bytes@.subrange(0, i as int)),
        decreases bytes@.len() - i,
    {
        proof {
            let s = bytes@.subrange(0, i + 1);
            assert(s.drop_last() =~= bytes@.subrange(0, i as int));
            assert(s.last() == bytes@[i as int]);
        }
        h = h ^ (bytes[i] as u64);
        h = h.wrapping_mul(0x100000001b3);
        i = i + 1;
    }
    assert(bytes@.subrange(0, bytes@.len() as int) =~= bytes@);
    h
}

/// In-degrees as integers.
pub open spec fn as_degrees(m: Map<u32, u32>) -> Map<u32, int> {
    Map::new(|x: u32| m.dom().contains(x), |x: u32| m[x] as int)
}

proof fn lemma_count_into_absent(conns: Seq<ShaderConnection>, x: u32)
    requires
        forall|k: int| 0 <= k < conns.len() ==> conns[k].to_node != x,
    ensures
        count_into(conns, x) == 0,
    decreases conns.len(),
{
    if conns.len() > 0 {
        assert(conns[conns.len() - 1].to_node != x);
        lemma_count_into_absent(conns.drop_last(), x);
    }
}

proof fn lemma_count_into_le(conns: Seq<ShaderConnection>, x: u32)
    ensures
        count_into(conns, x) <= conns.len(),
    decreases conns.len(),
{
    if conns.len() > 0 {
        lemma_count_into_le(conns.drop_last(), x);
    }
}

/// Compiles a [`ShaderGraph`] into a WGSL fragment shader string.
pub struct ShaderGraphCompiler;

impl ShaderGraphCompiler {
    /// Order the nodes with Kahn's algorithm: start from the nodes without
    /// incoming connections (in node order) on a stack, take the top,
    /// lower the in-degree of each connection target, and push targets
    /// that reach zero.  Fails when the order does not list as many
    /// entries as there are nodes (a cycle, or a connection from a
    /// missing node).
    pub fn topological_order(graph: &ShaderGraph) -> (r: Result<Vec<NodeId>, String>)
        requires
            node_ids(graph.node_seq()).no_duplicates(),
            graph.conn_seq().len() < u32::MAX,
        ensures
            match r {
                Ok(o) => topo_result(graph.node_seq(), graph.conn_seq()) == Some(o@),
                Err(e) => topo_result(graph.node_seq(), graph.conn_seq()) is None && e@
                    == "Cycle detected in shader graph"@,
            },
    {
        broadcast use vstd::std_specs::hash::group_hash_axioms;

        let ghost nodes = graph.nodes@;
        let ghost conns = graph.connections@;
        let ghost ids = node_ids(nodes);
        let mut in_degree: HashMap<u32, u32> = HashMap::new();
        let n = graph.nodes.len();
        let mut i: usize = 0;
        while i < n
            invariant
                n == nodes.len(),
                nodes == graph.nodes@,
                ids == node_ids(nodes),
                i <= n,
                in_degree@ == Map::new(|x: u32| ids.take(i as int).contains(x), |x: u32| 0u32),
            decreases n - i,
        {
            let ghost before = in_degree@;
            let id = graph.nodes[i].id;
            in_degree.insert(id, 0);
            proof {
                let t = ids.take(i + 1);
                let p = ids.take(i as int);
                assert(t[i as int] == id);
                assert forall|x: u32| #[trigger] t.contains(x) == (p.contains(x) || x == id) by {
                    if t.contains(x) {
                        let q = choose|q: int| 0 <= q < t.len() && t[q] == x;
                        if q < i {
                            assert(p[q] == x);
                        }
                    }
                    if p.contains(x) {
                        let q = choose|q: int| 0 <= q < p.len() && p[q] == x;
                        assert(t[q] == x);
                    }
                }
                assert(in_degree@ =~= Map::new(|x: u32| t.contains(x), |x: u32| 0u32));
            }
            i = i + 1;
        }
        proof {
            assert(ids.take(n as int) =~= ids);
        }
        let m = graph.connections.len();
        let mut j: usize = 0;
        while j < m
            invariant
                m == conns.len(),
                m < u32::MAX,
                conns == graph.connections@,
                j <= m,
                in_degree@ == Map::new(
                    |x: u32| ids.contains(x) || exists|k: int| 0 <= k < j && conns[k].to_node == x,
                    |x: u32| count_into(conns.take(j as int), x) as u32,
                ),
            decreases m - j,
        {
            let t = graph.connections[j].to_node;
            let ghost before = in_degree@;
            proof {
                lemma_count_into_le(conns.take(j as int), t);
                assert(conns.take(0) =~= Seq::<ShaderConnection>::empty());
            }
            let old_d: u32 = match in_degree.get(&t) {
                Some(d) => *d,
                None => 0,
            };
            proof {
                if !before.dom().contains(t) {
                    lemma_count_into_absent(conns.take(j as int), t);
                }
            }
            in_degree.insert(t, old_d + 1);
            proof {
                assert(conns.take(j + 1).drop_last() =~= conns.take(j as int));
                let dom2 = |x: u32| ids.contains(x) || exists|k: int| 0 <= k < j + 1 && conns[k].to_node == x;
                assert forall|x: u32| #[trigger] in_degree@.dom().contains(x) == dom2(x) by {
                    if x == t {
                        assert(conns[j as int].to_node == x);
                    } else {
                        if exists|k: int| 0 <= k < j + 1 && conns[k].to_node == x {
                            let k = choose|k: int| 0 <= k < j + 1 && conns[k].to_node == x;
                            assert(k < j);
                            assert(before.dom().contains(x));
                        }
                        if before.dom().contains(x) && !ids.contains(x) {
                            let k = choose|k: int| 0 <= k < j && conns[k].to_node == x;
                            assert(0 <= k < j + 1 && conns[k].to_node == x);
                        }
                    }
                }
                assert(in_degree@ =~= Map::new(dom2, |x: u32| count_into(conns.take(j + 1), x) as u32));
            }
            j = j + 1;
        }
        let ghost start = start_degrees(ids, conns);
        proof {
            assert(conns.take(m as int) =~= conns);
            assert forall|x: u32| #[trigger] in_degree@.dom().contains(x) implies in_degree@[x] as int == count_into(conns, x) by {
                lemma_count_into_le(conns, x);
            }
            assert(as_degrees(in_degree@) =~= start);
        }
        let mut stack: Vec<u32> = Vec::new();
        let mut i: usize = 0;
        while i < n
            invariant
                n == nodes.len(),
                nodes == graph.nodes@,
                ids == node_ids(nodes),
                i <= n,
                as_degrees(in_degree@) == start,
                start.dom() == key_set(ids, conns),
                stack@ == ready_prefix(ids, start, i as nat),
            decreases n - i,
        {
            let id = graph.nodes[i].id;
            proof {
                assert(ids[i as int] == id);
                assert(key_set(ids, conns).contains(id));
            }
            match in_degree.get(&id) {
                Some(d) => {
                    if *d == 0 {
                        stack.push(id);
                    }
                },
                None => {},
            }
            i = i + 1;
        }
        let ghost fuel0 = kahn_budget(nodes, conns);
        let mut order: Vec<u32> = Vec::new();
        proof {
            lemma_start_inv(nodes, conns);
            assert(order@ =~= Seq::<u32>::empty());
            lemma_state_bound(ids, conns, order@, stack@, as_degrees(in_degree@));
        }
        while stack.len() > 0
            invariant
                nodes == graph.nodes@,
                conns == graph.connections@,
                ids == node_ids(nodes),
                m == conns.len(),
                fuel0 == kahn_budget(nodes, conns),
                kahn_inv(ids, conns, order@, stack@, as_degrees(in_degree@)),
                kahn_run(conns, order@, stack@, as_degrees(in_degree@), (fuel0 - order@.len()) as nat)
                    == kahn_order(nodes, conns),
                order@.len() + stack@.len() <= ids.len() + conns.len(),
            decreases fuel0 - order@.len(),
        {
            let ghost order0 = order@;
            let ghost stack0 = stack@;
            let ghost deg0 = as_degrees(in_degree@);
            proof {
                lemma_pop_inv(ids, conns, order0, stack0, deg0);
            }
            let v = stack.pop().unwrap();
            order.push(v);
            let mut k: usize = 0;
            proof {
                assert(stack@ == stack0.drop_last());
            }
            while k < m
                invariant
                    conns == graph.connections@,
                    m == conns.len(),
                    k <= m,
                    order@ == order0.push(v),
                    v == stack0.last(),
                    relax_inv(ids, conns, order0, v, k as int, stack@, as_degrees(in_degree@)),
                    (as_degrees(in_degree@), stack@) == relax(conns, k as nat, v, deg0, stack0.drop_last()),
                decreases m - k,
            {
                let c = graph.connections[k];
                proof {
                    lemma_relax_step(ids, conns, order0, v, k as int, stack@, as_degrees(in_degree@));
                }
                if c.from_node == v {
                    match in_degree.get(&c.to_node) {
                        Some(d) => {
                            let nd = *d - 1;
                            in_degree.insert(c.to_node, nd);
                            if nd == 0 {
                                stack.push(c.to_node);
                            }
                        },
                        None => {},
                    }
                }
                proof {
                    let dd = as_degrees(in_degree@);
                    assert(dd =~= (if c.from_node == v && deg_contains(relax(conns, k as nat, v, deg0, stack0.drop_last()).0, c.to_node) {
                        relax(conns, k as nat, v, deg0, stack0.drop_last()).0.insert(c.to_node, relax(conns, k as nat, v, deg0, stack0.drop_last()).0[c.to_node] - 1)
                    } else {
                        relax(conns, k as nat, v, deg0, stack0.drop_last()).0
                    }));
                }
                k = k + 1;
            }
            proof {
                lemma_relax_done(ids, conns, order0, v, stack@, as_degrees(in_degree@));
                lemma_state_bound(ids, conns, order@, stack@, as_degrees(in_degree@));
                lemma_state_bound(ids, conns, order0, stack0, deg0);
            }
        }
        if order.len() != n {
            return Err(String::from_str("Cycle detected in shader graph"));
        }
        Ok(order)
    }
}

/// The WGSL variable holding output `slot` of node `id`: `node_<id>_<slot>`.
pub open spec fn var_text(id: u32, slot: u32) -> Seq<char> {
    "node_"@ + dec(id as int) + "_"@ + dec(slot as int)
}

/// The WGSL expression feeding input `slot` of node `id`: the variable of
/// the first connection into it, or `default` when none.
pub open spec fn input_text(conns: Seq<ShaderConnection>, id: u32, slot: u32, default: Seq<char>) -> Seq<char> {
    match find_input_in(conns, id, slot) {
        Some(c) => var_text(c.from_node, c.from_slot),
        None => default,
    }
}

/// A `let` line binding output 0 of node `id`, indented by four spaces.
pub open spec fn full_let(id: u32, rhs: Seq<char>) -> Seq<char> {
    "    let "@ + var_text(id, 0) + " = "@ + rhs + ";\n"@
}

/// A `let` line binding output 0 of node `id`, indented by one space.
pub open spec fn short_let(id: u32, rhs: Seq<char>) -> Seq<char> {
    " let "@ + var_text(id, 0) + " = "@ + rhs + ";\n"@
}

/// `f(a, b)`: the opening text `f` (name and parenthesis), then the
/// arguments separated by commas.
pub open spec fn call2_text(f: Seq<char>, a: Seq<char>, b: Seq<char>) -> Seq<char> {
    f + a + ", "@ + b + ")"@
}

/// `f(a, b, c)`.
pub open spec fn call3_text(f: Seq<char>, a: Seq<char>, b: Seq<char>, c: Seq<char>) -> Seq<char> {
    f + a + ", "@ + b + ", "@ + c + ")"@
}

/// `f(a, b, c, d)`.
pub open spec fn call4_text(f: Seq<char>, a: Seq<char>, b: Seq<char>, c: Seq<char>, d: Seq<char>) -> Seq<char> {
    f + a + ", "@ + b + ", "@ + c + ", "@ + d + ")"@
}

/// `a op b`.
pub open spec fn binop_text(a: Seq<char>, op: Seq<char>, b: Seq<char>) -> Seq<char> {
    a + op + b
}

/// `a` between an opening and a closing text.
pub open spec fn wrap_text(open: Seq<char>, a: Seq<char>, close: Seq<char>) -> Seq<char> {
    open + a + close
}

/// Sampling texture binding `slot` at `uv`.
pub open spec fn texture_text(slot: u32, uv: Seq<char>) -> Seq<char> {
    "textureSample(tex_"@ + dec(slot as int) + ", samp_"@ + dec(slot as int) + ", "@ + uv + ")"@
}

/// Schlick Fresnel of normal `n`, view `v` and exponent `e`.
pub open spec fn fresnel_text(n: Seq<char>, v: Seq<char>, e: Seq<char>) -> Seq<char> {
    "fresnel_schlick(max(dot("@ + n + ", "@ + v + "), 0.0), "@ + e + ")"@
}

/// Splitting the vector `v` into the four outputs of node `id`: outputs
/// 0 to 3 are its x, y, z and w components.
pub open spec fn split_text(id: u32, v: Seq<char>) -> Seq<char> {
    short_let(id, v + ".x"@) + " let node_"@ + dec(id as int) + "_1 = "@ + v + ".y;\n"@ + " let node_"@ + dec(
        id as int,
    ) + "_2 = "@ + v + ".z;\n"@ + " let node_"@ + dec(id as int) + "_3 = "@ + v + ".w;\n"@
}

/// The WGSL a node contributes to the material function.
pub open spec fn node_text(conns: Seq<ShaderConnection>, node: ShaderNode) -> Seq<char> {
    let id = node.id;
    match node.kind {
        ShaderNodeKind::TexCoord { .. } => short_let(id, "input.uv"@),
        ShaderNodeKind::WorldPosition => full_let(id, "input.world_pos"@),
        ShaderNodeKind::WorldNormal => full_let(id, "input.world_normal"@),
        ShaderNodeKind::ViewDirection => full_let(id, "input.view_dir"@),
        ShaderNodeKind::Time => full_let(id, "0.0"@),
        ShaderNodeKind::ConstFloat(v) => full_let(id, v.fixed@),
        ShaderNodeKind::ConstVec2(a, b) => full_let(id, call2_text("vec2<f32>("@, a.fixed@, b.fixed@)),
        ShaderNodeKind::ConstVec3(a, b, c) => full_let(id, call3_text("vec3<f32>("@, a.fixed@, b.fixed@, c.fixed@)),
        ShaderNodeKind::ConstVec4(a, b, c, d) => full_let(id, call4_text("vec4<f32>("@, a.fixed@, b.fixed@, c.fixed@, d.fixed@)),
        ShaderNodeKind::ConstColor(a, b, c, d) => full_let(id, call4_text("vec4<f32>("@, a.fixed@, b.fixed@, c.fixed@, d.fixed@)),
        ShaderNodeKind::TextureSample { binding_slot } => full_let(id, texture_text(binding_slot, input_text(conns, id, 0, "input.uv"@))),
        ShaderNodeKind::Add => full_let(id, binop_text(input_text(conns, id, 0, "0.0"@), " + "@, input_text(conns, id, 1, "0.0"@))),
        ShaderNodeKind::Subtract => full_let(id, binop_text(input_text(conns, id, 0, "0.0"@), " - "@, input_text(conns, id, 1, "0.0"@))),
        ShaderNodeKind::Multiply => full_let(id, binop_text(input_text(conns, id, 0, "1.0"@), " * "@, input_text(conns, id, 1, "1.0"@))),
        ShaderNodeKind::Divide => full_let(id, binop_text(input_text(conns, id, 0, "1.0"@), " / "@, input_text(conns, id, 1, "1.0"@))),
        ShaderNodeKind::Power => full_let(id, call2_text("pow("@, input_text(conns, id, 0, "1.0"@), input_text(conns, id, 1, "1.0"@))),
        ShaderNodeKind::Dot => full_let(id, call2_text("dot("@, input_text(conns, id, 0, "vec3<f32>(0.0)"@), input_text(conns, id, 1, "vec3<f32>(0.0)"@))),
        ShaderNodeKind::Cross => full_let(id, call2_text("cross("@, input_text(conns, id, 0, "vec3<f32>(0.0)"@), input_text(conns, id, 1, "vec3<f32>(0.0)"@))),
        ShaderNodeKind::Sqrt => full_let(id, wrap_text("sqrt("@, input_text(conns, id, 0, "0.0"@), ")"@)),
        ShaderNodeKind::Abs => full_let(id, wrap_text("abs("@, input_text(conns, id, 0, "0.0"@), ")"@)),
        ShaderNodeKind::Normalize => full_let(id, wrap_text("normalize("@, input_text(conns, id, 0, "vec3<f32>(0.0, 1.0, 0.0)"@), ")"@)),
        ShaderNodeKind::Length => full_let(id, wrap_text("length("@, input_text(conns, id, 0, "vec3<f32>(0.0)"@), ")"@)),
        ShaderNodeKind::Saturate => full_let(id, wrap_text("clamp("@, input_text(conns, id, 0, "0.0"@), ", 0.0, 1.0)"@)),
        ShaderNodeKind::Negate => full_let(id, wrap_text("-("@, input_text(conns, id, 0, "0.0"@), ")"@)),
        ShaderNodeKind::OneMinus => full_let(id, wrap_text("1.0 - ("@, input_text(conns, id, 0, "0.0"@), ")"@)),
        ShaderNodeKind::Clamp => full_let(id, call3_text("clamp("@, input_text(conns, id, 0, "0.0"@), input_text(conns, id, 1, "0.0"@), input_text(conns, id, 2, "1.0"@))),
        ShaderNodeKind::Lerp => full_let(id, call3_text("mix("@, input_text(conns, id, 0, "0.0"@), input_text(conns, id, 1, "1.0"@), input_text(conns, id, 2, "0.5"@))),
        ShaderNodeKind::Smoothstep => full_let(id, call3_text("smoothstep("@, input_text(conns, id, 0, "0.0"@), input_text(conns, id, 1, "1.0"@), input_text(conns, id, 2, "0.5"@))),
        ShaderNodeKind::Fresnel => full_let(id, fresnel_text(input_text(conns, id, 0, "input.world_normal"@), input_text(conns, id, 1, "input.view_dir"@), input_text(conns, id, 2, "5.0"@))),
        ShaderNodeKind::If => full_let(id, call3_text("select("@, input_text(conns, id, 3, "0.0"@), input_text(conns, id, 2, "1.0"@), binop_text(input_text(conns, id, 0, "0.0"@), " > "@, input_text(conns, id, 1, "0.5"@)))),
        ShaderNodeKind::SplitVec4 => split_text(id, input_text(conns, id, 0, "vec4<f32>(0.0)"@)),
        ShaderNodeKind::CombineVec4 => full_let(id, call4_text("vec4<f32>("@, input_text(conns, id, 0, "0.0"@), input_text(conns, id, 1, "0.0"@), input_text(conns, id, 2, "0.0"@), input_text(conns, id, 3, "1.0"@))),
        ShaderNodeKind::PbrOutput => Seq::empty(),
    }
}

fn call2(f: &str, a: &str, b: &str) -> (r: String)
    ensures
        r@ == call2_text(f@, a@, b@),
{
    let mut s = String::from_str(f);
    push(&mut s, a);
    push(&mut s, ", ");
    push(&mut s, b);
    push(&mut s, ")");
    s
}

fn call3(f: &str, a: &str, b: &str, c: &str) -> (r: String)
    ensures
        r@ == call3_text(f@, a@, b@, c@),
{
    let mut s = String::from_str(f);
    push(&mut s, a);
    push(&mut s, ", ");
    push(&mut s, b);
    push(&mut s, ", ");
    push(&mut s, c);
    push(&mut s, ")");
    s
}

fn call4(f: &str, a: &str, b: &str, c: &str, d: &str) -> (r: String)
    ensures
        r@ == call4_text(f@, a@, b@, c@, d@),
{
    let mut s = String::from_str(f);
    push(&mut s, a);
    push(&mut s, ", ");
    push(&mut s, b);
    push(&mut s, ", ");
    push(&mut s, c);
    push(&mut s, ", ");
    push(&mut s, d);
    push(&mut s, ")");
    s
}

fn binop(a: &str, op: &str, b: &str) -> (r: String)
    ensures
        r@ == binop_text(a@, op@, b@),
{
    let mut s = String::from_str(a);
    push(&mut s, op);
    push(&mut s, b);
    s
}

fn wrap(open: &str, a: &str, close: &str) -> (r: String)
    ensures
        r@ == wrap_text(open@, a@, close@),
{
    let mut s = String::from_str(open);
    push(&mut s, a);
    push(&mut s, close);
    s
}

fn texture_call(slot: u32, uv: &str) -> (r: String)
    ensures
        r@ == texture_text(slot, uv@),
{
    let mut s = String::from_str("textureSample(tex_");
    push_u32(&mut s, slot);
    push(&mut s, ", samp_");
    push_u32(&mut s, slot);
    push(&mut s, ", ");
    push(&mut s, uv);
    push(&mut s, ")");
    assert(s@ =~= texture_text(slot, uv@));
    s
}

fn fresnel_call(n: &str, v: &str, e: &str) -> (r: String)
    ensures
        r@ == fresnel_text(n@, v@, e@),
{
    let mut s = String::from_str("fresnel_schlick(max(dot(");
    push(&mut s, n);
    push(&mut s, ", ");
    push(&mut s, v);
    push(&mut s, "), 0.0), ");
    push(&mut s, e);
    push(&mut s, ")");
    s
}

fn push_full_let(s: &mut String, id: u32, rhs: &str)
    ensures
        final(s)@ == old(s)@ + full_let(id, rhs@),
{
    push(s, "    let ");
    push_var(s, id, 0);
    push(s, " = ");
    push(s, rhs);
    push(s, ";\n");
    assert(final(s)@ =~= old(s)@ + full_let(id, rhs@));
}

fn push_short_let(s: &mut String, id: u32, rhs: &str)
    ensures
        final(s)@ == old(s)@ + short_let(id, rhs@),
{
    push(s, " let ");
    push_var(s, id, 0);
    push(s, " = ");
    push(s, rhs);
    push(s, ";\n");
    assert(final(s)@ =~= old(s)@ + short_let(id, rhs@));
}

fn push_split(s: &mut String, id: u32, v: &str)
    ensures
        final(s)@ == old(s)@ + split_text(id, v@),
{
    let mut first = String::from_str(v);
    push(&mut first, ".x");
    push_short_let(s, id, first.as_str());
    push(s, " let node_");
    push_u32(s, id);
    push(s, "_1 = ");
    push(s, v);
    push(s, ".y;\n");
    push(s, " let node_");
    push_u32(s, id);
    push(s, "_2 = ");
    push(s, v);
    push(s, ".z;\n");
    push(s, " let node_");
    push_u32(s, id);
    push(s, "_3 = ");
    push(s, v);
    push(s, ".w;\n");
    assert(final(s)@ =~= old(s)@ + split_text(id, v@));
}

fn push_var(s: &mut String, id: u32, slot: u32)
    ensures
        final(s)@ == old(s)@ + var_text(id, slot),
{
    push(s, "node_");
    push_u32(s, id);
    push(s, "_");
    push_u32(s, slot);
    assert(final(s)@ =~= old(s)@ + var_text(id, slot));
}

impl ShaderGraphCompiler {
    /// The WGSL expression for a node's input slot: the variable of the
    /// first connection into it, or the given default literal.
    pub fn input_var(graph: &ShaderGraph, node_id: NodeId, slot: SlotIndex, default: &str) -> (r: String)
        ensures
            r@ == input_text(graph.conn_seq(), node_id, slot, default@),
    {
        match graph.find_input(node_id, slot) {
            Some(conn) => {
                let mut s = String::new();
                push_var(&mut s, conn.from_node, conn.from_slot);
                s
            },
            None => String::from_str(default),
        }
    }

    /// Append the WGSL of one node: a `let` per output slot (none for the
    /// PBR output node, which the compiler wires itself).
    pub fn emit_node(wgsl: &mut String, graph: &ShaderGraph, node: &ShaderNode)
        ensures
            final(wgsl)@ == old(wgsl)@ + node_text(graph.conn_seq(), *node),
    {
        match &node.kind {
            ShaderNodeKind::TexCoord { .. } | ShaderNodeKind::WorldPosition | ShaderNodeKind::WorldNormal | ShaderNodeKind::ViewDirection | ShaderNodeKind::Time | ShaderNodeKind::ConstFloat(..) | ShaderNodeKind::ConstVec2(..) | ShaderNodeKind::ConstVec3(..) | ShaderNodeKind::ConstVec4(..) | ShaderNodeKind::ConstColor(..) | ShaderNodeKind::TextureSample { .. } => Self::emit_source_node(wgsl, graph, node),
            ShaderNodeKind::Add | ShaderNodeKind::Subtract | ShaderNodeKind::Multiply | ShaderNodeKind::Divide | ShaderNodeKind::Power | ShaderNodeKind::Dot | ShaderNodeKind::Cross => Self::emit_binary_node(wgsl, graph, node),
            ShaderNodeKind::Sqrt | ShaderNodeKind::Abs | ShaderNodeKind::Normalize | ShaderNodeKind::Length | ShaderNodeKind::Saturate | ShaderNodeKind::Negate | ShaderNodeKind::OneMinus => Self::emit_unary_node(wgsl, graph, node),
            ShaderNodeKind::Clamp | ShaderNodeKind::Lerp | ShaderNodeKind::Smoothstep | ShaderNodeKind::Fresnel | ShaderNodeKind::If | ShaderNodeKind::SplitVec4 | ShaderNodeKind::CombineVec4 | ShaderNodeKind::PbrOutput => Self::emit_mixing_node(wgsl, graph, node),
        }
    }

    fn emit_source_node(wgsl: &mut String, graph: &ShaderGraph, node: &ShaderNode)
        requires
            node.kind is TexCoord || node.kind is WorldPosition || node.kind is WorldNormal || node.kind is ViewDirection || node.kind is Time || node.kind is ConstFloat || node.kind is ConstVec2 || node.kind is ConstVec3 || node.kind is ConstVec4 || node.kind is ConstColor || node.kind is TextureSample,
        ensures
            final(wgsl)@ == old(wgsl)@ + node_text(graph.conn_seq(), *node),
    {
        let id = node.id;
        match &node.kind {
            ShaderNodeKind::TexCoord { .. } => {
                let rhs = String::from_str("input.uv");
                push_short_let(wgsl, id, rhs.as_str());
            },
            ShaderNodeKind::WorldPosition => {
                let rhs = String::from_str("input.world_pos");
                push_full_let(wgsl, id, rhs.as_str());
            },
            ShaderNodeKind::WorldNormal => {
                let rhs = String::from_str("input.world_normal");
                push_full_let(wgsl, id, rhs.as_str());
            },
            ShaderNodeKind::ViewDirection => {
                let rhs = String::from_str("input.view_dir");
                push_full_let(wgsl, id, rhs.as_str());
            },
            ShaderNodeKind::Time => {
                let rhs = String::from_str("0.0");
                push_full_let(wgsl, id, rhs.as_str());
            },
            ShaderNodeKind::ConstFloat(v) => {
                let rhs = String::from_str(v.fixed.as_str());
                push_full_let(wgsl, id, rhs.as_str());
            },
            ShaderNodeKind::ConstVec2(a, b) => {
                let rhs = call2("vec2<f32>(", a.fixed.as_str(), b.fixed.as_str());
                push_full_let(wgsl, id, rhs.as_str());
            },
            ShaderNodeKind::ConstVec3(a, b, c) => {
                let rhs = call3("vec3<f32>(", a.fixed.as_str(), b.fixed.as_str(), c.fixed.as_str());
                push_full_let(wgsl, id, rhs.as_str());
            },
            ShaderNodeKind::ConstVec4(a, b, c, d) => {
                let rhs = call4("vec4<f32>(", a.fixed.as_str(), b.fixed.as_str(), c.fixed.as_str(), d.fixed.as_str());
                push_full_let(wgsl, id, rhs.as_str());
            },
            ShaderNodeKind::ConstColor(a, b, c, d) => {
                let rhs = call4("vec4<f32>(", a.fixed.as_str(), b.fixed.as_str(), c.fixed.as_str(), d.fixed.as_str());
                push_full_let(wgsl, id, rhs.as_str());
            },
            ShaderNodeKind::TextureSample { binding_slot } => {
                let in0 = Self::input_var(graph, id, 0, "input.uv");
                let rhs = texture_call(*binding_slot, in0.as_str());
                push_full_let(wgsl, id, rhs.as_str());
            },
            _ => {},
        }
    }

    fn emit_binary_node(wgsl: &mut String, graph: &ShaderGraph, node: &ShaderNode)
        requires
            node.kind is Add || node.kind is Subtract || node.kind is Multiply || node.kind is Divide || node.kind is Power || node.kind is Dot || node.kind is Cross,
        ensures
            final(wgsl)@ == old(wgsl)@ + node_text(graph.conn_seq(), *node),
    {
        let id = node.id;
        match &node.kind {
            ShaderNodeKind::Add => {
                let in0 = Self::input_var(graph, id, 0, "0.0");
                let in1 = Self::input_var(graph, id, 1, "0.0");
                let rhs = binop(in0.as_str(), " + ", in1.as_str());
                push_full_let(wgsl, id, rhs.as_str());
            },
            ShaderNodeKind::Subtract => {
                let in0 = Self::input_var(graph, id, 0, "0.0");
                let in1 = Self::input_var(graph, id, 1, "0.0");
                let rhs = binop(in0.as_str(), " - ", in1.as_str());
                push_full_let(wgsl, id, rhs.as_str());
            },
            ShaderNodeKind::Multiply => {
                let in0 = Self::input_var(graph, id, 0, "1.0");
                let in1 = Self::input_var(graph, id, 1, "1.0");
                let rhs = binop(in0.as_str(), " * ", in1.as_str());
                push_full_let(wgsl, id, rhs.as_str());
            },
            ShaderNodeKind::Divide => {
                let in0 = Self::input_var(graph, id, 0, "1.0");
                let in1 = Self::input_var(graph, id, 1, "1.0");
                let rhs = binop(in0.as_str(), " / ", in1.as_str());
                push_full_let(wgsl, id, rhs.as_str());
            },
            ShaderNodeKind::Power => {
                let in0 = Self::input_var(graph, id, 0, "1.0");
                let in1 = Self::input_var(graph, id, 1, "1.0");
                let rhs = call2("pow(", in0.as_str(), in1.as_str());
                push_full_let(wgsl, id, rhs.as_str());
            },
            ShaderNodeKind::Dot => {
                let in0 = Self::input_var(graph, id, 0, "vec3<f32>(0.0)");
                let in1 = Self::input_var(graph, id, 1, "vec3<f32>(0.0)");
                let rhs = call2("dot(", in0.as_str(), in1.as_str());
                push_full_let(wgsl, id, rhs.as_str());
            },
            ShaderNodeKind::Cross => {
                let in0 = Self::input_var(graph, id, 0, "vec3<f32>(0.0)");
                let in1 = Self::input_var(graph, id, 1, "vec3<f32>(0.0)");
                let rhs = call2("cross(", in0.as_str(), in1.as_str());
                push_full_let(wgsl, id, rhs.as_str());
            },
            _ => {},
        }
    }

    fn emit_unary_node(wgsl: &mut String, graph: &ShaderGraph, node: &ShaderNode)
        requires
            node.kind is Sqrt || node.kind is Abs || node.kind is Normalize || node.kind is Length || node.kind is Saturate || node.kind is Negate || node.kind is OneMinus,
        ensures
            final(wgsl)@ == old(wgsl)@ + node_text(graph.conn_seq(), *node),
    {
        let id = node.id;
        match &node.kind {
            ShaderNodeKind::Sqrt => {
                let in0 = Self::input_var(graph, id, 0, "0.0");
                let rhs = wrap("sqrt(", in0.as_str(), ")");
                push_full_let(wgsl, id, rhs.as_str());
            },
            ShaderNodeKind::Abs => {
                let in0 = Self::input_var(graph, id, 0, "0.0");
                let rhs = wrap("abs(", in0.as_str(), ")");
                push_full_let(wgsl, id, rhs.as_str());
            },
            ShaderNodeKind::Normalize => {
                let in0 = Self::input_var(graph, id, 0, "vec3<f32>(0.0, 1.0, 0.0)");
                let rhs = wrap("normalize(", in0.as_str(), ")");
                push_full_let(wgsl, id, rhs.as_str());
            },
            ShaderNodeKind::Length => {
                let in0 = Self::input_var(graph, id, 0, "vec3<f32>(0.0)");
                let rhs = wrap("length(", in0.as_str(), ")");
                push_full_let(wgsl, id, rhs.as_str());
            },
            ShaderNodeKind::Saturate => {
                let in0 = Self::input_var(graph, id, 0, "0.0");
                let rhs = wrap("clamp(", in0.as_str(), ", 0.0, 1.0)");
                push_full_let(wgsl, id, rhs.as_str());
            },
            ShaderNodeKind::Negate => {
                let in0 = Self::input_var(graph, id, 0, "0.0");
                let rhs = wrap("-(", in0.as_str(), ")");
                push_full_let(wgsl, id, rhs.as_str());
            },
            ShaderNodeKind::OneMinus => {
                let in0 = Self::input_var(graph, id, 0, "0.0");
                let rhs = wrap("1.0 - (", in0.as_str(), ")");
                push_full_let(wgsl, id, rhs.as_str());
            },
            _ => {},
        }
    }

    fn emit_mixing_node(wgsl: &mut String, graph: &ShaderGraph, node: &ShaderNode)
        requires
            node.kind is Clamp || node.kind is Lerp || node.kind is Smoothstep || node.kind is Fresnel || node.kind is If || node.kind is SplitVec4 || node.kind is CombineVec4 || node.kind is PbrOutput,
        ensures
            final(wgsl)@ == old(wgsl)@ + node_text(graph.conn_seq(), *node),
    {
        let id = node.id;
        match &node.kind {
            ShaderNodeKind::Clamp => {
                let in0 = Self::input_var(graph, id, 0, "0.0");
                let in1 = Self::input_var(graph, id, 1, "0.0");
                let in2 = Self::input_var(graph, id, 2, "1.0");
                let rhs = call3("clamp(", in0.as_str(), in1.as_str(), in2.as_str());
                push_full_let(wgsl, id, rhs.as_str());
            },
            ShaderNodeKind::Lerp => {
                let in0 = Self::input_var(graph, id, 0, "0.0");
                let in1 = Self::input_var(graph, id, 1, "1.0");
                let in2 = Self::input_var(graph, id, 2, "0.5");
                let rhs = call3("mix(", in0.as_str(), in1.as_str(), in2.as_str());
                push_full_let(wgsl, id, rhs.as_str());
            },
            ShaderNodeKind::Smoothstep => {
                let in0 = Self::input_var(graph, id, 0, "0.0");
                let in1 = Self::input_var(graph, id, 1, "1.0");
                let in2 = Self::input_var(graph, id, 2, "0.5");
                let rhs = call3("smoothstep(", in0.as_str(), in1.as_str(), in2.as_str());
                push_full_let(wgsl, id, rhs.as_str());
            },
            ShaderNodeKind::Fresnel => {
                let in0 = Self::input_var(graph, id, 0, "input.world_normal");
                let in1 = Self::input_var(graph, id, 1, "input.view_dir");
                let in2 = Self::input_var(graph, id, 2, "5.0");
                let rhs = fresnel_call(in0.as_str(), in1.as_str(), in2.as_str());
                push_full_let(wgsl, id, rhs.as_str());
            },
            ShaderNodeKind::If => {
                let in3 = Self::input_var(graph, id, 3, "0.0");
                let in2 = Self::input_var(graph, id, 2, "1.0");
                let in0 = Self::input_var(graph, id, 0, "0.0");
                let in1 = Self::input_var(graph, id, 1, "0.5");
                let cmp_text = binop(in0.as_str(), " > ", in1.as_str());
                let rhs = call3("select(", in3.as_str(), in2.as_str(), cmp_text.as_str());
                push_full_let(wgsl, id, rhs.as_str());
            },
            ShaderNodeKind::SplitVec4 => {
                let in0 = Self::input_var(graph, id, 0, "vec4<f32>(0.0)");
                push_split(wgsl, id, in0.as_str());
            },
            ShaderNodeKind::CombineVec4 => {
                let in0 = Self::input_var(graph, id, 0, "0.0");
                let in1 = Self::input_var(graph, id, 1, "0.0");
                let in2 = Self::input_var(graph, id, 2, "0.0");
                let in3 = Self::input_var(graph, id, 3, "1.0");
                let rhs = call4("vec4<f32>(", in0.as_str(), in1.as_str(), in2.as_str(), in3.as_str());
                push_full_let(wgsl, id, rhs.as_str());
            },
            ShaderNodeKind::PbrOutput => {

            },
            _ => {},
        }
    }
}

/// Node `i` samples texture binding `slot`.
pub open spec fn samples_slot(nodes: Seq<ShaderNode>, i: int, slot: u32) -> bool {
    nodes[i].kind matches ShaderNodeKind::TextureSample { binding_slot } && binding_slot == slot
}

/// Some node samples texture binding `slot`.
pub open spec fn uses_slot(nodes: Seq<ShaderNode>, slot: u32) -> bool {
    exists|i: int| 0 <= i < nodes.len() && #[trigger] samples_slot(nodes, i, slot)
}

/// Strictly increasing.
pub open spec fn increasing(s: Seq<u32>) -> bool {
    forall|i: int, j: int| 0 <= i < j < s.len() ==> s[i] < s[j]
}

/// The texture bindings the nodes sample, each once, in increasing order.
pub open spec fn texture_slots(nodes: Seq<ShaderNode>) -> Seq<u32> {
    choose|s: Seq<u32>| increasing(s) && forall|x: u32| #[trigger] s.contains(x) == uses_slot(nodes, x)
}

/// The texture and sampler declarations of the `i`-th used binding.
pub open spec fn binding_pair(i: int, slot: u32) -> Seq<char> {
    "@group(2) @binding("@ + dec(2 * i) + ") var tex_"@ + dec(slot as int) + ": texture_2d<f32>;\n"@
        + "@group(2) @binding("@ + dec(2 * i + 1) + ") var samp_"@ + dec(slot as int) + ": sampler;\n"@
}

/// Declarations of the first `k` bindings.
pub open spec fn binding_lines(slots: Seq<u32>, k: nat) -> Seq<char>
    decreases k,
{
    if k == 0 {
        Seq::empty()
    } else {
        binding_lines(slots, (k - 1) as nat) + binding_pair(k - 1, slots[k - 1])
    }
}

/// The two comment lines that open the generated WGSL, and a blank line.
pub open spec fn header_text(name: Seq<char>) -> Seq<char> {
    "// Auto-generated by ShaderGraphCompiler\n"@ + "// Graph: "@ + name + "\n"@ + "\n"@
}

/// The fixed text between the bindings and the node code: the input and
/// output structures, the Fresnel helper, and the opening of the material
/// function.
pub open spec fn preamble_text() -> Seq<char> {
    "\n"@ + "struct MaterialInput {\n"@ + "    @location(0) uv: vec2<f32>,\n"@ + "    @location(1) world_pos: vec3<f32>,\n"@ + "    @location(2) world_normal: vec3<f32>,\n"@ + "    @location(3) view_dir: vec3<f32>,\n"@ + "};\n"@ + "\n"@ + "struct PbrOutput {\n"@ + "    base_color: vec4<f32>,\n"@ + "    normal: vec3<f32>,\n"@ + "    roughness: f32,\n"@ + "    metallic: f32,\n"@ + "    emissive: vec3<f32>,\n"@ + "};\n"@ + "\n"@ + "fn fresnel_schlick(cos_theta: f32, exp: f32) -> f32 {\n"@ + "    return pow(1.0 - cos_theta, exp);\n"@ + "}\n"@ + "\n"@ + "fn evaluate_material(input: MaterialInput) -> PbrOutput {\n"@
}

/// Code of the nodes listed in `order` (first `k` entries); an entry with
/// no node contributes nothing.
pub open spec fn body_text(nodes: Seq<ShaderNode>, conns: Seq<ShaderConnection>, order: Seq<u32>, k: nat) -> Seq<char>
    decreases k,
{
    if k == 0 {
        Seq::empty()
    } else {
        body_text(nodes, conns, order, (k - 1) as nat) + match node_in(nodes, order[k - 1]) {
            Some(n) => node_text(conns, n),
            None => Seq::empty(),
        }
    }
}

/// The assignments of the PBR output fields from the output node's inputs
/// (or their defaults), and the end of the material function.
pub open spec fn wiring_text(conns: Seq<ShaderConnection>, out: u32) -> Seq<char> {
    "    var out: PbrOutput;\n"@ + "    out.base_color = "@ + input_text(conns, out, 0, "vec4<f32>(1.0, 1.0, 1.0, 1.0)"@)
        + ";\n"@ + "    out.normal     = "@ + input_text(conns, out, 1, "input.world_normal"@) + ";\n"@
        + "    out.roughness  = "@ + input_text(conns, out, 2, "0.5"@) + ";\n"@ + "    out.metallic   = "@
        + input_text(conns, out, 3, "0.0"@) + ";\n"@ + "    out.emissive   = "@ + input_text(
        conns,
        out,
        4,
        "vec3<f32>(0.0)"@,
    ) + ";\n"@
}

/// The end of the material function and the fragment entry point.
pub open spec fn entry_text() -> Seq<char> {
    "    return out;\n"@ + "}\n"@ + "\n"@ + "@fragment\n"@ + "fn fs_main(input: MaterialInput) -> @location(0) vec4<f32> {\n"@ + "    let mat = evaluate_material(input);\n"@ + "    return mat.base_color;\n"@ + "}\n"@
}

/// The fixed text of a colour-only material (no PBR output structure):
/// the input structure, the Fresnel helper, and the opening of a material
/// function that returns a colour.
pub open spec fn color_preamble_text() -> Seq<char> {
    "\n"@ + "struct MaterialInput {\n"@ + "    @location(0) uv: vec2<f32>,\n"@ + "    @location(1) world_pos: vec3<f32>,\n"@ + "    @location(2) world_normal: vec3<f32>,\n"@ + "    @location(3) view_dir: vec3<f32>,\n"@ + "};\n"@ + "\n"@ + "fn fresnel_schlick(cos_theta: f32, exp: f32) -> f32 {\n"@ + "    return pow(1.0 - cos_theta, exp);\n"@ + "}\n"@ + "\n"@ + "fn evaluate_material(input: MaterialInput) -> vec4<f32> {\n"@
}

/// The end of a colour-only material function, returning the output
/// node's colour input, and the fragment entry point.
pub open spec fn color_tail_text(conns: Seq<ShaderConnection>, out: u32) -> Seq<char> {
    "    return "@ + input_text(conns, out, 0, "vec4<f32>(1.0, 1.0, 1.0, 1.0)"@) + ";\n"@ + "}\n"@ + "\n"@
        + "@fragment\n"@ + "fn fs_main(input: MaterialInput) -> @location(0) vec4<f32> {\n"@
        + "    return evaluate_material(input);\n"@ + "}\n"@
}

/// The WGSL of a graph, given the node order and the output node: with the
/// PBR output structure when `pbr`, else as a colour-only material.
pub open spec fn compiled_text_for(
    pbr: bool,
    name: Seq<char>,
    nodes: Seq<ShaderNode>,
    conns: Seq<ShaderConnection>,
    order: Seq<u32>,
    out: u32,
) -> Seq<char> {
    if pbr {
        header_text(name) + binding_lines(texture_slots(nodes), texture_slots(nodes).len()) + preamble_text()
            + body_text(nodes, conns, order, order.len()) + wiring_text(conns, out) + entry_text()
    } else {
        header_text(name) + binding_lines(texture_slots(nodes), texture_slots(nodes).len()) + color_preamble_text()
            + body_text(nodes, conns, order, order.len()) + color_tail_text(conns, out)
    }
}

/// The WGSL of a graph, given the node order and the output node.
pub open spec fn compiled_text(
    name: Seq<char>,
    nodes: Seq<ShaderNode>,
    conns: Seq<ShaderConnection>,
    order: Seq<u32>,
    out: u32,
) -> Seq<char> {
    compiled_text_for(true, name, nodes, conns, order, out)
}

/// What compiling a graph yields with or without the PBR output
/// structure: an error without a PBR output node or when the nodes cannot
/// be ordered, else the WGSL text.
pub open spec fn compile_result_for(pbr: bool, name: Seq<char>, nodes: Seq<ShaderNode>, conns: Seq<ShaderConnection>) -> Result<
    Seq<char>,
    Seq<char>,
> {
    match output_in(nodes) {
        None => Err("No PbrOutput node found"@),
        Some(o) => match topo_result(nodes, conns) {
            None => Err("Cycle detected in shader graph"@),
            Some(order) => Ok(compiled_text_for(pbr, name, nodes, conns, order, o.id)),
        },
    }
}

/// What compiling a graph yields: an error without a PBR output node or
/// when the nodes cannot be ordered, else the WGSL text.
pub open spec fn compile_result(name: Seq<char>, nodes: Seq<ShaderNode>, conns: Seq<ShaderConnection>) -> Result<
    Seq<char>,
    Seq<char>,
> {
    match output_in(nodes) {
        None => Err("No PbrOutput node found"@),
        Some(o) => match topo_result(nodes, conns) {
            None => Err("Cycle detected in shader graph"@),
            Some(order) => Ok(compiled_text(name, nodes, conns, order, o.id)),
        },
    }
}

proof fn lemma_increasing_unique(a: Seq<u32>, b: Seq<u32>)
    requires
        increasing(a),
        increasing(b),
        forall|x: u32| #![trigger a.contains(x)] #![trigger b.contains(x)] a.contains(x) == b.contains(x),
    ensures
        a == b,
    decreases a.len(),
{
    if a.len() == 0 {
        if b.len() > 0 {
            assert(b.contains(b[0]));
        }
        assert(a =~= b);
    } else {
        assert(a.contains(a[0]));
        assert(b.len() > 0);
        assert(b.contains(b[0]));
        let j = choose|j: int| 0 <= j < b.len() && b[j] == a[0];
        let i = choose|i: int| 0 <= i < a.len() && a[i] == b[0];
        assert(a[0] == b[0]);
        let ta = a.drop_first();
        let tb = b.drop_first();
        assert forall|x: u32| #![trigger ta.contains(x)] #![trigger tb.contains(x)] ta.contains(x) == tb.contains(x) by {
            if ta.contains(x) {
                let p = choose|p: int| 0 <= p < ta.len() && ta[p] == x;
                assert(a[p + 1] == x);
                assert(a.contains(x));
                let q = choose|q: int| 0 <= q < b.len() && b[q] == x;
                assert(q != 0);
                assert(tb[q - 1] == x);
            }
            if tb.contains(x) {
                let p = choose|p: int| 0 <= p < tb.len() && tb[p] == x;
                assert(b[p + 1] == x);
                assert(b.contains(x));
                let q = choose|q: int| 0 <= q < a.len() && a[q] == x;
                assert(q != 0);
                assert(ta[q - 1] == x);
            }
        }
        lemma_increasing_unique(ta, tb);
        assert(a.len() == b.len());
        assert forall|k: int| 0 <= k < a.len() implies a[k] == b[k] by {
            if k > 0 {
                assert(a[k] == ta[k - 1]);
                assert(b[k] == tb[k - 1]);
            }
        }
        assert(a =~= b);
    }
}

/// Insert `slot` into an increasing list unless it is there already.
fn insert_slot(slots: &mut Vec<u32>, slot: u32)
    requires
        increasing(old(slots)@),
    ensures
        increasing(final(slots)@),
        forall|x: u32| #[trigger] final(slots)@.contains(x) == (old(slots)@.contains(x) || x == slot),
        final(slots)@.len() <= old(slots)@.len() + 1,
{
    let n = slots.len();
    let mut p: usize = 0;
    while p < n && slots[p] < slot
        invariant
            n == slots@.len(),
            p <= n,
            forall|k: int| 0 <= k < p ==> slots@[k] < slot,
        decreases n - p,
    {
        p = p + 1;
    }
    if p < n && slots[p] == slot {
        return;
    }
    let ghost before = slots@;
    slots.insert(p, slot);
    proof {
        let after = slots@;
        assert(after =~= before.insert(p as int, slot));
        assert forall|i: int, j: int| 0 <= i < j < after.len() implies after[i] < after[j] by {
            if j < p {
            } else if j == p {
                assert(before[i] < slot);
            } else if i < p {
                assert(after[j] == before[j - 1]);
                if p < n {
                    assert(before[p as int] > slot);
                    if j - 1 > p {
                        assert(before[p as int] < before[j - 1]);
                    }
                }
                assert(before[i] < slot);
            } else if i == p {
                assert(before[p as int] > slot);
                if j - 1 > p {
                    assert(before[p as int] < before[j - 1]);
                }
            } else {
                assert(before[i - 1] < before[j - 1]);
            }
        }
        assert forall|x: u32| #[trigger] after.contains(x) == (before.contains(x) || x == slot) by {
            if after.contains(x) {
                let k = choose|k: int| 0 <= k < after.len() && after[k] == x;
                if k < p {
                    assert(before[k] == x);
                } else if k > p {
                    assert(before[k - 1] == x);
                }
            }
            if before.contains(x) {
                let k = choose|k: int| 0 <= k < before.len() && before[k] == x;
                if k < p {
                    assert(after[k] == x);
                } else {
                    assert(after[k + 1] == x);
                }
            }
            if x == slot {
                assert(after[p as int] == x);
            }
        }
    }
}

/// Append the bindings of the used texture slots.
fn push_bindings(wgsl: &mut String, slots: &Vec<u32>)
    requires
        slots@.len() <= u32::MAX,
    ensures
        final(wgsl)@ == old(wgsl)@ + binding_lines(slots@, slots@.len()),
{
    let n = slots.len();
    let mut i: usize = 0;
    while i < n
        invariant
            n == slots@.len(),
            n <= u32::MAX,
            i <= n,
            wgsl@ == old(wgsl)@ + binding_lines(slots@, i as nat),
        decreases n - i,
    {
        let slot = slots[i];
        let ghost before = wgsl@;
        push(wgsl, "@group(2) @binding(");
        push_u64(wgsl, 2 * (i as u64));
        push(wgsl, ") var tex_");
        push_u32(wgsl, slot);
        push(wgsl, ": texture_2d<f32>;\n");
        push(wgsl, "@group(2) @binding(");
        push_u64(wgsl, 2 * (i as u64) + 1);
        push(wgsl, ") var samp_");
        push_u32(wgsl, slot);
        push(wgsl, ": sampler;\n");
        proof {
            assert(wgsl@ =~= before + binding_pair(i as int, slot));
        }
        i = i + 1;
    }
}

fn push_header(wgsl: &mut String, name: &str)
    ensures
        final(wgsl)@ == old(wgsl)@ + header_text(name@),
{
    push(wgsl, "// Auto-generated by ShaderGraphCompiler\n");
    push(wgsl, "// Graph: ");
    push(wgsl, name);
    push(wgsl, "\n");
    push(wgsl, "\n");
    assert(final(wgsl)@ =~= old(wgsl)@ + header_text(name@));
}

fn push_preamble(wgsl: &mut String)
    ensures
        final(wgsl)@ == old(wgsl)@ + preamble_text(),
{
        push(wgsl, "\n");
        push(wgsl, "struct MaterialInput {\n");
        push(wgsl, "    @location(0) uv: vec2<f32>,\n");
        push(wgsl, "    @location(1) world_pos: vec3<f32>,\n");
        push(wgsl, "    @location(2) world_normal: vec3<f32>,\n");
        push(wgsl, "    @location(3) view_dir: vec3<f32>,\n");
        push(wgsl, "};\n");
        push(wgsl, "\n");
        push(wgsl, "struct PbrOutput {\n");
        push(wgsl, "    base_color: vec4<f32>,\n");
        push(wgsl, "    normal: vec3<f32>,\n");
        push(wgsl, "    roughness: f32,\n");
        push(wgsl, "    metallic: f32,\n");
        push(wgsl, "    emissive: vec3<f32>,\n");
        push(wgsl, "};\n");
        push(wgsl, "\n");
        push(wgsl, "fn fresnel_schlick(cos_theta: f32, exp: f32) -> f32 {\n");
        push(wgsl, "    return pow(1.0 - cos_theta, exp);\n");
        push(wgsl, "}\n");
        push(wgsl, "\n");
        push(wgsl, "fn evaluate_material(input: MaterialInput) -> PbrOutput {\n");
    assert(final(wgsl)@ =~= old(wgsl)@ + preamble_text());
}

fn push_color_preamble(wgsl: &mut String)
    ensures
        final(wgsl)@ == old(wgsl)@ + color_preamble_text(),
{
        push(wgsl, "\n");
        push(wgsl, "struct MaterialInput {\n");
        push(wgsl, "    @location(0) uv: vec2<f32>,\n");
        push(wgsl, "    @location(1) world_pos: vec3<f32>,\n");
        push(wgsl, "    @location(2) world_normal: vec3<f32>,\n");
        push(wgsl, "    @location(3) view_dir: vec3<f32>,\n");
        push(wgsl, "};\n");
        push(wgsl, "\n");
        push(wgsl, "fn fresnel_schlick(cos_theta: f32, exp: f32) -> f32 {\n");
        push(wgsl, "    return pow(1.0 - cos_theta, exp);\n");
        push(wgsl, "}\n");
        push(wgsl, "\n");
        push(wgsl, "fn evaluate_material(input: MaterialInput) -> vec4<f32> {\n");
    assert(final(wgsl)@ =~= old(wgsl)@ + color_preamble_text());
}

fn push_color_tail(wgsl: &mut String, graph: &ShaderGraph, out_id: u32)
    ensures
        final(wgsl)@ == old(wgsl)@ + color_tail_text(graph.conn_seq(), out_id),
{
    let bc = ShaderGraphCompiler::input_var(graph, out_id, 0, "vec4<f32>(1.0, 1.0, 1.0, 1.0)");
    push(wgsl, "    return ");
    push(wgsl, bc.as_str());
    push(wgsl, ";\n");
    push(wgsl, "}\n");
    push(wgsl, "\n");
    push(wgsl, "@fragment\n");
    push(wgsl, "fn fs_main(input: MaterialInput) -> @location(0) vec4<f32> {\n");
    push(wgsl, "    return evaluate_material(input);\n");
    push(wgsl, "}\n");
    assert(final(wgsl)@ =~= old(wgsl)@ + color_tail_text(graph.conn_seq(), out_id));
}

fn push_entry(wgsl: &mut String)
    ensures
        final(wgsl)@ == old(wgsl)@ + entry_text(),
{
        push(wgsl, "    return out;\n");
        push(wgsl, "}\n");
        push(wgsl, "\n");
        push(wgsl, "@fragment\n");
        push(wgsl, "fn fs_main(input: MaterialInput) -> @location(0) vec4<f32> {\n");
        push(wgsl, "    let mat = evaluate_material(input);\n");
        push(wgsl, "    return mat.base_color;\n");
        push(wgsl, "}\n");
    assert(final(wgsl)@ =~= old(wgsl)@ + entry_text());
}

fn push_wiring(wgsl: &mut String, graph: &ShaderGraph, out_id: u32)
    ensures
        final(wgsl)@ == old(wgsl)@ + wiring_text(graph.conn_seq(), out_id),
{
    let bc = ShaderGraphCompiler::input_var(graph, out_id, 0, "vec4<f32>(1.0, 1.0, 1.0, 1.0)");
    let nm = ShaderGraphCompiler::input_var(graph, out_id, 1, "input.world_normal");
    let ro = ShaderGraphCompiler::input_var(graph, out_id, 2, "0.5");
    let me = ShaderGraphCompiler::input_var(graph, out_id, 3, "0.0");
    let em = ShaderGraphCompiler::input_var(graph, out_id, 4, "vec3<f32>(0.0)");
    push(wgsl, "    var out: PbrOutput;\n");
    push(wgsl, "    out.base_color = ");
    push(wgsl, bc.as_str());
    push(wgsl, ";\n");
    push(wgsl, "    out.normal     = ");
    push(wgsl, nm.as_str());
    push(wgsl, ";\n");
    push(wgsl, "    out.roughness  = ");
    push(wgsl, ro.as_str());
    push(wgsl, ";\n");
    push(wgsl, "    out.metallic   = ");
    push(wgsl, me.as_str());
    push(wgsl, ";\n");
    push(wgsl, "    out.emissive   = ");
    push(wgsl, em.as_str());
    push(wgsl, ";\n");
    assert(final(wgsl)@ =~= old(wgsl)@ + wiring_text(graph.conn_seq(), out_id));
}

impl ShaderGraphCompiler {
    /// The texture bindings the graph samples, each once, in increasing
    /// order.
    pub fn texture_slots(graph: &ShaderGraph) -> (slots: Vec<u32>)
        ensures
            slots@ == texture_slots(graph.node_seq()),
            slots@.len() <= graph.node_seq().len(),
    {
        let mut slots: Vec<u32> = Vec::new();
        let n = graph.nodes.len();
        let mut i: usize = 0;
        let ghost nodes = graph.nodes@;
        while i < n
            invariant
                n == nodes.len(),
                nodes == graph.nodes@,
                i <= n,
                increasing(slots@),
                slots@.len() <= i,
                forall|x: u32| #[trigger] slots@.contains(x) == uses_slot(nodes.take(i as int), x),
            decreases n - i,
        {
            let ghost before = slots@;
            match &graph.nodes[i].kind {
                ShaderNodeKind::TextureSample { binding_slot } => insert_slot(&mut slots, *binding_slot),
                _ => {},
            }
            proof {
                let t = nodes.take(i + 1);
                let p = nodes.take(i as int);
                assert forall|x: u32| #[trigger] slots@.contains(x) == uses_slot(t, x) by {
                    if uses_slot(t, x) {
                        let k = choose|k: int| 0 <= k < t.len() && #[trigger] samples_slot(t, k, x);
                        if k < i {
                            assert(p[k] == t[k]);
                            assert(samples_slot(p, k, x));
                        } else {
                            assert(t[k] == nodes[i as int]);
                        }
                    }
                    if uses_slot(p, x) {
                        let k = choose|k: int| 0 <= k < p.len() && #[trigger] samples_slot(p, k, x);
                        assert(p[k] == t[k]);
                        assert(samples_slot(t, k, x));
                    }
                    if nodes[i as int].kind matches ShaderNodeKind::TextureSample { binding_slot } && binding_slot == x {
                        assert(samples_slot(t, i as int, x));
                    }
                }
            }
            i = i + 1;
        }
        proof {
            assert(nodes.take(n as int) =~= nodes);
            let c = texture_slots(nodes);
            assert(increasing(slots@) && forall|x: u32| #[trigger] slots@.contains(x) == uses_slot(nodes, x));
            lemma_increasing_unique(slots@, c);
        }
        slots
    }

    /// Compile a graph to WGSL: a header naming the graph, one texture and
    /// one sampler binding per used texture slot (in increasing slot
    /// order), the fixed structures and helper, a `let` per node output in
    /// Kahn order, the PBR output wiring (defaults for unconnected inputs)
    /// and the fragment entry point.  Fails without a PBR output node or
    /// when the nodes cannot be ordered.
    pub fn compile(graph: &ShaderGraph) -> (r: Result<String, String>)
        requires
            node_ids(graph.node_seq()).no_duplicates(),
            graph.conn_seq().len() < u32::MAX,
            graph.node_seq().len() <= u32::MAX,
        ensures
            match r {
                Ok(s) => compile_result(graph.name_text(), graph.node_seq(), graph.conn_seq()) == Ok::<
                    Seq<char>,
                    Seq<char>,
                >(s@),
                Err(e) => compile_result(graph.name_text(), graph.node_seq(), graph.conn_seq()) == Err::<
                    Seq<char>,
                    Seq<char>,
                >(e@),
            },
    {
        compile_graph(graph, true)
    }
}

/// Compile a graph to WGSL, with the PBR output structure when `pbr`,
/// else as a colour-only material.
fn compile_graph(graph: &ShaderGraph, pbr: bool) -> (r: Result<String, String>)
    requires
        node_ids(graph.node_seq()).no_duplicates(),
        graph.conn_seq().len() < u32::MAX,
        graph.node_seq().len() <= u32::MAX,
    ensures
        match r {
            Ok(s) => compile_result_for(pbr, graph.name_text(), graph.node_seq(), graph.conn_seq()) == Ok::<
                Seq<char>,
                Seq<char>,
            >(s@),
            Err(e) => compile_result_for(pbr, graph.name_text(), graph.node_seq(), graph.conn_seq()) == Err::<
                Seq<char>,
                Seq<char>,
            >(e@),
        },
{
        let output = match graph.output_node() {
            Some(o) => o,
            None => {
                return Err(String::from_str("No PbrOutput node found"));
            },
        };
        let mut wgsl = String::new();
        push_header(&mut wgsl, graph.name.as_str());
        assert(wgsl@ =~= header_text(graph.name_text()));
        let slots = ShaderGraphCompiler::texture_slots(graph);
        push_bindings(&mut wgsl, &slots);
        let ghost after_bindings = wgsl@;
        if pbr {
            push_preamble(&mut wgsl);
        } else {
            push_color_preamble(&mut wgsl);
        }
        let ghost after_preamble = wgsl@;
        let order = match ShaderGraphCompiler::topological_order(graph) {
            Ok(o) => o,
            Err(e) => {
                return Err(e);
            },
        };
        let m = order.len();
        let mut k: usize = 0;
        while k < m
            invariant
                m == order@.len(),
                k <= m,
                wgsl@ == after_preamble + body_text(graph.node_seq(), graph.conn_seq(), order@, k as nat),
            decreases m - k,
        {
            match graph.node(order[k]) {
                Some(n) => ShaderGraphCompiler::emit_node(&mut wgsl, graph, n),
                None => {},
            }
            k = k + 1;
        }
        let out_id = output.id;
        if pbr {
            push_wiring(&mut wgsl, graph, out_id);
            push_entry(&mut wgsl);
        } else {
            push_color_tail(&mut wgsl, graph, out_id);
        }
        proof {
            assert(wgsl@ =~= compiled_text_for(pbr, graph.name_text(), graph.node_seq(), graph.conn_seq(), order@, out_id));
        }
    Ok(wgsl)
}

/// Diagnostics for connections (first `k`) whose source or target node
/// does not exist.
pub open spec fn dangling_diags(ids: Seq<u32>, conns: Seq<ShaderConnection>, k: nat) -> Seq<DiagView>
    decreases k,
{
    if k == 0 {
        Seq::empty()
    } else {
        let c = conns[k - 1];
        dangling_diags(ids, conns, (k - 1) as nat) + (if !ids.contains(c.from_node) {
            seq![(Some(c.to_node), DiagnosticSeverity::Error, "Connection references missing source node "@ + dec(c.from_node as int) + "."@)]
        } else {
            Seq::empty()
        }) + (if !ids.contains(c.to_node) {
            seq![(Some(c.from_node), DiagnosticSeverity::Error, "Connection references missing target node "@ + dec(c.to_node as int) + "."@)]
        } else {
            Seq::empty()
        })
    }
}

/// Diagnostic for a connection leaving an output slot its source lacks.
pub open spec fn output_slot_diag(nodes: Seq<ShaderNode>, c: ShaderConnection) -> Seq<DiagView> {
    match node_in(nodes, c.from_node) {
        Some(src) => if c.from_slot >= outputs_of(src.kind) {
            seq![(Some(c.from_node), DiagnosticSeverity::Error, "Output slot "@ + dec(c.from_slot as int) + " exceeds node "@ + kind_text(src.kind) + " output count ("@ + dec(outputs_of(src.kind) as int) + ")."@)]
        } else {
            Seq::empty()
        },
        None => Seq::empty(),
    }
}

/// Diagnostic for a connection entering an input slot its target lacks.
pub open spec fn input_slot_diag(nodes: Seq<ShaderNode>, c: ShaderConnection) -> Seq<DiagView> {
    match node_in(nodes, c.to_node) {
        Some(dst) => if c.to_slot >= inputs_of(dst.kind) {
            seq![(Some(c.to_node), DiagnosticSeverity::Error, "Input slot "@ + dec(c.to_slot as int) + " exceeds node "@ + kind_text(dst.kind) + " input count ("@ + dec(inputs_of(dst.kind) as int) + ")."@)]
        } else {
            Seq::empty()
        },
        None => Seq::empty(),
    }
}

/// Slot-bound diagnostics of the first `k` connections.
pub open spec fn slot_diags(nodes: Seq<ShaderNode>, conns: Seq<ShaderConnection>, k: nat) -> Seq<DiagView>
    decreases k,
{
    if k == 0 {
        Seq::empty()
    } else {
        slot_diags(nodes, conns, (k - 1) as nat) + output_slot_diag(nodes, conns[k - 1]) + input_slot_diag(
            nodes,
            conns[k - 1],
        )
    }
}

/// Name of PBR output input slot `i`.
pub open spec fn pbr_slot_name(i: int) -> Seq<char> {
    if i == 0 {
        "base_color"@
    } else if i == 1 {
        "normal"@
    } else if i == 2 {
        "roughness"@
    } else if i == 3 {
        "metallic"@
    } else if i == 4 {
        "emissive"@
    } else {
        "alpha"@
    }
}

/// Warnings for the first `k` unconnected inputs of the output node.
pub open spec fn unconnected_diags(conns: Seq<ShaderConnection>, out: u32, k: nat) -> Seq<DiagView>
    decreases k,
{
    if k == 0 {
        Seq::empty()
    } else {
        unconnected_diags(conns, out, (k - 1) as nat) + (if find_input_in(conns, out, (k - 1) as u32) is None {
            seq![(Some(out), DiagnosticSeverity::Warning, "PbrOutput."@ + pbr_slot_name(k - 1) + " is unconnected \u{2014} using default."@)]
        } else {
            Seq::empty()
        })
    }
}

/// Everything validation reports, in order: a missing output node,
/// dangling connections, slot overruns, a cycle, unconnected output
/// inputs.
pub open spec fn validate_diags(nodes: Seq<ShaderNode>, conns: Seq<ShaderConnection>) -> Seq<DiagView> {
    (if output_in(nodes) is None {
        seq![(None::<u32>, DiagnosticSeverity::Error, "No PbrOutput node in the graph."@)]
    } else {
        Seq::empty()
    }) + dangling_diags(node_ids(nodes), conns, conns.len()) + slot_diags(nodes, conns, conns.len()) + (if topo_result(
        nodes,
        conns,
    ) is None {
        seq![(None::<u32>, DiagnosticSeverity::Error, "Cycle detected in shader graph"@)]
    } else {
        Seq::empty()
    }) + match output_in(nodes) {
        Some(o) => unconnected_diags(conns, o.id, 6),
        None => Seq::empty(),
    }
}

/// Some diagnostic is an error.
pub open spec fn has_error(ds: Seq<DiagView>) -> bool {
    exists|i: int| 0 <= i < ds.len() && ds[i].1 == DiagnosticSeverity::Error
}

proof fn lemma_node_in_ids(nodes: Seq<ShaderNode>, x: u32)
    ensures
        (node_in(nodes, x) is Some) == node_ids(nodes).contains(x),
        node_in(nodes, x) is Some ==> node_in(nodes, x)->0.id == x,
    decreases nodes.len(),
{
    if nodes.len() > 0 {
        lemma_node_in_ids(nodes.drop_first(), x);
        let ids = node_ids(nodes);
        let rest = node_ids(nodes.drop_first());
        if ids.contains(x) && nodes[0].id != x {
            let i = choose|i: int| 0 <= i < ids.len() && ids[i] == x;
            assert(rest[i - 1] == x);
        }
        if rest.contains(x) {
            let i = choose|i: int| 0 <= i < rest.len() && rest[i] == x;
            assert(ids[i + 1] == x);
        }
        assert(ids[0] == nodes[0].id);
    } else {
        assert(!node_ids(nodes).contains(x));
    }
}

fn push_diag(diags: &mut Vec<ShaderGraphDiagnostic>, node_id: Option<NodeId>, severity: DiagnosticSeverity, message: String)
    ensures
        diag_views(final(diags)@) == diag_views(old(diags)@).push((node_id, severity, message@)),
{
    diags.push(ShaderGraphDiagnostic { node_id, severity, message });
    assert(diag_views(final(diags)@) =~= diag_views(old(diags)@).push((node_id, severity, message@)));
}

fn text2(a: &str, n: u32, b: &str) -> (s: String)
    ensures
        s@ == a@ + dec(n as int) + b@,
{
    let mut s = String::from_str(a);
    push_u32(&mut s, n);
    push(&mut s, b);
    s
}

fn slot_message(head: &str, slot: u32, kind: &ShaderNodeKind, what: &str, count: u32) -> (s: String)
    ensures
        s@ == head@ + dec(slot as int) + " exceeds node "@ + kind_text(*kind) + what@ + dec(count as int) + ")."@,
{
    let mut s = String::from_str(head);
    push_u32(&mut s, slot);
    push(&mut s, " exceeds node ");
    let k = kind.debug_text();
    push(&mut s, k.as_str());
    push(&mut s, what);
    push_u32(&mut s, count);
    push(&mut s, ").");
    s
}

impl ShaderGraphCompiler {
    fn push_dangling(diags: &mut Vec<ShaderGraphDiagnostic>, graph: &ShaderGraph)
        ensures
            diag_views(final(diags)@) == diag_views(old(diags)@) + dangling_diags(
                node_ids(graph.node_seq()),
                graph.conn_seq(),
                graph.conn_seq().len(),
            ),
    {
        let ghost ids = node_ids(graph.node_seq());
        let ghost conns = graph.conn_seq();
        let ghost start = diag_views(diags@);
        let m = graph.connections.len();
        let mut k: usize = 0;
        while k < m
            invariant
                m == conns.len(),
                conns == graph.conn_seq(),
                ids == node_ids(graph.node_seq()),
                k <= m,
                diag_views(diags@) == start + dangling_diags(ids, conns, k as nat),
            decreases m - k,
        {
            let c = graph.connections[k];
            let ghost before = diag_views(diags@);
            proof {
                lemma_node_in_ids(graph.node_seq(), c.from_node);
                lemma_node_in_ids(graph.node_seq(), c.to_node);
            }
            if graph.node(c.from_node).is_none() {
                push_diag(diags, Some(c.to_node), DiagnosticSeverity::Error, text2("Connection references missing source node ", c.from_node, "."));
            }
            let ghost mid = diag_views(diags@);
            if graph.node(c.to_node).is_none() {
                push_diag(diags, Some(c.from_node), DiagnosticSeverity::Error, text2("Connection references missing target node ", c.to_node, "."));
            }
            proof {
                assert(diag_views(diags@) =~= start + dangling_diags(ids, conns, (k + 1) as nat));
            }
            k = k + 1;
        }
    }

    fn push_slot_bounds(diags: &mut Vec<ShaderGraphDiagnostic>, graph: &ShaderGraph)
        ensures
            diag_views(final(diags)@) == diag_views(old(diags)@) + slot_diags(
                graph.node_seq(),
                graph.conn_seq(),
                graph.conn_seq().len(),
            ),
    {
        let ghost nodes = graph.node_seq();
        let ghost conns = graph.conn_seq();
        let ghost start = diag_views(diags@);
        let m = graph.connections.len();
        let mut k: usize = 0;
        while k < m
            invariant
                m == conns.len(),
                conns == graph.conn_seq(),
                nodes == graph.node_seq(),
                k <= m,
                diag_views(diags@) == start + slot_diags(nodes, conns, k as nat),
            decreases m - k,
        {
            let c = graph.connections[k];
            let ghost before = diag_views(diags@);
            match graph.node(c.from_node) {
                Some(src) => {
                    let oc = src.output_count();
                    if c.from_slot >= oc {
                        push_diag(diags, Some(c.from_node), DiagnosticSeverity::Error, slot_message("Output slot ", c.from_slot, &src.kind, " output count (", oc));
                    }
                },
                None => {},
            }
            let ghost mid = diag_views(diags@);
            proof {
                assert(mid =~= before + output_slot_diag(nodes, c));
            }
            match graph.node(c.to_node) {
                Some(dst) => {
                    let ic = dst.input_count();
                    if c.to_slot >= ic {
                        push_diag(diags, Some(c.to_node), DiagnosticSeverity::Error, slot_message("Input slot ", c.to_slot, &dst.kind, " input count (", ic));
                    }
                },
                None => {},
            }
            proof {
                assert(diag_views(diags@) =~= mid + input_slot_diag(nodes, c));
                assert(diag_views(diags@) =~= start + slot_diags(nodes, conns, (k + 1) as nat));
            }
            k = k + 1;
        }
    }

    fn push_unconnected(diags: &mut Vec<ShaderGraphDiagnostic>, graph: &ShaderGraph, out: NodeId)
        ensures
            diag_views(final(diags)@) == diag_views(old(diags)@) + unconnected_diags(graph.conn_seq(), out, 6),
    {
        let ghost start = diag_views(diags@);
        let names: [&str; 6] = ["base_color", "normal", "roughness", "metallic", "emissive", "alpha"];
        let mut i: usize = 0;
        while i < 6
            invariant
                i <= 6,
                names@.len() == 6,
                names@[0]@ == "base_color"@,
                names@[1]@ == "normal"@,
                names@[2]@ == "roughness"@,
                names@[3]@ == "metallic"@,
                names@[4]@ == "emissive"@,
                names@[5]@ == "alpha"@,
                diag_views(diags@) == start + unconnected_diags(graph.conn_seq(), out, i as nat),
            decreases 6 - i,
        {
            let ghost before = diag_views(diags@);
            if graph.find_input(out, i as u32).is_none() {
                let mut msg = String::from_str("PbrOutput.");
                push(&mut msg, names[i]);
                push(&mut msg, " is unconnected \u{2014} using default.");
                proof {
                    assert(names@[i as int]@ == pbr_slot_name(i as int));
                }
                push_diag(diags, Some(out), DiagnosticSeverity::Warning, msg);
            }
            proof {
                assert(diag_views(diags@) =~= start + unconnected_diags(graph.conn_seq(), out, (i + 1) as nat));
            }
            i = i + 1;
        }
    }

    /// Validate the graph: report a missing PBR output node, connections
    /// from or to missing nodes, connections beyond a node's slot counts,
    /// a cycle, and (as warnings) unconnected PBR output inputs.
    pub fn validate(graph: &ShaderGraph) -> (diags: Vec<ShaderGraphDiagnostic>)
        requires
            node_ids(graph.node_seq()).no_duplicates(),
            graph.conn_seq().len() < u32::MAX,
        ensures
            diag_views(diags@) == validate_diags(graph.node_seq(), graph.conn_seq()),
    {
        let mut diags: Vec<ShaderGraphDiagnostic> = Vec::new();
        proof {
            assert(diag_views(diags@) =~= Seq::<DiagView>::empty());
        }
        let out = graph.output_node();
        if out.is_none() {
            push_diag(&mut diags, None, DiagnosticSeverity::Error, String::from_str("No PbrOutput node in the graph."));
        }
        let ghost a0 = diag_views(diags@);
        Self::push_dangling(&mut diags, graph);
        Self::push_slot_bounds(&mut diags, graph);
        let ghost a2 = diag_views(diags@);
        match Self::topological_order(graph) {
            Err(msg) => {
                push_diag(&mut diags, None, DiagnosticSeverity::Error, msg);
            },
            Ok(_) => {},
        }
        let ghost a3 = diag_views(diags@);
        match out {
            Some(o) => Self::push_unconnected(&mut diags, graph, o.id),
            None => {},
        }
        proof {
            assert(diag_views(diags@) =~= validate_diags(graph.node_seq(), graph.conn_seq()));
        }
        diags
    }

    /// Validate, then compile when validation reports no error; the
    /// compile outcome is added as a last diagnostic (the WGSL size in
    /// bytes on success).
    pub fn compile_live(graph: &ShaderGraph) -> (r: CompileResult)
        requires
            node_ids(graph.node_seq()).no_duplicates(),
            graph.conn_seq().len() < u32::MAX,
            graph.node_seq().len() <= u32::MAX,
        ensures
            ({
                let v = validate_diags(graph.node_seq(), graph.conn_seq());
                if has_error(v) {
                    &&& r.wgsl@ == Seq::<char>::empty()
                    &&& diag_views(r.diagnostics@) == v
                    &&& !r.success
                } else {
                    match compile_result(graph.name_text(), graph.node_seq(), graph.conn_seq()) {
                        Ok(w) => {
                            &&& r.wgsl@ == w
                            &&& diag_views(r.diagnostics@) == v.push(
                                (
                                    None::<u32>,
                                    DiagnosticSeverity::Info,
                                    "Compiled OK \u{2014} "@ + dec((vstd::utf8::encode_utf8(w).len() as usize) as int)
                                        + " bytes WGSL."@,
                                ),
                            )
                            &&& r.success
                        },
                        Err(e) => {
                            &&& r.wgsl@ == Seq::<char>::empty()
                            &&& diag_views(r.diagnostics@) == v.push((None::<u32>, DiagnosticSeverity::Error, e))
                            &&& !r.success
                        },
                    }
                }
            }),
    {
        let mut diagnostics = Self::validate(graph);
        let ghost v = diag_views(diagnostics@);
        let mut has_errors = false;
        let n = diagnostics.len();
        let mut i: usize = 0;
        while i < n
            invariant
                n == diagnostics@.len(),
                v == diag_views(diagnostics@),
                i <= n,
                has_errors == exists|j: int| 0 <= j < i && v[j].1 == DiagnosticSeverity::Error,
            decreases n - i,
        {
            if diagnostics[i].severity == DiagnosticSeverity::Error {
                has_errors = true;
            }
            proof {
                assert(v[i as int].1 == diagnostics@[i as int].severity);
            }
            i = i + 1;
        }
        if has_errors {
            return CompileResult { wgsl: String::new(), diagnostics, success: false };
        }
        match Self::compile(graph) {
            Ok(wgsl) => {
                let len = wgsl.as_str().len();
                let mut msg = String::from_str("Compiled OK \u{2014} ");
                push_u64(&mut msg, len as u64);
                push(&mut msg, " bytes WGSL.");
                push_diag(&mut diagnostics, None, DiagnosticSeverity::Info, msg);
                CompileResult { wgsl, diagnostics, success: true }
            },
            Err(e) => {
                push_diag(&mut diagnostics, None, DiagnosticSeverity::Error, e);
                CompileResult { wgsl: String::new(), diagnostics, success: false }
            },
        }
    }
}

/// A graph that validates without errors compiles.
pub proof fn lemma_valid_graph_compiles(name: Seq<char>, nodes: Seq<ShaderNode>, conns: Seq<ShaderConnection>)
    requires
        !has_error(validate_diags(nodes, conns)),
    ensures
        compile_result(name, nodes, conns) is Ok,
{
    let v = validate_diags(nodes, conns);
    if output_in(nodes) is None {
        assert(v[0].1 == DiagnosticSeverity::Error);
    } else if topo_result(nodes, conns) is None {
        let pre = dangling_diags(node_ids(nodes), conns, conns.len()) + slot_diags(nodes, conns, conns.len());
        let idx = pre.len() as int;
        assert(v[idx].1 == DiagnosticSeverity::Error);
    }
}

/// Connection `c` enters input `slot` of node `id`.
pub open spec fn feeds(c: ShaderConnection, id: u32, slot: u32) -> bool {
    c.to_node == id && c.to_slot == slot
}

proof fn lemma_find_input_none(conns: Seq<ShaderConnection>, id: u32, slot: u32)
    requires
        forall|k: int| 0 <= k < conns.len() ==> !feeds(#[trigger] conns[k], id, slot),
    ensures
        find_input_in(conns, id, slot) is None,
    decreases conns.len(),
{
    if conns.len() > 0 {
        let rest = conns.drop_first();
        assert(!feeds(conns[0], id, slot));
        assert forall|k: int| 0 <= k < rest.len() implies !feeds(#[trigger] rest[k], id, slot) by {
            assert(rest[k] == conns[k + 1]);
        }
        lemma_find_input_none(rest, id, slot);
    }
}

proof fn lemma_find_input_first(conns: Seq<ShaderConnection>, id: u32, slot: u32, k: int)
    requires
        0 <= k < conns.len(),
        feeds(conns[k], id, slot),
        forall|j: int| 0 <= j < k ==> !feeds(#[trigger] conns[j], id, slot),
    ensures
        find_input_in(conns, id, slot) == Some(conns[k]),
    decreases k,
{
    if k > 0 {
        let rest = conns.drop_first();
        assert(!feeds(conns[0], id, slot));
        assert forall|j: int| 0 <= j < k - 1 implies !feeds(#[trigger] rest[j], id, slot) by {
            assert(rest[j] == conns[j + 1]);
        }
        assert(rest[k - 1] == conns[k]);
        lemma_find_input_first(rest, id, slot, k - 1);
    }
}

/// What feeds input `slot` of node `id` in the emitted WGSL: the variable
/// `node_<from>_<from slot>` of the first connection into that slot, or
/// `default` when nothing is connected to it.
pub proof fn lemma_input_text(conns: Seq<ShaderConnection>, id: u32, slot: u32, default: Seq<char>)
    ensures
        (forall|k: int| 0 <= k < conns.len() ==> !feeds(#[trigger] conns[k], id, slot)) ==> input_text(conns, id, slot, default)
            == default,
        forall|k: int|
            0 <= k < conns.len() && #[trigger] feeds(conns[k], id, slot) && (forall|j: int|
                0 <= j < k ==> !feeds(#[trigger] conns[j], id, slot)) ==> input_text(conns, id, slot, default) == "node_"@
                + dec(conns[k].from_node as int) + "_"@ + dec(conns[k].from_slot as int),
{
    if forall|k: int| 0 <= k < conns.len() ==> !feeds(#[trigger] conns[k], id, slot) {
        lemma_find_input_none(conns, id, slot);
    }
    assert forall|k: int|
        0 <= k < conns.len() && #[trigger] feeds(conns[k], id, slot) && (forall|j: int|
            0 <= j < k ==> !feeds(#[trigger] conns[j], id, slot)) implies input_text(conns, id, slot, default) == "node_"@
        + dec(conns[k].from_node as int) + "_"@ + dec(conns[k].from_slot as int) by {
        lemma_find_input_first(conns, id, slot, k);
    }
}

proof fn lemma_contains_concat(s: Seq<DiagView>, t: Seq<DiagView>, x: DiagView)
    requires
        s.contains(x) || t.contains(x),
    ensures
        (s + t).contains(x),
{
    if s.contains(x) {
        let i = choose|i: int| 0 <= i < s.len() && s[i] == x;
        assert((s + t)[i] == x);
    } else {
        let i = choose|i: int| 0 <= i < t.len() && t[i] == x;
        assert((s + t)[s.len() + i] == x);
    }
}

proof fn lemma_slot_diags_contains(nodes: Seq<ShaderNode>, conns: Seq<ShaderConnection>, n: nat, k: int, x: DiagView)
    requires
        0 <= k < n <= conns.len(),
        input_slot_diag(nodes, conns[k]).contains(x) || output_slot_diag(nodes, conns[k]).contains(x),
    ensures
        slot_diags(nodes, conns, n).contains(x),
    decreases n,
{
    let prev = slot_diags(nodes, conns, (n - 1) as nat);
    let o = output_slot_diag(nodes, conns[n - 1]);
    let i = input_slot_diag(nodes, conns[n - 1]);
    if k < n - 1 {
        lemma_slot_diags_contains(nodes, conns, (n - 1) as nat, k, x);
        lemma_contains_concat(prev, o, x);
        lemma_contains_concat(prev + o, i, x);
    } else if o.contains(x) {
        lemma_contains_concat(prev, o, x);
        lemma_contains_concat(prev + o, i, x);
    } else {
        lemma_contains_concat(prev + o, i, x);
    }
}

/// A connection into an input slot its target node does not have, or out
/// of an output slot its source node does not have, makes validation
/// report an error on that node, with the slot and the node's slot count;
/// so such a graph never validates cleanly.
pub proof fn lemma_slot_overruns_reported(nodes: Seq<ShaderNode>, conns: Seq<ShaderConnection>, k: int)
    requires
        0 <= k < conns.len(),
    ensures
        node_in(nodes, conns[k].to_node) is Some && conns[k].to_slot >= inputs_of(node_in(nodes, conns[k].to_node)->0.kind)
            ==> {
            &&& validate_diags(nodes, conns).contains(
                (
                    Some(conns[k].to_node),
                    DiagnosticSeverity::Error,
                    "Input slot "@ + dec(conns[k].to_slot as int) + " exceeds node "@ + kind_text(
                        node_in(nodes, conns[k].to_node)->0.kind,
                    ) + " input count ("@ + dec(inputs_of(node_in(nodes, conns[k].to_node)->0.kind) as int) + ")."@,
                ),
            )
            &&& has_error(validate_diags(nodes, conns))
        },
        node_in(nodes, conns[k].from_node) is Some && conns[k].from_slot >= outputs_of(
            node_in(nodes, conns[k].from_node)->0.kind,
        ) ==> {
            &&& validate_diags(nodes, conns).contains(
                (
                    Some(conns[k].from_node),
                    DiagnosticSeverity::Error,
                    "Output slot "@ + dec(conns[k].from_slot as int) + " exceeds node "@ + kind_text(
                        node_in(nodes, conns[k].from_node)->0.kind,
                    ) + " output count ("@ + dec(outputs_of(node_in(nodes, conns[k].from_node)->0.kind) as int) + ")."@,
                ),
            )
            &&& has_error(validate_diags(nodes, conns))
        },
{
    let c = conns[k];
    let a = if output_in(nodes) is None {
        seq![(None::<u32>, DiagnosticSeverity::Error, "No PbrOutput node in the graph."@)]
    } else {
        Seq::empty()
    };
    let dang = dangling_diags(node_ids(nodes), conns, conns.len());
    let sl = slot_diags(nodes, conns, conns.len());
    let cyc = if topo_result(nodes, conns) is None {
        seq![(None::<u32>, DiagnosticSeverity::Error, "Cycle detected in shader graph"@)]
    } else {
        Seq::empty()
    };
    let unc = match output_in(nodes) {
        Some(o) => unconnected_diags(conns, o.id, 6),
        None => Seq::empty(),
    };
    assert(validate_diags(nodes, conns) == a + dang + sl + cyc + unc);
    let ins = input_slot_diag(nodes, c);
    let outs = output_slot_diag(nodes, c);
    if node_in(nodes, c.to_node) is Some && c.to_slot >= inputs_of(node_in(nodes, c.to_node)->0.kind) {
        let x = ins[0];
        assert(ins.contains(x));
        lemma_slot_diags_contains(nodes, conns, conns.len(), k, x);
        lemma_contains_concat(a + dang, sl, x);
        lemma_contains_concat(a + dang + sl, cyc, x);
        lemma_contains_concat(a + dang + sl + cyc, unc, x);
    }
    if node_in(nodes, c.from_node) is Some && c.from_slot >= outputs_of(node_in(nodes, c.from_node)->0.kind) {
        let x = outs[0];
        assert(outs.contains(x));
        lemma_slot_diags_contains(nodes, conns, conns.len(), k, x);
        lemma_contains_concat(a + dang, sl, x);
        lemma_contains_concat(a + dang + sl, cyc, x);
        lemma_contains_concat(a + dang + sl + cyc, unc, x);
    }
}

/// The line binding output 0 of node `id` to `rhs`:
/// `    let node_<id>_0 = <rhs>;`.
pub open spec fn let_line(id: u32, rhs: Seq<char>) -> Seq<char> {
    "    let node_"@ + dec(id as int) + "_0 = "@ + rhs + ";\n"@
}

proof fn lemma_let_line(id: u32, rhs: Seq<char>)
    ensures
        full_let(id, rhs) == let_line(id, rhs),
{
    reveal_strlit("    let ");
    reveal_strlit("node_");
    reveal_strlit("    let node_");
    reveal_strlit("_");
    reveal_strlit(" = ");
    reveal_strlit("_0 = ");
    reveal_strlit(";\n");
    assert(dec(0) =~= seq!['0']);
    assert(full_let(id, rhs) =~= let_line(id, rhs));
}

/// The WGSL line of an operation node applies its operation to its
/// inputs in slot order: input 0 is the left operand (the first argument),
/// input 1 the right one (the second argument), and so on (a select takes
/// its false and true values from inputs 3 and 2 and tests input 0 against
/// input 1), each the variable connected there or the node's default.
pub proof fn lemma_operand_order(conns: Seq<ShaderConnection>, node: ShaderNode)
    ensures
        ({
            let id = node.id;
            let i0 = |d: Seq<char>| input_text(conns, id, 0, d);
            let i1 = |d: Seq<char>| input_text(conns, id, 1, d);
            let i2 = |d: Seq<char>| input_text(conns, id, 2, d);
            let i3 = |d: Seq<char>| input_text(conns, id, 3, d);
            &&& node.kind == ShaderNodeKind::Add ==> node_text(conns, node) == let_line(id, i0("0.0"@) + " + "@ + i1("0.0"@))
            &&& node.kind == ShaderNodeKind::Subtract ==> node_text(conns, node) == let_line(id, i0("0.0"@) + " - "@ + i1("0.0"@))
            &&& node.kind == ShaderNodeKind::Multiply ==> node_text(conns, node) == let_line(id, i0("1.0"@) + " * "@ + i1("1.0"@))
            &&& node.kind == ShaderNodeKind::Divide ==> node_text(conns, node) == let_line(id, i0("1.0"@) + " / "@ + i1("1.0"@))
            &&& node.kind == ShaderNodeKind::Power ==> node_text(conns, node) == let_line(id, "pow("@ + i0("1.0"@) + ", "@ + i1("1.0"@) + ")"@)
            &&& node.kind == ShaderNodeKind::Dot ==> node_text(conns, node) == let_line(id, "dot("@ + i0("vec3<f32>(0.0)"@) + ", "@ + i1("vec3<f32>(0.0)"@) + ")"@)
            &&& node.kind == ShaderNodeKind::Cross ==> node_text(conns, node) == let_line(id, "cross("@ + i0("vec3<f32>(0.0)"@) + ", "@ + i1("vec3<f32>(0.0)"@) + ")"@)
            &&& node.kind == ShaderNodeKind::Clamp ==> node_text(conns, node) == let_line(id, "clamp("@ + i0("0.0"@) + ", "@ + i1("0.0"@) + ", "@ + i2("1.0"@) + ")"@)
            &&& node.kind == ShaderNodeKind::Lerp ==> node_text(conns, node) == let_line(id, "mix("@ + i0("0.0"@) + ", "@ + i1("1.0"@) + ", "@ + i2("0.5"@) + ")"@)
            &&& node.kind == ShaderNodeKind::Smoothstep ==> node_text(conns, node) == let_line(id, "smoothstep("@ + i0("0.0"@) + ", "@ + i1("1.0"@) + ", "@ + i2("0.5"@) + ")"@)
            &&& node.kind == ShaderNodeKind::If ==> node_text(conns, node) == let_line(id, "select("@ + i3("0.0"@) + ", "@ + i2("1.0"@) + ", "@ + i0("0.0"@) + " > "@ + i1("0.5"@) + ")"@)
            &&& node.kind == ShaderNodeKind::CombineVec4 ==> node_text(conns, node) == let_line(id, "vec4<f32>("@ + i0("0.0"@) + ", "@ + i1("0.0"@) + ", "@ + i2("0.0"@) + ", "@ + i3("1.0"@) + ")"@)
            &&& node.kind == ShaderNodeKind::Fresnel ==> node_text(conns, node) == let_line(id, "fresnel_schlick(max(dot("@ + i0("input.world_normal"@) + ", "@ + i1("input.view_dir"@) + "), 0.0), "@ + i2("5.0"@) + ")"@)
            &&& node.kind == ShaderNodeKind::Sqrt ==> node_text(conns, node) == let_line(id, "sqrt("@ + i0("0.0"@) + ")"@)
            &&& node.kind == ShaderNodeKind::Abs ==> node_text(conns, node) == let_line(id, "abs("@ + i0("0.0"@) + ")"@)
            &&& node.kind == ShaderNodeKind::Normalize ==> node_text(conns, node) == let_line(id, "normalize("@ + i0("vec3<f32>(0.0, 1.0, 0.0)"@) + ")"@)
            &&& node.kind == ShaderNodeKind::Length ==> node_text(conns, node) == let_line(id, "length("@ + i0("vec3<f32>(0.0)"@) + ")"@)
            &&& node.kind == ShaderNodeKind::Saturate ==> node_text(conns, node) == let_line(id, "clamp("@ + i0("0.0"@) + ", 0.0, 1.0)"@)
            &&& node.kind == ShaderNodeKind::Negate ==> node_text(conns, node) == let_line(id, "-("@ + i0("0.0"@) + ")"@)
            &&& node.kind == ShaderNodeKind::OneMinus ==> node_text(conns, node) == let_line(id, "1.0 - ("@ + i0("0.0"@) + ")"@)
        }),
{
    let id = node.id;
    let i0 = |d: Seq<char>| input_text(conns, id, 0, d);
    let i1 = |d: Seq<char>| input_text(conns, id, 1, d);
    let i2 = |d: Seq<char>| input_text(conns, id, 2, d);
    let i3 = |d: Seq<char>| input_text(conns, id, 3, d);
    match node.kind {
        ShaderNodeKind::Add => lemma_let_line(id, i0("0.0"@) + " + "@ + i1("0.0"@)),
        ShaderNodeKind::Subtract => lemma_let_line(id, i0("0.0"@) + " - "@ + i1("0.0"@)),
        ShaderNodeKind::Multiply => lemma_let_line(id, i0("1.0"@) + " * "@ + i1("1.0"@)),
        ShaderNodeKind::Divide => lemma_let_line(id, i0("1.0"@) + " / "@ + i1("1.0"@)),
        ShaderNodeKind::Power => lemma_let_line(id, "pow("@ + i0("1.0"@) + ", "@ + i1("1.0"@) + ")"@),
        ShaderNodeKind::Dot => lemma_let_line(id, "dot("@ + i0("vec3<f32>(0.0)"@) + ", "@ + i1("vec3<f32>(0.0)"@) + ")"@),
        ShaderNodeKind::Cross => lemma_let_line(id, "cross("@ + i0("vec3<f32>(0.0)"@) + ", "@ + i1("vec3<f32>(0.0)"@) + ")"@),
        ShaderNodeKind::Clamp => lemma_let_line(id, "clamp("@ + i0("0.0"@) + ", "@ + i1("0.0"@) + ", "@ + i2("1.0"@) + ")"@),
        ShaderNodeKind::Lerp => lemma_let_line(id, "mix("@ + i0("0.0"@) + ", "@ + i1("1.0"@) + ", "@ + i2("0.5"@) + ")"@),
        ShaderNodeKind::Smoothstep => lemma_let_line(id, "smoothstep("@ + i0("0.0"@) + ", "@ + i1("1.0"@) + ", "@ + i2("0.5"@) + ")"@),
        ShaderNodeKind::If => lemma_let_line(id, "select("@ + i3("0.0"@) + ", "@ + i2("1.0"@) + ", "@ + i0("0.0"@) + " > "@ + i1("0.5"@) + ")"@),
        ShaderNodeKind::CombineVec4 => lemma_let_line(id, "vec4<f32>("@ + i0("0.0"@) + ", "@ + i1("0.0"@) + ", "@ + i2("0.0"@) + ", "@ + i3("1.0"@) + ")"@),
        ShaderNodeKind::Fresnel => lemma_let_line(id, "fresnel_schlick(max(dot("@ + i0("input.world_normal"@) + ", "@ + i1("input.view_dir"@) + "), 0.0), "@ + i2("5.0"@) + ")"@),
        ShaderNodeKind::Sqrt => lemma_let_line(id, "sqrt("@ + i0("0.0"@) + ")"@),
        ShaderNodeKind::Abs => lemma_let_line(id, "abs("@ + i0("0.0"@) + ")"@),
        ShaderNodeKind::Normalize => lemma_let_line(id, "normalize("@ + i0("vec3<f32>(0.0, 1.0, 0.0)"@) + ")"@),
        ShaderNodeKind::Length => lemma_let_line(id, "length("@ + i0("vec3<f32>(0.0)"@) + ")"@),
        ShaderNodeKind::Saturate => lemma_let_line(id, "clamp("@ + i0("0.0"@) + ", 0.0, 1.0)"@),
        ShaderNodeKind::Negate => lemma_let_line(id, "-("@ + i0("0.0"@) + ")"@),
        ShaderNodeKind::OneMinus => lemma_let_line(id, "1.0 - ("@ + i0("0.0"@) + ")"@),
        _ => {},
    }
}

/// Two float constants with the same texts.
pub open spec fn same_literal(a: FloatLiteral, b: FloatLiteral) -> bool {
    a.fixed@ == b.fixed@ && a.debug@ == b.debug@
}

/// Two node kinds that are the same up to the identity of their texts.
pub open spec fn same_kind(a: ShaderNodeKind, b: ShaderNodeKind) -> bool {
    match a {
        ShaderNodeKind::ConstFloat(x) => match b {
            ShaderNodeKind::ConstFloat(y) => same_literal(x, y),
            _ => false,
        },
        ShaderNodeKind::ConstVec2(x1, x2) => match b {
            ShaderNodeKind::ConstVec2(y1, y2) => same_literal(x1, y1) && same_literal(x2, y2),
            _ => false,
        },
        ShaderNodeKind::ConstVec3(x1, x2, x3) => match b {
            ShaderNodeKind::ConstVec3(y1, y2, y3) => same_literal(x1, y1) && same_literal(x2, y2) && same_literal(x3, y3),
            _ => false,
        },
        ShaderNodeKind::ConstVec4(x1, x2, x3, x4) => match b {
            ShaderNodeKind::ConstVec4(y1, y2, y3, y4) => same_literal(x1, y1) && same_literal(x2, y2) && same_literal(x3, y3)
                && same_literal(x4, y4),
            _ => false,
        },
        ShaderNodeKind::ConstColor(x1, x2, x3, x4) => match b {
            ShaderNodeKind::ConstColor(y1, y2, y3, y4) => same_literal(x1, y1) && same_literal(x2, y2) && same_literal(x3, y3)
                && same_literal(x4, y4),
            _ => false,
        },
        _ => a == b,
    }
}

/// Two nodes with the same identifier, kind and label text.
pub open spec fn same_node(a: ShaderNode, b: ShaderNode) -> bool {
    a.id == b.id && same_kind(a.kind, b.kind) && a.label@ == b.label@
}

/// Two node lists that agree node by node.
pub open spec fn same_nodes(a: Seq<ShaderNode>, b: Seq<ShaderNode>) -> bool {
    a.len() == b.len() && forall|i: int| 0 <= i < a.len() ==> #[trigger] same_node(a[i], b[i])
}

proof fn lemma_same_node_text(conns: Seq<ShaderConnection>, a: ShaderNode, b: ShaderNode)
    requires
        same_node(a, b),
    ensures
        node_text(conns, a) == node_text(conns, b),
{
}

proof fn lemma_same_node_in(a: Seq<ShaderNode>, b: Seq<ShaderNode>, id: u32)
    requires
        same_nodes(a, b),
    ensures
        node_in(a, id) is None <==> node_in(b, id) is None,
        node_in(a, id) is Some ==> same_node(node_in(a, id)->0, node_in(b, id)->0),
    decreases a.len(),
{
    if a.len() > 0 {
        assert(same_node(a[0], b[0]));
        assert forall|i: int| 0 <= i < a.drop_first().len() implies #[trigger] same_node(a.drop_first()[i], b.drop_first()[i]) by {
            assert(same_node(a[i + 1], b[i + 1]));
        }
        lemma_same_node_in(a.drop_first(), b.drop_first(), id);
    }
}

proof fn lemma_same_output(a: Seq<ShaderNode>, b: Seq<ShaderNode>)
    requires
        same_nodes(a, b),
    ensures
        output_in(a) is None <==> output_in(b) is None,
        output_in(a) is Some ==> output_in(a)->0.id == output_in(b)->0.id,
    decreases a.len(),
{
    if a.len() > 0 {
        assert(same_node(a[0], b[0]));
        assert forall|i: int| 0 <= i < a.drop_first().len() implies #[trigger] same_node(a.drop_first()[i], b.drop_first()[i]) by {
            assert(same_node(a[i + 1], b[i + 1]));
        }
        lemma_same_output(a.drop_first(), b.drop_first());
    }
}

proof fn lemma_same_body(a: Seq<ShaderNode>, b: Seq<ShaderNode>, conns: Seq<ShaderConnection>, order: Seq<u32>, k: nat)
    requires
        same_nodes(a, b),
        k <= order.len(),
    ensures
        body_text(a, conns, order, k) == body_text(b, conns, order, k),
    decreases k,
{
    if k > 0 {
        lemma_same_body(a, b, conns, order, (k - 1) as nat);
        lemma_same_node_in(a, b, order[k - 1]);
        if node_in(a, order[k - 1]) is Some {
            lemma_same_node_text(conns, node_in(a, order[k - 1])->0, node_in(b, order[k - 1])->0);
        }
    }
}

/// `s` with `x` put in its place (nothing changes if `x` is there).
spec fn slot_inserted(s: Seq<u32>, x: u32) -> Seq<u32>
    decreases s.len(),
{
    if s.len() == 0 {
        seq![x]
    } else if x < s[0] {
        seq![x] + s
    } else if x == s[0] {
        s
    } else {
        seq![s[0]] + slot_inserted(s.drop_first(), x)
    }
}

proof fn lemma_slot_inserted(s: Seq<u32>, x: u32)
    requires
        increasing(s),
    ensures
        increasing(slot_inserted(s, x)),
        forall|y: u32| #[trigger] slot_inserted(s, x).contains(y) == (s.contains(y) || y == x),
        slot_inserted(s, x).len() > 0,
        slot_inserted(s, x)[0] == x || (s.len() > 0 && slot_inserted(s, x)[0] == s[0]),
    decreases s.len(),
{
    let r = slot_inserted(s, x);
    if s.len() == 0 {
        assert forall|y: u32| #[trigger] r.contains(y) == (s.contains(y) || y == x) by {
            if r.contains(y) {
                assert(r[0] == y);
            }
            if y == x {
                assert(r[0] == y);
            }
        }
    } else if x < s[0] {
        assert forall|y: u32| #[trigger] r.contains(y) == (s.contains(y) || y == x) by {
            if r.contains(y) {
                let i = choose|i: int| 0 <= i < r.len() && r[i] == y;
                if i > 0 {
                    assert(s[i - 1] == y);
                }
            }
            if s.contains(y) {
                let i = choose|i: int| 0 <= i < s.len() && s[i] == y;
                assert(r[i + 1] == y);
            }
            if y == x {
                assert(r[0] == y);
            }
        }
    } else if x == s[0] {
        assert forall|y: u32| #[trigger] r.contains(y) == (s.contains(y) || y == x) by {
            if y == x {
                assert(s[0] == y);
            }
        }
    } else {
        let t = s.drop_first();
        assert(increasing(t)) by {
            assert forall|i: int, j: int| 0 <= i < j < t.len() implies t[i] < t[j] by {
                assert(s[i + 1] < s[j + 1]);
            }
        }
        lemma_slot_inserted(t, x);
        let u = slot_inserted(t, x);
        assert(r == seq![s[0]] + u);
        assert forall|y: u32| #[trigger] r.contains(y) == (s.contains(y) || y == x) by {
            if r.contains(y) {
                let i = choose|i: int| 0 <= i < r.len() && r[i] == y;
                if i > 0 {
                    assert(u[i - 1] == y);
                    assert(u.contains(y));
                    if t.contains(y) {
                        let k = choose|k: int| 0 <= k < t.len() && t[k] == y;
                        assert(s[k + 1] == y);
                    }
                } else {
                    assert(s[0] == y);
                }
            }
            if s.contains(y) {
                let i = choose|i: int| 0 <= i < s.len() && s[i] == y;
                if i > 0 {
                    assert(t[i - 1] == y);
                    assert(t.contains(y));
                    assert(u.contains(y));
                    let k = choose|k: int| 0 <= k < u.len() && u[k] == y;
                    assert(r[k + 1] == y);
                } else {
                    assert(r[0] == y);
                }
            }
            if y == x {
                assert(u.contains(y));
                let k = choose|k: int| 0 <= k < u.len() && u[k] == y;
                assert(r[k + 1] == y);
            }
        }
        assert(s[0] < u[0]) by {
            if u[0] != x {
                assert(t.len() > 0 && u[0] == t[0]);
                assert(s[0] < s[1]);
            }
        }
        assert forall|i: int, j: int| 0 <= i < j < r.len() implies r[i] < r[j] by {
            if i == 0 {
                if j > 1 {
                    assert(u[0] < u[j - 1]);
                }
            } else {
                assert(u[i - 1] < u[j - 1]);
            }
        }
    }
}

proof fn lemma_slots_exist(nodes: Seq<ShaderNode>, k: int)
    requires
        0 <= k <= nodes.len(),
    ensures
        exists|s: Seq<u32>| increasing(s) && forall|x: u32| #[trigger] s.contains(x) == uses_slot(nodes.take(k), x),
    decreases k,
{
    if k == 0 {
        let s = Seq::<u32>::empty();
        assert forall|x: u32| #[trigger] s.contains(x) == uses_slot(nodes.take(k), x) by {
            if uses_slot(nodes.take(k), x) {
                let i = choose|i: int| 0 <= i < nodes.take(k).len() && #[trigger] samples_slot(nodes.take(k), i, x);
            }
        }
        assert(increasing(s));
    } else {
        lemma_slots_exist(nodes, k - 1);
        let s = choose|s: Seq<u32>| increasing(s) && forall|x: u32| #[trigger] s.contains(x) == uses_slot(nodes.take(k - 1), x);
        let pre = nodes.take(k - 1);
        let cur = nodes.take(k);
        let w = match nodes[k - 1].kind {
            ShaderNodeKind::TextureSample { binding_slot } => slot_inserted(s, binding_slot),
            _ => s,
        };
        if let ShaderNodeKind::TextureSample { binding_slot } = nodes[k - 1].kind {
            lemma_slot_inserted(s, binding_slot);
        }
        assert forall|x: u32| #[trigger] w.contains(x) == uses_slot(cur, x) by {
            if uses_slot(cur, x) {
                let i = choose|i: int| 0 <= i < cur.len() && #[trigger] samples_slot(cur, i, x);
                if i < k - 1 {
                    assert(samples_slot(pre, i, x));
                    assert(s.contains(x));
                }
            }
            if uses_slot(pre, x) {
                let i = choose|i: int| 0 <= i < pre.len() && #[trigger] samples_slot(pre, i, x);
                assert(samples_slot(cur, i, x));
            }
            if nodes[k - 1].kind matches ShaderNodeKind::TextureSample { binding_slot } && binding_slot == x {
                assert(samples_slot(cur, k - 1, x));
            }
        }
        assert(increasing(w));
    }
}

proof fn lemma_same_slots(a: Seq<ShaderNode>, b: Seq<ShaderNode>)
    requires
        same_nodes(a, b),
    ensures
        texture_slots(a) == texture_slots(b),
{
    assert forall|x: u32| uses_slot(a, x) == uses_slot(b, x) by {
        if uses_slot(a, x) {
            let i = choose|i: int| 0 <= i < a.len() && #[trigger] samples_slot(a, i, x);
            assert(same_node(a[i], b[i]));
            assert(samples_slot(b, i, x));
        }
        if uses_slot(b, x) {
            let i = choose|i: int| 0 <= i < b.len() && #[trigger] samples_slot(b, i, x);
            assert(same_node(a[i], b[i]));
            assert(samples_slot(a, i, x));
        }
    }
    lemma_slots_exist(a, a.len() as int);
    lemma_slots_exist(b, b.len() as int);
    assert(a.take(a.len() as int) =~= a);
    assert(b.take(b.len() as int) =~= b);
    let ta = texture_slots(a);
    let tb = texture_slots(b);
    assert(increasing(ta) && forall|x: u32| #[trigger] ta.contains(x) == uses_slot(a, x));
    assert(increasing(tb) && forall|x: u32| #[trigger] tb.contains(x) == uses_slot(b, x));
    lemma_increasing_unique(ta, tb);
}

/// Compiling depends on the nodes only through their identifiers, kinds
/// and texts: graphs that agree node by node compile alike.
proof fn lemma_same_compile(name: Seq<char>, a: Seq<ShaderNode>, b: Seq<ShaderNode>, conns: Seq<ShaderConnection>)
    requires
        same_nodes(a, b),
    ensures
        compile_result(name, a, conns) == compile_result(name, b, conns),
{
    assert(node_ids(a) =~= node_ids(b)) by {
        assert forall|i: int| 0 <= i < a.len() implies node_ids(a)[i] == node_ids(b)[i] by {
            assert(same_node(a[i], b[i]));
        }
    }
    lemma_same_output(a, b);
    lemma_same_slots(a, b);
    assert(topo_result(a, conns) == topo_result(b, conns));
    if topo_result(a, conns) is Some {
        let order = topo_result(a, conns)->0;
        lemma_same_body(a, b, conns, order, order.len());
    }
}

fn same_literal_exec(a: &FloatLiteral, b: &FloatLiteral) -> (r: bool)
    ensures
        r == same_literal(*a, *b),
{
    a.fixed == b.fixed && a.debug == b.debug
}

fn same_kind_exec(a: &ShaderNodeKind, b: &ShaderNodeKind) -> (r: bool)
    ensures
        r ==> same_kind(*a, *b),
{
    match a {
        ShaderNodeKind::TexCoord { set: x } => match b {
            ShaderNodeKind::TexCoord { set: y } => *x == *y,
            _ => false,
        },
        ShaderNodeKind::TextureSample { binding_slot: x } => match b {
            ShaderNodeKind::TextureSample { binding_slot: y } => *x == *y,
            _ => false,
        },
        ShaderNodeKind::ConstFloat(x) => match b {
            ShaderNodeKind::ConstFloat(y) => same_literal_exec(x, y),
            _ => false,
        },
        ShaderNodeKind::ConstVec2(x1, x2) => match b {
            ShaderNodeKind::ConstVec2(y1, y2) => same_literal_exec(x1, y1) && same_literal_exec(x2, y2),
            _ => false,
        },
        ShaderNodeKind::ConstVec3(x1, x2, x3) => match b {
            ShaderNodeKind::ConstVec3(y1, y2, y3) => same_literal_exec(x1, y1) && same_literal_exec(x2, y2)
                && same_literal_exec(x3, y3),
            _ => false,
        },
        ShaderNodeKind::ConstVec4(x1, x2, x3, x4) => match b {
            ShaderNodeKind::ConstVec4(y1, y2, y3, y4) => same_literal_exec(x1, y1) && same_literal_exec(x2, y2)
                && same_literal_exec(x3, y3) && same_literal_exec(x4, y4),
            _ => false,
        },
        ShaderNodeKind::ConstColor(x1, x2, x3, x4) => match b {
            ShaderNodeKind::ConstColor(y1, y2, y3, y4) => same_literal_exec(x1, y1) && same_literal_exec(x2, y2)
                && same_literal_exec(x3, y3) && same_literal_exec(x4, y4),
            _ => false,
        },
        ShaderNodeKind::WorldPosition => match b {
            ShaderNodeKind::WorldPosition => true,
            _ => false,
        },
        ShaderNodeKind::WorldNormal => match b {
            ShaderNodeKind::WorldNormal => true,
            _ => false,
        },
        ShaderNodeKind::ViewDirection => match b {
            ShaderNodeKind::ViewDirection => true,
            _ => false,
        },
        ShaderNodeKind::Time => match b {
            ShaderNodeKind::Time => true,
            _ => false,
        },
        ShaderNodeKind::Add => match b {
            ShaderNodeKind::Add => true,
            _ => false,
        },
        ShaderNodeKind::Subtract => match b {
            ShaderNodeKind::Subtract => true,
            _ => false,
        },
        ShaderNodeKind::Multiply => match b {
            ShaderNodeKind::Multiply => true,
            _ => false,
        },
        ShaderNodeKind::Divide => match b {
            ShaderNodeKind::Divide => true,
            _ => false,
        },
        ShaderNodeKind::Power => match b {
            ShaderNodeKind::Power => true,
            _ => false,
        },
        ShaderNodeKind::Sqrt => match b {
            ShaderNodeKind::Sqrt => true,
            _ => false,
        },
        ShaderNodeKind::Abs => match b {
            ShaderNodeKind::Abs => true,
            _ => false,
        },
        ShaderNodeKind::Clamp => match b {
            ShaderNodeKind::Clamp => true,
            _ => false,
        },
        ShaderNodeKind::Dot => match b {
            ShaderNodeKind::Dot => true,
            _ => false,
        },
        ShaderNodeKind::Cross => match b {
            ShaderNodeKind::Cross => true,
            _ => false,
        },
        ShaderNodeKind::Normalize => match b {
            ShaderNodeKind::Normalize => true,
            _ => false,
        },
        ShaderNodeKind::Length => match b {
            ShaderNodeKind::Length => true,
            _ => false,
        },
        ShaderNodeKind::Saturate => match b {
            ShaderNodeKind::Saturate => true,
            _ => false,
        },
        ShaderNodeKind::Negate => match b {
            ShaderNodeKind::Negate => true,
            _ => false,
        },
        ShaderNodeKind::OneMinus => match b {
            ShaderNodeKind::OneMinus => true,
            _ => false,
        },
        ShaderNodeKind::Lerp => match b {
            ShaderNodeKind::Lerp => true,
            _ => false,
        },
        ShaderNodeKind::Smoothstep => match b {
            ShaderNodeKind::Smoothstep => true,
            _ => false,
        },
        ShaderNodeKind::If => match b {
            ShaderNodeKind::If => true,
            _ => false,
        },
        ShaderNodeKind::Fresnel => match b {
            ShaderNodeKind::Fresnel => true,
            _ => false,
        },
        ShaderNodeKind::SplitVec4 => match b {
            ShaderNodeKind::SplitVec4 => true,
            _ => false,
        },
        ShaderNodeKind::CombineVec4 => match b {
            ShaderNodeKind::CombineVec4 => true,
            _ => false,
        },
        ShaderNodeKind::PbrOutput => match b {
            ShaderNodeKind::PbrOutput => true,
            _ => false,
        },
    }
}

fn copy_literal(a: &FloatLiteral) -> (c: FloatLiteral)
    ensures
        same_literal(c, *a),
{
    FloatLiteral { fixed: a.fixed.clone(), debug: a.debug.clone() }
}

fn copy_kind(a: &ShaderNodeKind) -> (c: ShaderNodeKind)
    ensures
        same_kind(c, *a),
{
    match a {
        ShaderNodeKind::TexCoord { set } => ShaderNodeKind::TexCoord { set: *set },
        ShaderNodeKind::TextureSample { binding_slot } => ShaderNodeKind::TextureSample { binding_slot: *binding_slot },
        ShaderNodeKind::ConstFloat(x) => ShaderNodeKind::ConstFloat(copy_literal(x)),
        ShaderNodeKind::ConstVec2(x1, x2) => ShaderNodeKind::ConstVec2(copy_literal(x1), copy_literal(x2)),
        ShaderNodeKind::ConstVec3(x1, x2, x3) => ShaderNodeKind::ConstVec3(copy_literal(x1), copy_literal(x2), copy_literal(x3)),
        ShaderNodeKind::ConstVec4(x1, x2, x3, x4) => ShaderNodeKind::ConstVec4(
            copy_literal(x1),
            copy_literal(x2),
            copy_literal(x3),
            copy_literal(x4),
        ),
        ShaderNodeKind::ConstColor(x1, x2, x3, x4) => ShaderNodeKind::ConstColor(
            copy_literal(x1),
            copy_literal(x2),
            copy_literal(x3),
            copy_literal(x4),
        ),
        ShaderNodeKind::WorldPosition => ShaderNodeKind::WorldPosition,
        ShaderNodeKind::WorldNormal => ShaderNodeKind::WorldNormal,
        ShaderNodeKind::ViewDirection => ShaderNodeKind::ViewDirection,
        ShaderNodeKind::Time => ShaderNodeKind::Time,
        ShaderNodeKind::Add => ShaderNodeKind::Add,
        ShaderNodeKind::Subtract => ShaderNodeKind::Subtract,
        ShaderNodeKind::Multiply => ShaderNodeKind::Multiply,
        ShaderNodeKind::Divide => ShaderNodeKind::Divide,
        ShaderNodeKind::Power => ShaderNodeKind::Power,
        ShaderNodeKind::Sqrt => ShaderNodeKind::Sqrt,
        ShaderNodeKind::Abs => ShaderNodeKind::Abs,
        ShaderNodeKind::Clamp => ShaderNodeKind::Clamp,
        ShaderNodeKind::Dot => ShaderNodeKind::Dot,
        ShaderNodeKind::Cross => ShaderNodeKind::Cross,
        ShaderNodeKind::Normalize => ShaderNodeKind::Normalize,
        ShaderNodeKind::Length => ShaderNodeKind::Length,
        ShaderNodeKind::Saturate => ShaderNodeKind::Saturate,
        ShaderNodeKind::Negate => ShaderNodeKind::Negate,
        ShaderNodeKind::OneMinus => ShaderNodeKind::OneMinus,
        ShaderNodeKind::Lerp => ShaderNodeKind::Lerp,
        ShaderNodeKind::Smoothstep => ShaderNodeKind::Smoothstep,
        ShaderNodeKind::If => ShaderNodeKind::If,
        ShaderNodeKind::Fresnel => ShaderNodeKind::Fresnel,
        ShaderNodeKind::SplitVec4 => ShaderNodeKind::SplitVec4,
        ShaderNodeKind::CombineVec4 => ShaderNodeKind::CombineVec4,
        ShaderNodeKind::PbrOutput => ShaderNodeKind::PbrOutput,
    }
}

fn copy_nodes(v: &Vec<ShaderNode>) -> (c: Vec<ShaderNode>)
    ensures
        same_nodes(c@, v@),
{
    let mut c: Vec<ShaderNode> = Vec::new();
    let mut i: usize = 0;
    while i < v.len()
        invariant
            i <= v@.len(),
            c@.len() == i,
            forall|k: int| 0 <= k < i ==> #[trigger] same_node(c@[k], v@[k]),
        decreases v@.len() - i,
    {
        let n = &v[i];
        c.push(ShaderNode { id: n.id, kind: copy_kind(&n.kind), label: n.label.clone() });
        i = i + 1;
    }
    c
}

fn same_nodes_exec(a: &Vec<ShaderNode>, b: &Vec<ShaderNode>) -> (r: bool)
    ensures
        r ==> same_nodes(a@, b@),
{
    if a.len() != b.len() {
        return false;
    }
    let mut i: usize = 0;
    while i < a.len()
        invariant
            a@.len() == b@.len(),
            i <= a@.len(),
            forall|k: int| 0 <= k < i ==> #[trigger] same_node(a@[k], b@[k]),
        decreases a@.len() - i,
    {
        if a[i].id != b[i].id || !same_kind_exec(&a[i].kind, &b[i].kind) || a[i].label != b[i].label {
            return false;
        }
        i = i + 1;
    }
    true
}

fn same_connections(a: &Vec<ShaderConnection>, b: &Vec<ShaderConnection>) -> (r: bool)
    ensures
        r ==> a@ == b@,
{
    if a.len() != b.len() {
        return false;
    }
    let mut i: usize = 0;
    while i < a.len()
        invariant
            a@.len() == b@.len(),
            i <= a@.len(),
            forall|k: int| 0 <= k < i ==> a@[k] == b@[k],
        decreases a@.len() - i,
    {
        let x = a[i];
        let y = b[i];
        if x.from_node != y.from_node || x.from_slot != y.from_slot || x.to_node != y.to_node || x.to_slot != y.to_slot {
            return false;
        }
        i = i + 1;
    }
    assert(a@ =~= b@);
    true
}

/// A cached compile: a copy of the graph it was made from and its WGSL.
struct CacheEntry {
    name: String,
    nodes: Vec<ShaderNode>,
    connections: Vec<ShaderConnection>,
    wgsl: String,
}

/// The cached text is what the stored graph compiles to.
spec fn entry_ok(e: CacheEntry) -> bool {
    compile_result(e.name@, e.nodes@, e.connections@) == Ok::<Seq<char>, Seq<char>>(e.wgsl@)
}

/// Caches compiled WGSL by graph content hash.  Each entry keeps a copy
/// of the graph it was compiled from, so a hash shared by two different
/// graphs never hands one of them the other's text.
pub struct ShaderGraphCache {
    entries: HashMap<u64, CacheEntry>,
}

impl ShaderGraphCache {
    /// Every entry holds the text its stored graph compiles to.
    #[verifier::type_invariant]
    spec fn entries_ok(&self) -> bool {
        forall|h: u64| #[trigger] self.entries@.contains_key(h) ==> entry_ok(self.entries@[h])
    }

    /// The cached WGSL texts by content hash.
    pub closed spec fn view(&self) -> Map<u64, Seq<char>> {
        self.entries@.map_values(|e: CacheEntry| e.wgsl@)
    }

    /// An empty cache.
    pub fn new() -> (c: Self)
        ensures
            c.view() == Map::<u64, Seq<char>>::empty(),
    {
        let c = ShaderGraphCache { entries: HashMap::new() };
        assert(c.view() =~= Map::<u64, Seq<char>>::empty());
        c
    }

    /// The WGSL of `graph`: the cached text when the entry under
    /// `content_hash` was compiled from a graph with the same name, nodes
    /// and connections, otherwise a fresh compile, which on success is
    /// cached under that hash.  The result is always what compiling `graph`
    /// gives.
    pub fn get_or_compile(&mut self, graph: &ShaderGraph, content_hash: u64) -> (r: Result<String, String>)
        requires
            node_ids(graph.node_seq()).no_duplicates(),
            graph.conn_seq().len() < u32::MAX,
            graph.node_seq().len() <= u32::MAX,
        ensures
            match r {
                Ok(w) => {
                    &&& compile_result(graph.name_text(), graph.node_seq(), graph.conn_seq()) == Ok::<
                        Seq<char>,
                        Seq<char>,
                    >(w@)
                    &&& final(self).view() == old(self).view().insert(content_hash, w@)
                },
                Err(e) => {
                    &&& compile_result(graph.name_text(), graph.node_seq(), graph.conn_seq()) == Err::<
                        Seq<char>,
                        Seq<char>,
                    >(e@)
                    &&& final(self).view() == old(self).view()
                },
            },
    {
        broadcast use vstd::std_specs::hash::group_hash_axioms;

        proof {
            use_type_invariant(&*self);
        }
        match self.entries.get(&content_hash) {
            Some(cached) => {
                if cached.name == graph.name && same_nodes_exec(&cached.nodes, &graph.nodes) && same_connections(
                    &cached.connections,
                    &graph.connections,
                ) {
                    proof {
                        assert(entry_ok(*cached));
                        lemma_same_compile(graph.name_text(), cached.nodes@, graph.node_seq(), graph.conn_seq());
                        assert(self.view().insert(content_hash, cached.wgsl@) =~= self.view());
                    }
                    return Ok(cached.wgsl.clone());
                }
            },
            None => {},
        }
        let wgsl = ShaderGraphCompiler::compile(graph)?;
        let entry = CacheEntry {
            name: graph.name.clone(),
            nodes: copy_nodes(&graph.nodes),
            connections: graph.connections.clone(),
            wgsl: wgsl.clone(),
        };
        proof {
            lemma_same_compile(graph.name_text(), entry.nodes@, graph.node_seq(), graph.conn_seq());
            assert(entry_ok(entry));
        }
        let mut map: HashMap<u64, CacheEntry> = HashMap::new();
        std::mem::swap(&mut map, &mut self.entries);
        let ghost before = map@;
        map.insert(content_hash, entry);
        proof {
            assert forall|h: u64| #[trigger] map@.contains_key(h) implies entry_ok(map@[h]) by {
                if h != content_hash {
                    assert(before.contains_key(h));
                }
            }
        }
        self.entries = map;
        proof {
            assert(self.view() =~= old(self).view().insert(content_hash, wgsl@));
        }
        Ok(wgsl)
    }

    /// Invalidate all cached entries.
    pub fn clear(&mut self)
        ensures
            final(self).view() == Map::<u64, Seq<char>>::empty(),
    {
        self.entries = HashMap::new();
        assert(self.view() =~= Map::<u64, Seq<char>>::empty());
    }
}

impl Default for ShaderGraphCache {
    fn default() -> (c: Self)
        ensures
            c.view() == Map::<u64, Seq<char>>::empty(),
    {
        ShaderGraphCache::new()
    }
}

/// The domain a material graph targets.  Each domain changes which
/// outputs are available and how the compiled WGSL is integrated into the
/// pipeline.
#[derive(Debug, Clone, Copy, PartialEq, Eq, Hash, Structural)]
pub enum MaterialDomain {
    /// Standard PBR surface (mesh rendering).
    Surface,
    /// Post-process full-screen effect.
    PostProcess,
    /// Deferred decal projection.
    Decal,
    /// UI / 2D element.
    UI,
    /// Unlit surface: no PBR lighting.
    Unlit,
}

/// Output slot names of a domain.
pub open spec fn domain_slots(d: MaterialDomain) -> Seq<Seq<char>> {
    match d {
        MaterialDomain::Surface => seq!["base_color"@, "normal"@, "roughness"@, "metallic"@, "emissive"@, "alpha"@],
        MaterialDomain::PostProcess => seq!["color"@],
        MaterialDomain::Decal => seq!["base_color"@, "normal"@, "roughness"@],
        MaterialDomain::UI => seq!["color"@, "alpha"@],
        MaterialDomain::Unlit => seq!["color"@, "alpha"@],
    }
}

impl MaterialDomain {
    /// Names of the output slots for this domain.
    pub fn output_slot_names(&self) -> (names: Vec<&'static str>)
        ensures
            names@.len() == domain_slots(*self).len(),
            forall|i: int| 0 <= i < names@.len() ==> #[trigger] names@[i]@ == domain_slots(*self)[i],
    {
        let mut v: Vec<&'static str> = Vec::new();
        match self {
            MaterialDomain::Surface => {
                v.push("base_color");
                v.push("normal");
                v.push("roughness");
                v.push("metallic");
                v.push("emissive");
                v.push("alpha");
            },
            MaterialDomain::PostProcess => {
                v.push("color");
            },
            MaterialDomain::Decal => {
                v.push("base_color");
                v.push("normal");
                v.push("roughness");
            },
            MaterialDomain::UI | MaterialDomain::Unlit => {
                v.push("color");
                v.push("alpha");
            },
        }
        v
    }

    /// Whether this domain participates in the deferred G-buffer pass
    /// (surfaces and decals).
    pub fn uses_gbuffer(&self) -> (b: bool)
        ensures
            b == (*self == MaterialDomain::Surface || *self == MaterialDomain::Decal),
    {
        match self {
            MaterialDomain::Surface | MaterialDomain::Decal => true,
            _ => false,
        }
    }
}

/// Blend mode for a material.
#[derive(Debug, Clone, Copy, PartialEq, Eq, Structural)]
pub enum BlendMode {
    Opaque,
    AlphaTest,
    AlphaBlend,
    Additive,
    Multiply,
}

/// `pat` occurs in `s`.
pub open spec fn contains_text(s: Seq<char>, pat: Seq<char>) -> bool {
    exists|i: int| 0 <= i && i + pat.len() <= s.len() && #[trigger] s.subrange(i, i + pat.len()) == pat
}

fn str_contains(s: &String, pat: &str) -> (b: bool)
    ensures
        b == contains_text(s@, pat@),
{
    let sv = s.as_str();
    let n = sv.unicode_len();
    let m = pat.unicode_len();
    if m > n {
        proof {
            assert forall|i: int| 0 <= i && i + pat@.len() <= s@.len() implies #[trigger] s@.subrange(i, i + pat@.len()) != pat@ by {}
        }
        return false;
    }
    let mut i: usize = 0;
    while i <= n - m
        invariant
            n == s@.len(),
            sv@ == s@,
            m == pat@.len(),
            m <= n,
            i <= n - m + 1,
            forall|k: int| 0 <= k < i ==> #[trigger] s@.subrange(k, k + m) != pat@,
        decreases n - m + 1 - i,
    {
        let mut j: usize = 0;
        let mut same = true;
        while j < m
            invariant
                n == s@.len(),
                sv@ == s@,
                m == pat@.len(),
                i + m <= n,
                j <= m,
                same == forall|q: int| 0 <= q < j ==> s@[i + q] == pat@[q],
            decreases m - j,
        {
            if sv.get_char(i + j) != pat.get_char(j) {
                same = false;
            }
            j = j + 1;
        }
        if same {
            assert(s@.subrange(i as int, i + m) =~= pat@);
            return true;
        }
        proof {
            if s@.subrange(i as int, i + m) == pat@ {
                let q = choose|q: int| 0 <= q < m && s@[i + q] != pat@[q];
                assert(s@.subrange(i as int, i + m)[q] == s@[i + q]);
            }
        }
        i = i + 1;
    }
    false
}

/// A material graph: a shader graph with a domain and render-state
/// metadata.
#[derive(Debug, Clone)]
pub struct MaterialGraph {
    pub graph: ShaderGraph,
    pub domain: MaterialDomain,
    /// Alpha blending mode.
    pub blend_mode: BlendMode,
    /// Whether back-face culling is disabled.
    pub two_sided: bool,
    /// Render queue priority override (lower = drawn first).
    pub queue_priority: i32,
}

/// Validation of a material: the graph's diagnostics, except that outside
/// the surface domain, when the graph has no PBR output node, the
/// diagnostics mentioning `PbrOutput` are dropped.
pub open spec fn material_diags(domain: MaterialDomain, nodes: Seq<ShaderNode>, conns: Seq<ShaderConnection>) -> Seq<DiagView> {
    let v = validate_diags(nodes, conns);
    if domain != MaterialDomain::Surface && output_in(nodes) is None {
        v.filter(|d: DiagView| !contains_text(d.2, "PbrOutput"@))
    } else {
        v
    }
}

/// What compiling a material yields: post-process materials are
/// colour-only (no PBR output structure), every other domain compiles as a
/// PBR shader graph.
pub open spec fn material_compile_result(
    domain: MaterialDomain,
    name: Seq<char>,
    nodes: Seq<ShaderNode>,
    conns: Seq<ShaderConnection>,
) -> Result<Seq<char>, Seq<char>> {
    compile_result_for(domain != MaterialDomain::PostProcess, name, nodes, conns)
}

impl MaterialGraph {
    /// A material graph with an empty shader graph, opaque, one-sided, at
    /// the default queue priority.
    pub fn new(name: &str, domain: MaterialDomain) -> (m: Self)
        ensures
            m.graph.name_text() == name@,
            m.graph.node_seq().len() == 0,
            m.graph.conn_seq().len() == 0,
            m.graph.next_node_id() == 0,
            m.domain == domain,
            m.blend_mode == BlendMode::Opaque,
            !m.two_sided,
            m.queue_priority == 0,
    {
        MaterialGraph { graph: ShaderGraph::new(name), domain, blend_mode: BlendMode::Opaque, two_sided: false, queue_priority: 0 }
    }

    /// Compile the material's graph to WGSL: a post-process material gets
    /// the colour-only preamble and tail, every other domain the standard
    /// PBR one.
    pub fn compile(&self) -> (r: Result<String, String>)
        requires
            node_ids(self.graph.node_seq()).no_duplicates(),
            self.graph.conn_seq().len() < u32::MAX,
            self.graph.node_seq().len() <= u32::MAX,
        ensures
            match r {
                Ok(s) => material_compile_result(self.domain, self.graph.name_text(), self.graph.node_seq(), self.graph.conn_seq())
                    == Ok::<Seq<char>, Seq<char>>(s@),
                Err(e) => material_compile_result(self.domain, self.graph.name_text(), self.graph.node_seq(), self.graph.conn_seq())
                    == Err::<Seq<char>, Seq<char>>(e@),
            },
    {
        match self.domain {
            MaterialDomain::PostProcess => compile_graph(&self.graph, false),
            _ => compile_graph(&self.graph, true),
        }
    }

    /// Validate the material graph (see `material_diags`).
    pub fn validate(&self) -> (diags: Vec<ShaderGraphDiagnostic>)
        requires
            node_ids(self.graph.node_seq()).no_duplicates(),
            self.graph.conn_seq().len() < u32::MAX,
        ensures
            diag_views(diags@) == material_diags(self.domain, self.graph.node_seq(), self.graph.conn_seq()),
    {
        let diags = ShaderGraphCompiler::validate(&self.graph);
        if self.domain != MaterialDomain::Surface && self.graph.output_node().is_none() {
            let ghost v = diag_views(diags@);
            let mut kept: Vec<ShaderGraphDiagnostic> = Vec::new();
            let n = diags.len();
            let mut i: usize = 0;
            proof {
                assert(diag_views(kept@) =~= v.take(0).filter(|d: DiagView| !contains_text(d.2, "PbrOutput"@)));
            }
            while i < n
                invariant
                    n == diags@.len(),
                    v == diag_views(diags@),
                    i <= n,
                    diag_views(kept@) == v.take(i as int).filter(|d: DiagView| !contains_text(d.2, "PbrOutput"@)),
                decreases n - i,
            {
                let d = &diags[i];
                let mentions = str_contains(&d.message, "PbrOutput");
                proof {
                    assert(v.take(i + 1).drop_last() =~= v.take(i as int));
                    reveal(Seq::filter);
                }
                if !mentions {
                    push_diag(&mut kept, d.node_id, d.severity, d.message.clone());
                }
                proof {
                    assert(v.take(i + 1).last() == v[i as int]);
                }
                i = i + 1;
            }
            proof {
                assert(v.take(n as int) =~= v);
            }
            return kept;
        }
        diags
    }
}

/// Whether a degree map has an entry for `x`.
pub open spec fn deg_contains(d: Map<u32, int>, x: u32) -> bool {
    d.dom().contains(x)
}

} // verus!
