use quasar_render::shader_graph::{
    fnv1a_64, DiagnosticSeverity, FloatLiteral, MaterialDomain, MaterialGraph, ShaderGraph, ShaderGraphCache,
    ShaderGraphCompiler, ShaderNode, ShaderNodeKind,
};

fn lit(fixed: &str, debug: &str) -> FloatLiteral {
    FloatLiteral { fixed: fixed.to_string(), debug: debug.to_string() }
}

fn tinted_graph() -> ShaderGraph {
    let mut g = ShaderGraph::new("tinted");
    let uv = g.add_node(ShaderNodeKind::TexCoord { set: 0 });
    let tex = g.add_node(ShaderNodeKind::TextureSample { binding_slot: 3 });
    let tint = g.add_node(ShaderNodeKind::ConstColor(lit("1.000000", "1.0"), lit("0.500000", "0.5"), lit("0.250000", "0.25"), lit("1.000000", "1.0")));
    let mul = g.add_node(ShaderNodeKind::Multiply);
    let out = g.add_node(ShaderNodeKind::PbrOutput);
    g.connect(uv, 0, tex, 0);
    g.connect(tex, 0, mul, 0);
    g.connect(tint, 0, mul, 1);
    g.connect(mul, 0, out, 0);
    g
}

#[test]
fn node_labels_are_kind_debug_text() {
    let n = ShaderNode::new(4, ShaderNodeKind::TexCoord { set: 2 });
    assert_eq!(n.label, "TexCoord { set: 2 }");
    let c = ShaderNode::new(5, ShaderNodeKind::ConstVec2(lit("0.500000", "0.5"), lit("2.000000", "2.0")));
    assert_eq!(c.label, "ConstVec2([0.5, 2.0])");
    assert_eq!(ShaderNode::new(1, ShaderNodeKind::Fresnel).label, "Fresnel");
}

#[test]
fn slot_counts() {
    assert_eq!(ShaderNode::new(0, ShaderNodeKind::PbrOutput).input_count(), 6);
    assert_eq!(ShaderNode::new(0, ShaderNodeKind::PbrOutput).output_count(), 0);
    assert_eq!(ShaderNode::new(0, ShaderNodeKind::SplitVec4).output_count(), 4);
    assert_eq!(ShaderNode::new(0, ShaderNodeKind::If).input_count(), 4);
    assert_eq!(ShaderNode::new(0, ShaderNodeKind::Add).input_count(), 2);
}

#[test]
fn compiles_a_tinted_texture_material() {
    let g = tinted_graph();
    let wgsl = ShaderGraphCompiler::compile(&g).unwrap();
    assert!(wgsl.starts_with("// Auto-generated by ShaderGraphCompiler\n// Graph: tinted\n\n"));
    assert!(wgsl.contains("@group(2) @binding(0) var tex_3: texture_2d<f32>;\n@group(2) @binding(1) var samp_3: sampler;\n"));
    assert!(wgsl.contains(" let node_0_0 = input.uv;\n"));
    assert!(wgsl.contains("    let node_1_0 = textureSample(tex_3, samp_3, node_0_0);\n"));
    assert!(wgsl.contains("    let node_2_0 = vec4<f32>(1.000000, 0.500000, 0.250000, 1.000000);\n"));
    assert!(wgsl.contains("    let node_3_0 = node_1_0 * node_2_0;\n"));
    assert!(wgsl.contains("    out.base_color = node_3_0;\n"));
    assert!(wgsl.contains("    out.normal     = input.world_normal;\n"));
    assert!(wgsl.ends_with("    return mat.base_color;\n}\n"));
    let p_tex = wgsl.find("node_1_0 =").unwrap();
    let p_mul = wgsl.find("node_3_0 =").unwrap();
    assert!(p_tex < p_mul);
}

#[test]
fn texture_bindings_are_sorted_and_deduplicated() {
    let mut g = ShaderGraph::new("tex");
    g.add_node(ShaderNodeKind::TextureSample { binding_slot: 7 });
    g.add_node(ShaderNodeKind::TextureSample { binding_slot: 2 });
    g.add_node(ShaderNodeKind::TextureSample { binding_slot: 7 });
    g.add_node(ShaderNodeKind::PbrOutput);
    assert_eq!(ShaderGraphCompiler::texture_slots(&g), vec![2, 7]);
    let wgsl = ShaderGraphCompiler::compile(&g).unwrap();
    assert!(wgsl.contains("@group(2) @binding(0) var tex_2"));
    assert!(wgsl.contains("@group(2) @binding(2) var tex_7"));
    assert!(wgsl.contains("@group(2) @binding(3) var samp_7"));
}

#[test]
fn compile_errors() {
    let mut g = ShaderGraph::new("none");
    g.add_node(ShaderNodeKind::Time);
    assert_eq!(ShaderGraphCompiler::compile(&g), Err("No PbrOutput node found".to_string()));
    let mut c = ShaderGraph::new("cycle");
    let a = c.add_node(ShaderNodeKind::Abs);
    let b = c.add_node(ShaderNodeKind::Negate);
    c.add_node(ShaderNodeKind::PbrOutput);
    c.connect(a, 0, b, 0);
    c.connect(b, 0, a, 0);
    assert_eq!(ShaderGraphCompiler::compile(&c), Err("Cycle detected in shader graph".to_string()));
}

#[test]
fn topological_order_uses_a_stack() {
    let mut g = ShaderGraph::new("order");
    let a = g.add_node(ShaderNodeKind::Time);
    let b = g.add_node(ShaderNodeKind::Time);
    let c = g.add_node(ShaderNodeKind::Add);
    g.connect(a, 0, c, 0);
    g.connect(b, 0, c, 1);
    assert_eq!(ShaderGraphCompiler::topological_order(&g), Ok(vec![b, a, c]));
}

#[test]
fn validate_reports_each_problem() {
    let mut g = ShaderGraph::new("bad");
    let a = g.add_node(ShaderNodeKind::Time);
    g.connect(a, 3, 42, 0);
    let d = ShaderGraphCompiler::validate(&g);
    let msgs: Vec<&str> = d.iter().map(|x| x.message.as_str()).collect();
    assert_eq!(
        msgs,
        vec![
            "No PbrOutput node in the graph.",
            "Connection references missing target node 42.",
            "Output slot 3 exceeds node Time output count (1).",
            "Cycle detected in shader graph",
        ]
    );
    assert_eq!(d[1].node_id, Some(a));
    assert!(d.iter().all(|x| x.severity == DiagnosticSeverity::Error));
}

#[test]
fn validate_warns_about_unconnected_outputs() {
    let g = tinted_graph();
    let d = ShaderGraphCompiler::validate(&g);
    assert_eq!(d.len(), 5);
    assert_eq!(d[0].message, "PbrOutput.normal is unconnected \u{2014} using default.");
    assert!(d.iter().all(|x| x.severity == DiagnosticSeverity::Warning));
}

#[test]
fn compile_live_reports_size() {
    let g = tinted_graph();
    let r = ShaderGraphCompiler::compile_live(&g);
    assert!(r.success);
    let last = r.diagnostics.last().unwrap();
    assert_eq!(last.severity, DiagnosticSeverity::Info);
    assert_eq!(last.message, format!("Compiled OK \u{2014} {} bytes WGSL.", r.wgsl.len()));
    let mut bad = ShaderGraph::new("bad");
    bad.add_node(ShaderNodeKind::Add);
    let r = ShaderGraphCompiler::compile_live(&bad);
    assert!(!r.success);
    assert!(r.wgsl.is_empty());
}

#[test]
fn cache_returns_what_it_stored() {
    let g = tinted_graph();
    let mut cache = ShaderGraphCache::new();
    let first = cache.get_or_compile(&g, 77).unwrap();
    assert_eq!(first, ShaderGraphCompiler::compile(&g).unwrap());
    let again = cache.get_or_compile(&g.clone(), 77).unwrap();
    assert_eq!(first, again);
    let mut other = ShaderGraph::new("other");
    other.add_node(ShaderNodeKind::Time);
    assert!(cache.get_or_compile(&other, 77).is_err());
    cache.clear();
    assert_eq!(cache.get_or_compile(&g, 77).unwrap(), first);
}

#[test]
fn cache_never_hands_one_graph_another_graphs_text() {
    let mut g1 = ShaderGraph::new("a");
    g1.add_node(ShaderNodeKind::PbrOutput);
    let mut g2 = ShaderGraph::new("b");
    g2.add_node(ShaderNodeKind::PbrOutput);
    let mut cache = ShaderGraphCache::new();
    let w1 = cache.get_or_compile(&g1, 5).unwrap();
    let w2 = cache.get_or_compile(&g2, 5).unwrap();
    assert!(w1.contains("// Graph: a"));
    assert!(w2.contains("// Graph: b"));
    assert_eq!(w2, ShaderGraphCompiler::compile(&g2).unwrap());
}

#[test]
fn fnv1a_known_values() {
    assert_eq!(fnv1a_64(b""), 0xcbf29ce484222325);
    assert_eq!(fnv1a_64(b"a"), 0xaf63dc4c8601ec8c);
    assert_eq!(fnv1a_64(b"foobar"), 0x85944171f73967e8);
}

#[test]
fn material_domains() {
    assert_eq!(MaterialDomain::Surface.output_slot_names(), vec!["base_color", "normal", "roughness", "metallic", "emissive", "alpha"]);
    assert_eq!(MaterialDomain::PostProcess.output_slot_names(), vec!["color"]);
    assert!(MaterialDomain::Decal.uses_gbuffer());
    assert!(!MaterialDomain::UI.uses_gbuffer());
}

#[test]
fn material_validation_relaxes_output_outside_surfaces() {
    let mut m = MaterialGraph::new("post", MaterialDomain::PostProcess);
    m.graph.add_node(ShaderNodeKind::Time);
    assert!(m.validate().is_empty());
    let mut s = MaterialGraph::new("surf", MaterialDomain::Surface);
    s.graph.add_node(ShaderNodeKind::Time);
    assert_eq!(s.validate().len(), 1);
    assert!(m.compile().is_err());
}

#[test]
fn split_vec4_reads_the_input_components() {
    let mut g = ShaderGraph::new("g");
    let v = g.add_node(ShaderNodeKind::ConstVec4(lit("1.000000", "1.0"), lit("2.000000", "2.0"), lit("3.000000", "3.0"), lit("4.000000", "4.0")));
    let sp = g.add_node(ShaderNodeKind::SplitVec4);
    g.connect(v, 0, sp, 0);
    let mut s = String::new();
    ShaderGraphCompiler::emit_node(&mut s, &g, g.node(sp).unwrap());
    assert_eq!(
        s,
        " let node_1_0 = node_0_0.x;\n let node_1_1 = node_0_0.y;\n let node_1_2 = node_0_0.z;\n let node_1_3 = node_0_0.w;\n"
    );
}

#[test]
fn post_process_materials_omit_the_pbr_struct() {
    let mut post = MaterialGraph::new("m", MaterialDomain::PostProcess);
    post.graph.add_node(ShaderNodeKind::PbrOutput);
    let w = post.compile().unwrap();
    assert!(!w.contains("struct PbrOutput"));
    assert!(w.contains("fn evaluate_material(input: MaterialInput) -> vec4<f32> {"));
    assert!(w.contains("    return vec4<f32>(1.0, 1.0, 1.0, 1.0);\n"));
    let mut surface = MaterialGraph::new("m", MaterialDomain::Surface);
    surface.graph.add_node(ShaderNodeKind::PbrOutput);
    let w2 = surface.compile().unwrap();
    assert!(w2.contains("struct PbrOutput"));
    assert_eq!(w2, ShaderGraphCompiler::compile(&surface.graph).unwrap());
}
