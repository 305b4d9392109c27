use quasar_render::render_graph::{attachment_ids, pass_ids, AttachmentId, PassId, RenderGraph, RenderGraphError};
use quasar_render::render_graph::aliasing::{plan_aliasing, AttachmentDesc, Placement};
use quasar_render::render_plugin::standard_render_graph;

#[test]
fn create_graph() {
    let graph = RenderGraph::new();
    assert_eq!(graph.pass_count(), 0);
}

#[test]
fn topological_sort_respects_dependencies() {
    let mut graph = RenderGraph::new();
    let a = PassId(0);
    let b = PassId(1);
    let c = PassId(2);
    graph.add_pass(a);
    graph.add_pass(b);
    graph.add_pass(c);
    graph.add_dependency(c, a);
    graph.add_dependency(c, b);
    let order = graph.topological_sort().unwrap();
    let pos = |id: PassId| order.iter().position(|&x| x == id).unwrap();
    assert!(pos(a) < pos(c));
    assert!(pos(b) < pos(c));
}

#[test]
fn cycle_detected() {
    let mut graph = RenderGraph::new();
    let a = PassId(0);
    let b = PassId(1);
    graph.add_pass(a);
    graph.add_pass(b);
    graph.add_dependency(a, b);
    graph.add_dependency(b, a);
    let result = graph.topological_sort();
    assert!(matches!(result, Err(RenderGraphError::CycleDetected(_))));
}

#[test]
fn validate_missing_writer() {
    let mut graph = RenderGraph::new();
    let a = PassId(0);
    let att = AttachmentId(99);
    graph.add_pass(a);
    graph.add_input(a, att);
    let result = graph.compile();
    assert!(matches!(result, Err(RenderGraphError::MissingWriter { .. })));
}

#[test]
fn validate_missing_dependency() {
    let mut graph = RenderGraph::new();
    let a = PassId(0);
    let b = PassId(1);
    let att = AttachmentId(10);
    graph.add_pass(a);
    graph.add_pass(b);
    graph.add_output(a, att);
    graph.add_input(b, att);
    let result = graph.compile();
    assert!(matches!(result, Err(RenderGraphError::MissingDependency { .. })));
}

#[test]
fn validate_ok_with_dependency() {
    let mut graph = RenderGraph::new();
    let a = PassId(0);
    let b = PassId(1);
    let att = AttachmentId(10);
    graph.add_pass(a);
    graph.add_pass(b);
    graph.add_output(a, att);
    graph.add_input(b, att);
    graph.add_dependency(b, a);
    assert!(graph.compile().is_ok());
}

#[test]
fn validate_transitive_dependency_ok() {
    let mut graph = RenderGraph::new();
    let a = PassId(0);
    let b = PassId(1);
    let c = PassId(2);
    let att = AttachmentId(10);
    graph.add_pass(a);
    graph.add_pass(b);
    graph.add_pass(c);
    graph.add_output(a, att);
    graph.add_input(c, att);
    graph.add_dependency(b, a);
    graph.add_dependency(c, b);
    assert!(graph.compile().is_ok());
}

#[test]
fn error_messages_use_debug_names() {
    let e = RenderGraphError::CycleDetected(vec![PassId(0), PassId(1)]);
    assert_eq!(e.message(), "render graph cycle involving passes: [PassId(0), PassId(1)]");
    let e = RenderGraphError::MissingWriter { reader: PassId(2), attachment: AttachmentId(99) };
    assert_eq!(e.message(), "pass PassId(2) reads attachment AttachmentId(99) but no pass writes it");
    let e = RenderGraphError::MissingDependency { reader: PassId(1), writer: PassId(0), attachment: AttachmentId(10) };
    assert_eq!(
        e.message(),
        "pass PassId(1) reads attachment AttachmentId(10) written by PassId(0) but has no dependency on it"
    );
    assert_eq!(RenderGraphError::CycleDetected(vec![]).message(), "render graph cycle involving passes: []");
}

#[test]
fn standard_graph_orders_passes() {
    let g = standard_render_graph();
    assert_eq!(g.pass_count(), 5);
    let order = g.compile().unwrap();
    assert_eq!(order, vec![pass_ids::SHADOW(), pass_ids::OPAQUE(), pass_ids::TRANSPARENT(), pass_ids::POST_PROCESS(), pass_ids::UI()]);
    assert_eq!(attachment_ids::HDR_COLOR(), AttachmentId(0));
    assert_eq!(pass_ids::TONEMAP(), PassId(4));
}

#[test]
fn attachment_lifetimes_span_first_to_last_use() {
    let mut graph = RenderGraph::new();
    let a = PassId(0);
    let b = PassId(1);
    let c = PassId(2);
    let x = AttachmentId(5);
    let y = AttachmentId(6);
    graph.add_pass(a);
    graph.add_pass(b);
    graph.add_pass(c);
    graph.add_output(a, x);
    graph.add_input(c, x);
    graph.add_output(b, y);
    let order = vec![a, b, c];
    let lt = graph.attachment_lifetimes(&order);
    let find = |id: AttachmentId| lt.iter().find(|e| e.0 == id).map(|e| e.1);
    assert_eq!(find(x), Some((0, 2)));
    assert_eq!(find(y), Some((1, 1)));
    assert_eq!(find(AttachmentId(7)), None);
}

#[test]
fn aliasing_reuses_texture_after_last_use() {
    let desc = |id: u64| AttachmentDesc { id: AttachmentId(id), format_class: 1, width: 64, height: 64 };
    let lifetimes = vec![
        (AttachmentId(1), (0usize, 1usize)),
        (AttachmentId(2), (1, 2)),
        (AttachmentId(3), (2, 3)),
    ];
    let descs = [desc(3), desc(2), desc(1), desc(4)];
    let plan = plan_aliasing(&descs, &lifetimes);
    assert_eq!(plan.len(), 4);
    assert_eq!(plan[0].attachment, AttachmentId(1));
    assert_eq!(plan[0].placement, Placement::Pooled { slot: 0, reused: false });
    assert_eq!(plan[1].attachment, AttachmentId(2));
    assert_eq!(plan[1].placement, Placement::Pooled { slot: 1, reused: false });
    assert_eq!(plan[2].attachment, AttachmentId(3));
    assert_eq!(plan[2].placement, Placement::Pooled { slot: 0, reused: true });
    assert_eq!(plan[3].attachment, AttachmentId(4));
    assert_eq!(plan[3].placement, Placement::Standalone);
}

#[test]
fn aliasing_never_mixes_formats_or_sizes() {
    let lifetimes = vec![(AttachmentId(1), (0usize, 0usize)), (AttachmentId(2), (1, 1)), (AttachmentId(3), (2, 2))];
    let descs = [
        AttachmentDesc { id: AttachmentId(1), format_class: 1, width: 64, height: 64 },
        AttachmentDesc { id: AttachmentId(2), format_class: 2, width: 64, height: 64 },
        AttachmentDesc { id: AttachmentId(3), format_class: 1, width: 32, height: 64 },
    ];
    let plan = plan_aliasing(&descs, &lifetimes);
    assert_eq!(plan[0].placement, Placement::Pooled { slot: 0, reused: false });
    assert_eq!(plan[1].placement, Placement::Pooled { slot: 1, reused: false });
    assert_eq!(plan[2].placement, Placement::Pooled { slot: 2, reused: false });
}

#[test]
fn independent_passes_keep_declaration_order() {
    let mut graph = RenderGraph::new();
    let (a, b, c) = (PassId(0), PassId(1), PassId(2));
    graph.add_pass(a);
    graph.add_pass(b);
    graph.add_pass(c);
    assert_eq!(graph.topological_sort().unwrap(), vec![a, b, c]);
    graph.set_pass_order(vec![c]);
    assert_eq!(graph.topological_sort().unwrap(), vec![c, a, b]);
}

#[test]
fn ready_passes_are_queued_in_declaration_order() {
    let mut graph = RenderGraph::new();
    let (a, b, c, d) = (PassId(0), PassId(1), PassId(2), PassId(3));
    graph.add_pass(a);
    graph.add_pass(b);
    graph.add_pass(c);
    graph.add_pass(d);
    graph.add_dependency(b, d);
    graph.add_dependency(c, a);
    assert_eq!(graph.topological_sort().unwrap(), vec![a, d, c, b]);
}

#[test]
fn cycle_members_come_in_declaration_order() {
    let mut graph = RenderGraph::new();
    let (a, b, c) = (PassId(0), PassId(1), PassId(2));
    graph.add_pass(a);
    graph.add_pass(b);
    graph.add_pass(c);
    graph.add_dependency(c, b);
    graph.add_dependency(b, c);
    match graph.topological_sort() {
        Err(RenderGraphError::CycleDetected(ids)) => assert_eq!(ids, vec![b, c]),
        other => panic!("expected a cycle, got {:?}", other),
    }
}
