//! Recording, publishing, waiting, and timing of frames.

use gpui_mcp::frame::MAX_DIAGNOSTICS;
use gpui_mcp::number::{Double, Single};
use gpui_mcp::protocol::{
    ErrorCode, Highlight, NodeAction, NodeState, Rect, Role, SemanticDiagnosticCode, TextInfo,
    TextRange, UiNode, ValueInfo, MAX_TREE_NODES,
};
use gpui_mcp::registry::{SharedState, WaitSignal};
use gpui_mcp::string_map::StringMap;
use gpui_mcp::timing::{push_sample, timing_summary, TimingSummary, MAX_TIMING_SAMPLES};
use gpui_mcp::validation::{valid_diagnostic_id, validate_id, validate_node};

fn node(id: &str, parent: Option<&str>) -> UiNode {
    UiNode {
        id: id.to_owned(),
        parent: parent.map(str::to_owned),
        children: Vec::new(),
        role: Role::Generic,
        label: None,
        description: None,
        bounds: None,
        state: NodeState {
            visible: true,
            enabled: true,
            focused: false,
            checked: None,
            selected: None,
            expanded: None,
        },
        actions: Vec::new(),
        text: None,
        value: None,
        metadata: StringMap::new(),
    }
}

fn single(value: f32) -> Single {
    Single::from_bits(value.to_bits())
}

fn double(value: f64) -> Double {
    Double::from_bits(value.to_bits())
}

fn rect(x: f32, y: f32, width: f32, height: f32) -> Rect {
    Rect {
        x: single(x),
        y: single(y),
        width: single(width),
        height: single(height),
    }
}

#[test]
fn duplicate_ids_are_omitted_and_reported() {
    let mut state = SharedState::new();
    state.begin_frame(0);
    assert!(state.record(node("same", None)));
    assert!(!state.record(node("same", None)));
    state.finish_frame();

    let tree = state.tree();
    assert!(tree.nodes.is_empty());
    assert!(tree.diagnostics.iter().any(|diagnostic| {
        diagnostic.code == SemanticDiagnosticCode::DuplicateId
            && diagnostic.node_id.as_deref() == Some("same")
    }));
}

#[test]
fn missing_parents_and_cycles_are_rejected_without_rewriting_the_graph() {
    let mut state = SharedState::new();
    state.begin_frame(0);
    assert!(state.record(node("missing", Some("absent"))));
    assert!(state.record(node("a", Some("b"))));
    assert!(state.record(node("b", Some("a"))));
    state.finish_frame();

    let tree = state.tree();
    assert!(tree.nodes.is_empty());
    assert!(tree.roots.is_empty());
    assert!(tree
        .diagnostics
        .iter()
        .any(|diagnostic| diagnostic.code == SemanticDiagnosticCode::MissingParent));
    assert!(tree
        .diagnostics
        .iter()
        .any(|diagnostic| diagnostic.code == SemanticDiagnosticCode::ParentCycle));
}

#[test]
fn invalid_relationships_report_each_omitted_node_once_in_a_stable_order() {
    let mut state = SharedState::new();
    state.begin_frame(0);
    for (id, parent) in [
        ("root", None),
        ("kept", Some("root")),
        ("orphan", Some("absent")),
        ("orphan-child", Some("orphan")),
        ("orphan-grandchild", Some("orphan-child")),
        ("a", Some("b")),
        ("b", Some("a")),
        ("cycle-child", Some("a")),
    ] {
        assert!(state.record(node(id, parent)));
    }
    state.finish_frame();

    let tree = state.tree();
    assert_eq!(tree.nodes.keys(), ["kept", "root"]);
    let omitted: Vec<(SemanticDiagnosticCode, &str)> = tree
        .diagnostics
        .iter()
        .map(|diagnostic| {
            (
                diagnostic.code,
                diagnostic.node_id.as_deref().unwrap_or(""),
            )
        })
        .collect();
    assert_eq!(
        omitted,
        [
            (SemanticDiagnosticCode::MissingParent, "orphan"),
            (SemanticDiagnosticCode::MissingParent, "orphan-child"),
            (SemanticDiagnosticCode::MissingParent, "orphan-grandchild"),
            (SemanticDiagnosticCode::ParentCycle, "a"),
            (SemanticDiagnosticCode::ParentCycle, "b"),
            (SemanticDiagnosticCode::MissingParent, "cycle-child"),
        ]
    );
}

#[test]
fn unchanged_semantics_do_not_advance_generation() {
    let mut state = SharedState::new();
    for _ in 0..2 {
        state.begin_frame(0);
        assert!(state.record(node("stable", None)));
        state.finish_frame();
    }
    assert_eq!(state.tree().generation, 1);
}

#[test]
fn changed_semantics_advance_generation() {
    let mut state = SharedState::new();
    state.begin_frame(0);
    assert!(state.record(node("first", None)));
    assert_eq!(state.finish_frame(), Some(1));
    state.begin_frame(1);
    assert!(state.record(node("second", None)));
    assert_eq!(state.finish_frame(), Some(2));
    assert_eq!(state.finish_frame(), None);
    assert_eq!(state.tree().nodes.keys(), ["second"]);
    assert_eq!(state.tree_generation(), 2);
    assert!(state.tree_if_changed(2).is_none());
    assert_eq!(
        state.tree_if_changed(1).map(|tree| tree.generation),
        Some(2)
    );
}

#[test]
fn tree_wait_wakes_when_a_new_generation_is_published() {
    let mut state = SharedState::new();
    assert!(matches!(
        state.wait_for_tree(0, WaitSignal::Published),
        Ok(None)
    ));

    state.begin_frame(0);
    assert!(state.record(node("published", None)));
    assert!(matches!(
        state.wait_for_tree(0, WaitSignal::Published),
        Ok(None)
    ));
    assert_eq!(state.finish_frame(), Some(1));

    let tree = state
        .wait_for_tree(0, WaitSignal::Published)
        .unwrap()
        .unwrap();
    assert_eq!(tree.generation, 1);
    assert!(tree.nodes.contains_key("published"));
}

#[test]
fn frame_wait_wakes_after_unchanged_semantics_finish_paint() {
    let mut state = SharedState::new();
    state.begin_frame(0);
    assert!(state.record(node("stable", None)));
    state.finish_frame();
    state.begin_root_paint(1);
    state.finish_root_paint(2);
    assert_eq!(state.tree().generation, 1);
    assert_eq!(state.wait_for_frame(1, WaitSignal::Published), Ok(None));

    state.begin_frame(3);
    assert!(state.record(node("stable", None)));
    state.finish_frame();
    state.begin_root_paint(4);
    state.finish_root_paint(5);

    let observed_frame = state
        .wait_for_frame(1, WaitSignal::Published)
        .unwrap()
        .unwrap();
    assert_eq!(observed_frame.frame_count, 2);
    assert_eq!(state.tree().generation, 1);
}

#[test]
fn frame_wait_never_returns_a_started_but_incomplete_frame() {
    let mut state = SharedState::new();
    state.begin_frame(0);
    assert!(state.record(node("stable", None)));
    state.finish_frame();
    state.begin_root_paint(1);
    state.finish_root_paint(2);

    state.begin_frame(3);
    assert!(state.record(node("stable", None)));
    state.finish_frame();
    state.begin_root_paint(4);
    assert_eq!(state.frame_stats().frame_count, 1);
    assert_eq!(state.wait_for_frame(1, WaitSignal::Published), Ok(None));

    state.finish_root_paint(5);
    let observed = state
        .wait_for_frame(1, WaitSignal::Published)
        .unwrap()
        .unwrap();
    assert_eq!(observed.frame_count, 2);
    assert_eq!(state.frame_stats(), observed);
}

#[test]
fn waits_fail_by_name() {
    let state = SharedState::new();
    let stopped = state
        .wait_for_tree(0, WaitSignal::PublisherStopped)
        .unwrap_err();
    assert_eq!(stopped.code, ErrorCode::Internal);
    assert_eq!(stopped.message, "semantic tree publisher stopped");
    let late = state.wait_for_tree(0, WaitSignal::TimedOut).unwrap_err();
    assert_eq!(late.code, ErrorCode::Timeout);
    assert_eq!(late.message, "semantic tree wait timed out");
    let stopped = state
        .wait_for_frame(0, WaitSignal::PublisherStopped)
        .unwrap_err();
    assert_eq!(stopped.code, ErrorCode::Internal);
    assert_eq!(stopped.message, "frame publisher stopped");
    let late = state.wait_for_frame(0, WaitSignal::TimedOut).unwrap_err();
    assert_eq!(late.code, ErrorCode::Timeout);
    assert_eq!(late.message, "frame wait timed out");
}

#[test]
fn a_published_frame_is_a_forest() {
    let mut state = SharedState::new();
    state.begin_frame(0);
    let generation = state.publish_frame(
        vec![
            node("late-root", None),
            node("child-b", Some("root")),
            node("root", None),
            node("grandchild", Some("child-b")),
            node("child-a", Some("root")),
        ],
        5,
    );
    assert_eq!(generation, Some(1));
    let tree = state.tree();
    assert!(tree.diagnostics.is_empty());
    assert_eq!(tree.roots, ["late-root", "root"]);
    assert_eq!(state.with_node("root").unwrap().children, ["child-b", "child-a"]);
    assert_eq!(state.with_node("child-b").unwrap().children, ["grandchild"]);
    assert!(state.with_node("grandchild").unwrap().children.is_empty());
    assert!(state.with_node("absent").is_none());
}

#[test]
fn given_children_are_replaced_by_the_recorded_ones() {
    let mut state = SharedState::new();
    state.begin_frame(0);
    let mut parent = node("parent", None);
    parent.children = vec!["made-up".to_owned()];
    assert!(state.record(parent));
    assert!(state.record(node("child", Some("parent"))));
    state.finish_frame();
    assert_eq!(state.with_node("parent").unwrap().children, ["child"]);
}

#[test]
fn nothing_is_recorded_outside_a_frame() {
    let mut state = SharedState::new();
    assert!(!state.record(node("early", None)));
    assert_eq!(state.finish_frame(), None);
    assert_eq!(state.tree_generation(), 0);
    assert!(state.tree().nodes.is_empty());
}

#[test]
fn an_incomplete_frame_is_given_up_and_reported() {
    let mut state = SharedState::new();
    state.begin_frame(0);
    assert!(state.record(node("lost", None)));
    state.begin_frame(1);
    assert!(state.record(node("kept", None)));
    state.finish_frame();
    let tree = state.tree();
    assert_eq!(tree.nodes.keys(), ["kept"]);
    assert_eq!(tree.diagnostics.len(), 1);
    assert_eq!(tree.diagnostics[0].code, SemanticDiagnosticCode::InvalidNode);
    assert_eq!(tree.diagnostics[0].node_id, None);
    assert_eq!(
        tree.diagnostics[0].message,
        "the previous semantic frame did not reach root paint"
    );
}

#[test]
fn a_duplicate_stays_out_and_orphans_its_children() {
    let mut state = SharedState::new();
    state.begin_frame(0);
    assert!(state.record(node("twice", None)));
    assert!(state.record(node("child", Some("twice"))));
    assert!(!state.record(node("twice", None)));
    assert!(!state.record(node("twice", None)));
    state.finish_frame();
    let tree = state.tree();
    assert!(tree.nodes.is_empty());
    let codes: Vec<_> = tree.diagnostics.iter().map(|report| report.code).collect();
    assert_eq!(
        codes,
        [
            SemanticDiagnosticCode::DuplicateId,
            SemanticDiagnosticCode::MissingParent,
        ]
    );
    assert_eq!(
        tree.diagnostics[0].message,
        "every node with this duplicate semantic identifier was omitted"
    );
    assert_eq!(
        tree.diagnostics[1].message,
        "semantic node whose parent was unavailable was omitted"
    );
}

#[test]
fn a_cycle_is_listed_from_where_it_is_entered() {
    let mut state = SharedState::new();
    state.begin_frame(0);
    for (id, parent) in [("tail", "b"), ("a", "b"), ("b", "c"), ("c", "a"), ("self", "self")] {
        assert!(state.record(node(id, Some(parent))));
    }
    state.finish_frame();
    let tree = state.tree();
    let reports: Vec<_> = tree
        .diagnostics
        .iter()
        .map(|report| (report.code, report.node_id.clone().unwrap_or_default()))
        .collect();
    assert_eq!(
        reports,
        [
            (SemanticDiagnosticCode::ParentCycle, "b".to_owned()),
            (SemanticDiagnosticCode::ParentCycle, "c".to_owned()),
            (SemanticDiagnosticCode::ParentCycle, "a".to_owned()),
            (SemanticDiagnosticCode::ParentCycle, "self".to_owned()),
            (SemanticDiagnosticCode::MissingParent, "tail".to_owned()),
        ]
    );
    assert_eq!(
        tree.diagnostics[0].message,
        "semantic node in a parent cycle was omitted"
    );
}

#[test]
fn diagnostics_are_bounded() {
    let mut state = SharedState::new();
    state.begin_frame(0);
    for index in 0..200 {
        assert!(state.record(node(&format!("orphan-{index}"), Some("absent"))));
    }
    state.finish_frame();
    let tree = state.tree();
    assert_eq!(tree.diagnostics.len(), MAX_DIAGNOSTICS);
    assert_eq!(tree.diagnostics[127].node_id.as_deref(), Some("orphan-127"));
    assert!(tree.nodes.is_empty());
}

#[test]
fn capacity_is_bounded_and_reported() {
    let mut state = SharedState::new();
    state.begin_frame(0);
    for index in 0..MAX_TREE_NODES {
        assert!(state.record(node(&format!("{index}"), None)));
    }
    assert!(!state.record(node("one too many", None)));
    state.finish_frame();
    let tree = state.tree();
    assert_eq!(tree.nodes.len(), MAX_TREE_NODES);
    assert_eq!(tree.diagnostics.len(), 1);
    assert_eq!(
        tree.diagnostics[0].code,
        SemanticDiagnosticCode::CapacityExceeded
    );
    assert_eq!(tree.diagnostics[0].node_id, None);
    assert_eq!(
        tree.diagnostics[0].message,
        "semantic tree capacity was exceeded"
    );
}

#[test]
fn invalid_nodes_are_reported_by_a_valid_id_only() {
    let mut state = SharedState::new();
    state.begin_frame(0);
    let mut labelled = node("labelled", None);
    labelled.label = Some("two\nlines".to_owned());
    assert!(!state.record(labelled));
    assert!(!state.record(node("", None)));
    state.finish_frame();
    let tree = state.tree();
    assert_eq!(tree.diagnostics.len(), 2);
    assert_eq!(tree.diagnostics[0].node_id.as_deref(), Some("labelled"));
    assert_eq!(
        tree.diagnostics[0].message,
        "semantic label or description is invalid or exceeds 4 KiB"
    );
    assert_eq!(tree.diagnostics[1].node_id, None);
    assert_eq!(
        tree.diagnostics[1].message,
        "semantic identifier must contain 1-256 bytes without control characters"
    );
}

#[test]
fn each_rule_has_its_message() {
    let base = || node("node", None);
    assert_eq!(validate_node(&base()), Ok(()));

    let mut bad = base();
    bad.parent = Some("\u{7f}".to_owned());
    assert_eq!(
        validate_node(&bad),
        Err("semantic identifier must contain 1-256 bytes without control characters")
    );

    let mut bad = base();
    bad.description = Some("x".repeat(4097));
    assert_eq!(
        validate_node(&bad),
        Err("semantic label or description is invalid or exceeds 4 KiB")
    );

    for bounds in [
        rect(1_000_001.0, 0.0, 1.0, 1.0),
        rect(0.0, -1_000_001.0, 1.0, 1.0),
        rect(0.0, 0.0, 1_000_001.0, 1.0),
        rect(0.0, 0.0, 1.0, 1_000_001.0),
        rect(0.0, 0.0, -1.0, 1.0),
        rect(f32::NAN, 0.0, 1.0, 1.0),
        rect(0.0, f32::INFINITY, 1.0, 1.0),
    ] {
        let mut bad = base();
        bad.bounds = Some(bounds);
        assert_eq!(
            validate_node(&bad),
            Err("semantic bounds are invalid or exceed the coordinate limit")
        );
    }
    let mut good = base();
    good.bounds = Some(rect(-1_000_000.0, 1_000_000.0, 1_000_000.0, 0.0));
    assert_eq!(validate_node(&good), Ok(()));

    let mut bad = base();
    bad.actions = vec![NodeAction::Click, NodeAction::Focus, NodeAction::Click];
    assert_eq!(
        validate_node(&bad),
        Err("semantic actions contain a duplicate")
    );

    let text = |text: &str| TextInfo {
        text: text.to_owned(),
        caret: None,
        selection: None,
        redacted: false,
    };
    let mut bad = base();
    bad.text = Some(text(&"x".repeat(65_537)));
    assert_eq!(validate_node(&bad), Err("semantic text exceeds 64 KiB"));
    let mut bad = base();
    bad.text = Some(TextInfo {
        redacted: true,
        ..text("secret")
    });
    assert_eq!(
        validate_node(&bad),
        Err("redacted semantic text must not contain a value")
    );
    let mut bad = base();
    bad.text = Some(TextInfo {
        caret: Some(1),
        ..text("é")
    });
    assert_eq!(
        validate_node(&bad),
        Err("semantic text caret is not a valid UTF-8 boundary")
    );
    let mut bad = base();
    bad.text = Some(TextInfo {
        selection: Some(TextRange { start: 2, end: 1 }),
        ..text("abc")
    });
    assert_eq!(
        validate_node(&bad),
        Err("semantic text selection is not a valid UTF-8 range")
    );
    let mut good = base();
    good.text = Some(TextInfo {
        caret: Some(2),
        selection: Some(TextRange { start: 0, end: 2 }),
        ..text("é")
    });
    assert_eq!(validate_node(&good), Ok(()));

    let value = |min: Option<f64>, max: Option<f64>, step: Option<f64>| ValueInfo {
        value: "1".to_owned(),
        min: min.map(double),
        max: max.map(double),
        step: step.map(double),
    };
    for (numbers, message) in [
        (
            value(Some(f64::NAN), None, None),
            "semantic numeric bounds must be finite",
        ),
        (
            value(None, Some(f64::INFINITY), None),
            "semantic numeric bounds must be finite",
        ),
        (
            value(Some(2.0), Some(1.0), None),
            "semantic numeric minimum exceeds its maximum",
        ),
        (
            value(Some(-1.0), Some(-2.0), None),
            "semantic numeric minimum exceeds its maximum",
        ),
        (
            value(None, None, Some(0.0)),
            "semantic numeric step must be positive",
        ),
        (
            value(None, None, Some(-0.5)),
            "semantic numeric step must be positive",
        ),
    ] {
        let mut bad = base();
        bad.value = Some(numbers);
        assert_eq!(validate_node(&bad), Err(message));
    }
    let mut good = base();
    good.value = Some(value(Some(-0.0), Some(0.0), Some(0.25)));
    assert_eq!(validate_node(&good), Ok(()));
    let mut bad = base();
    bad.value = Some(ValueInfo {
        value: "x".repeat(65_537),
        ..value(None, None, None)
    });
    assert_eq!(validate_node(&bad), Err("semantic value exceeds 64 KiB"));

    let mut bad = base();
    for index in 0..33 {
        bad.metadata.insert(format!("key-{index}"), String::new());
    }
    assert_eq!(
        validate_node(&bad),
        Err("semantic metadata exceeds 32 fields")
    );
    let mut bad = base();
    bad.metadata.insert(String::new(), "value".to_owned());
    assert_eq!(
        validate_node(&bad),
        Err("semantic metadata contains an invalid or oversized field")
    );
}

#[test]
fn ids_are_limited_in_bytes() {
    assert_eq!(validate_id(&"x".repeat(256)), Ok(()));
    assert!(validate_id(&"x".repeat(257)).is_err());
    assert!(validate_id(&"é".repeat(129)).is_err());
    assert!(valid_diagnostic_id("ok"));
    assert!(!valid_diagnostic_id(""));
    assert!(!valid_diagnostic_id("tab\t"));
}

#[test]
fn timings_are_summed_up_when_a_frame_is_painted() {
    let mut state = SharedState::new();
    state.begin_frame(100);
    state.finish_prepaint(130);
    state.begin_root_paint(140);
    state.finish_root_paint(145);
    let stats = state.frame_stats();
    assert_eq!(stats.frame_count, 1);
    assert_eq!(stats.sample_count, 0);
    assert_eq!(
        stats.intervals,
        TimingSummary { count: 0, total_nanos: 0, max_nanos: 0 }
    );
    assert_eq!(
        stats.prepaint,
        TimingSummary { count: 1, total_nanos: 30, max_nanos: 30 }
    );
    assert_eq!(
        stats.root_paint,
        TimingSummary { count: 1, total_nanos: 5, max_nanos: 5 }
    );

    state.begin_frame(200);
    state.finish_prepaint(210);
    state.finish_prepaint(220);
    state.begin_root_paint(220);
    state.finish_root_paint(219);
    let stats = state.frame_stats();
    assert_eq!(stats.frame_count, 2);
    assert_eq!(stats.sample_count, 1);
    assert_eq!(
        stats.intervals,
        TimingSummary { count: 1, total_nanos: 100, max_nanos: 100 }
    );
    assert_eq!(
        stats.prepaint,
        TimingSummary { count: 2, total_nanos: 40, max_nanos: 30 }
    );
    assert_eq!(
        stats.root_paint,
        TimingSummary { count: 2, total_nanos: 5, max_nanos: 5 }
    );
}

#[test]
fn sample_windows_forget_the_oldest() {
    let mut samples = std::collections::VecDeque::new();
    for sample in 0..250_u64 {
        push_sample(&mut samples, sample);
    }
    assert_eq!(samples.len(), MAX_TIMING_SAMPLES);
    assert_eq!(samples[0], 10);
    assert_eq!(
        timing_summary(&samples),
        TimingSummary {
            count: 240,
            total_nanos: (10..250_u128).sum(),
            max_nanos: 249,
        }
    );
}

#[test]
fn whole_frames_are_counted_with_and_without_nodes() {
    let mut state = SharedState::new();
    state.complete_frame(1_000, 20, 30);
    assert_eq!(state.tree_generation(), 0);
    assert_eq!(
        state.complete_published_frame(vec![node("root", None)], 2_000, 40, 10),
        Some(1)
    );
    assert_eq!(
        state.complete_published_frame(vec![node("root", None)], 2_500, 1, 1),
        None
    );
    let stats = state.frame_stats();
    assert_eq!(stats.frame_count, 3);
    assert_eq!(stats.sample_count, 2);
    assert_eq!(stats.intervals.total_nanos, 1_500);
    assert_eq!(stats.prepaint.max_nanos, 40);
    assert_eq!(stats.root_paint.total_nanos, 41);
}

#[test]
fn only_valid_geometry_is_kept() {
    let mut state = SharedState::new();
    assert_eq!(state.window_geometry(), None);
    state.set_window_geometry(rect(0.0, 0.0, 800.0, 600.0), single(2.0));
    state.set_window_geometry(rect(0.0, 0.0, -1.0, 600.0), single(2.0));
    state.set_window_geometry(rect(0.0, 0.0, 1.0, 1.0), single(0.0));
    state.set_window_geometry(rect(0.0, 0.0, 1.0, 1.0), single(f32::NAN));
    let geometry = state.window_geometry().unwrap();
    assert_eq!(geometry.content_bounds, rect(0.0, 0.0, 800.0, 600.0));
    assert_eq!(geometry.scale_factor, single(2.0));
}

#[test]
fn highlights_are_retained() {
    let mut state = SharedState::new();
    assert!(state.highlights().is_empty());
    let highlight = Highlight {
        rect: rect(1.0, 2.0, 30.0, 40.0),
        color: "#ff0000ff".to_owned(),
        label: None,
    };
    state.set_highlights(vec![highlight.clone()]);
    assert_eq!(state.highlights(), &vec![highlight]);
    state.set_highlights(Vec::new());
    assert!(state.highlights().is_empty());
}

#[test]
fn text_maps_keep_their_keys_in_byte_order() {
    let mut map: StringMap<String> = StringMap::new();
    for key in ["b", "a", "aa", "é", "Z", "b"] {
        map.insert(key.to_owned(), format!("value of {key}"));
    }
    assert_eq!(map.len(), 5);
    assert_eq!(map.keys(), ["Z", "a", "aa", "b", "é"]);
    assert_eq!(map.get("aa").map(String::as_str), Some("value of aa"));
    assert_eq!(map.get("c"), None);
    assert!(map.contains_key("Z"));
    assert_eq!(map.clone(), map);
}

#[test]
fn merged_maps_prefer_the_right_value() {
    let map = |entries: &[(&str, &str)]| {
        let mut map: StringMap<String> = StringMap::new();
        for (key, value) in entries {
            map.insert((*key).to_owned(), (*value).to_owned());
        }
        map
    };
    let left = map(&[("a", "1"), ("c", "2"), ("e", "3")]);
    let right = map(&[("b", "4"), ("c", "5"), ("d", "6"), ("f", "7")]);
    let merged = StringMap::merged(left, right);
    assert_eq!(merged.keys(), ["a", "b", "c", "d", "e", "f"]);
    assert_eq!(merged.get("c").map(String::as_str), Some("5"));
    assert_eq!(merged.get("e").map(String::as_str), Some("3"));
    let empty: StringMap<String> = StringMap::new();
    assert!(StringMap::merged(empty.clone(), empty).is_empty());
}
