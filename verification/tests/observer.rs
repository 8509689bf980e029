//! Translation of accessibility trees into published nodes.

use std::collections::HashMap;

use gpui_mcp::access::{AccessNode, AccessRole, NodeLookup, PointerInteractions, Toggled};
use gpui_mcp::automation::Automation;
use gpui_mcp::number::{Double, Single};
use gpui_mcp::observer::{
    checked_frame_nodes, frame_nodes, paint_overlay, DrawnFrame, Outline,
};
use gpui_mcp::protocol::{
    Highlight, NodeAction, Rect, Role as McpRole, TextInfo, UiNode, ValueInfo,
};
use gpui_mcp::registry::SharedState;
use gpui_mcp::tree::{RawNode, TreeUpdate};

fn single(value: f32) -> Single {
    Single::from_bits(value.to_bits())
}

fn double(value: f64) -> Double {
    Double::from_bits(value.to_bits())
}

fn rect(x: f32, y: f32, width: f32, height: f32) -> Rect {
    Rect {
        x: single(x),
        y: single(y),
        width: single(width),
        height: single(height),
    }
}

fn ak(role: AccessRole, children: &[u64]) -> AccessNode {
    let mut node = AccessNode::new(role);
    node.children = children.to_vec();
    node
}

fn raw(id: u64, name: Option<&str>, node: AccessNode) -> RawNode {
    let mut lookup = NodeLookup::new();
    lookup.element_id = name.map(str::to_owned);
    RawNode { id, node, lookup }
}

/// A finalized tree rooted at node 0, with element ids by number.
struct Fixture {
    nodes: Vec<(u64, Option<&'static str>, AccessNode)>,
}

impl Fixture {
    fn new(nodes: Vec<(u64, Option<&'static str>, AccessNode)>) -> Self {
        Self { nodes }
    }

    fn translate(
        self,
        focus: Option<u64>,
        bounds: impl Fn(u64) -> Option<Rect>,
    ) -> HashMap<String, UiNode> {
        let nodes = self
            .nodes
            .into_iter()
            .map(|(id, name, node)| {
                let mut entry = raw(id, name, node);
                entry.lookup.bounds = bounds(id);
                entry
            })
            .collect();
        frame_nodes(
            TreeUpdate {
                nodes,
                root: Some(0),
            },
            focus,
        )
        .into_iter()
        .map(|node| (node.id.clone(), node))
        .collect()
    }
}

fn semantics_fixture() -> Fixture {
    let mut window = ak(AccessRole::Window, &[1]);
    window.label = Some("Demo".to_owned());
    let mut save = ak(AccessRole::Button, &[4]);
    save.actions.click = true;
    save.actions.focus = true;
    save.actions.replace_selected_text = true;
    save.actions.set_value = true;
    save.actions.scroll_down = true;
    let mut volume = ak(AccessRole::Slider, &[]);
    volume.label = Some("Volume".to_owned());
    volume.numeric_value = Some(3.0_f64.to_string());
    volume.min_numeric_value = Some(double(0.0));
    volume.max_numeric_value = Some(double(11.0));
    volume.numeric_value_step = Some(double(1.0));
    volume.actions.set_value = true;
    let mut label = ak(AccessRole::Label, &[]);
    label.value = Some("Save".to_owned());
    let mut toggled = ak(AccessRole::Group, &[]);
    toggled.selected = Some(true);
    toggled.expanded = Some(false);
    toggled.toggled = Some(Toggled::True);
    Fixture::new(vec![
        (0, None, window),
        (
            1,
            Some("root"),
            ak(AccessRole::Application, &[2, 3, 5, 6, 7, 8, 10]),
        ),
        (2, Some("save"), save),
        (3, Some("volume"), volume),
        (4, Some("save-label"), label),
        (5, Some("panel"), ak(AccessRole::Group, &[])),
        (6, Some("panel"), toggled),
        (7, Some("q/y"), ak(AccessRole::Group, &[])),
        (8, Some("q"), ak(AccessRole::Group, &[9])),
        (9, Some("y"), ak(AccessRole::Group, &[])),
        (10, Some("y"), ak(AccessRole::Group, &[])),
    ])
}

#[test]
fn translates_roles_labels_values_states_and_parentage() {
    let save_bounds = rect(10.0, 20.0, 30.0, 40.0);
    let tree = semantics_fixture().translate(Some(3), |id| (id == 2).then_some(save_bounds));

    assert_eq!(tree.len(), 10, "the window host node is not published");
    assert_eq!(tree["root"].role, McpRole::Application);
    assert_eq!(tree["root"].parent, None);
    assert!(
        tree["root"].bounds.is_none(),
        "a node without a bounds lookup stays empty"
    );
    assert_eq!(tree["save"].bounds, Some(save_bounds));
    assert_eq!(
        tree["save"]
            .metadata
            .get("accesskit_id")
            .map(String::as_str),
        Some("2"),
        "the published node carries the id focus resolution needs"
    );

    assert_eq!(tree["save"].parent.as_deref(), Some("root"));
    assert_eq!(tree["save"].role, McpRole::Button);
    assert_eq!(
        tree["save"].label.as_deref(),
        Some("Save"),
        "a button without its own label takes descendant text"
    );
    assert!(!tree["save"].state.focused);
    assert!(tree["save"].state.visible && tree["save"].state.enabled);
    assert_eq!(
        tree["save"].actions,
        [
            NodeAction::Click,
            NodeAction::Focus,
            NodeAction::SetText,
            NodeAction::SetValue,
            NodeAction::Scroll,
        ],
        "advertised AccessKit actions map onto the bridge vocabulary"
    );

    assert_eq!(tree["save-label"].parent.as_deref(), Some("save"));
    assert_eq!(tree["save-label"].role, McpRole::Text);
    assert_eq!(
        tree["save-label"].text,
        Some(TextInfo {
            text: "Save".to_owned(),
            caret: None,
            selection: None,
            redacted: false,
        })
    );

    assert_eq!(tree["volume"].role, McpRole::Slider);
    assert_eq!(tree["volume"].label.as_deref(), Some("Volume"));
    assert_eq!(
        tree["volume"].value,
        Some(ValueInfo {
            value: "3".to_owned(),
            min: Some(double(0.0)),
            max: Some(double(11.0)),
            step: Some(double(1.0)),
        })
    );
    assert!(tree["volume"].state.focused, "GPUI's focus names the node");
    assert_eq!(tree["volume"].actions, [NodeAction::SetValue]);
}

#[test]
fn colliding_element_ids_get_frame_unique_identities() {
    let tree = semantics_fixture().translate(None, |_| None);

    assert_eq!(tree["root/panel#5"].role, McpRole::Group);
    assert_eq!(tree["root/panel#5"].state.selected, None);
    assert_eq!(tree["root/panel#5"].state.checked, None);
    assert_eq!(tree["root/panel#6"].parent.as_deref(), Some("root"));
    assert_eq!(tree["root/panel#6"].state.selected, Some(true));
    assert_eq!(tree["root/panel#6"].state.checked, Some(true));
    assert_eq!(tree["root/panel#6"].state.expanded, Some(false));

    assert_eq!(
        tree["q/y"].role,
        McpRole::Group,
        "an unambiguous id containing the separator keeps its own id"
    );
    assert_eq!(
        tree["root/q/y"].role,
        McpRole::Group,
        "a qualified identity never spells one already given out"
    );
    assert_eq!(tree["root/y"].role, McpRole::Group);
}

#[test]
fn hidden_inherits_disabled_reads_and_password_input_redacts() {
    let mut drawer = ak(AccessRole::Group, &[3]);
    drawer.hidden = true;
    let mut close = ak(AccessRole::Button, &[]);
    close.actions.click = true;
    let mut locked = ak(AccessRole::Button, &[]);
    locked.disabled = true;
    let mut pin = ak(AccessRole::PasswordInput, &[]);
    pin.value = Some("1234".to_owned());
    pin.actions.focus = true;
    pin.actions.set_value = true;
    pin.actions.replace_selected_text = true;
    let mut reveal_pin = ak(AccessRole::PasswordInput, &[]);
    reveal_pin.value = Some("1234".to_owned());
    let tree = Fixture::new(vec![
        (0, None, ak(AccessRole::Window, &[1])),
        (1, Some("root"), ak(AccessRole::Application, &[2, 4, 5, 6])),
        (2, Some("drawer"), drawer),
        (3, Some("drawer-close"), close),
        (4, Some("locked"), locked),
        (5, Some("pin"), pin),
        (6, Some("reveal"), ak(AccessRole::Button, &[7])),
        (7, Some("reveal-pin"), reveal_pin),
    ])
    .translate(None, |_| None);

    assert!(!tree["drawer"].state.visible);
    assert!(
        !tree["drawer-close"].state.visible,
        "a hidden container hides its descendants"
    );
    assert!(tree["locked"].state.visible);
    assert!(!tree["locked"].state.enabled);
    assert!(tree["root"].state.enabled);

    let pin = &tree["pin"];
    assert_eq!(pin.role, McpRole::TextInput);
    assert_eq!(
        pin.text,
        Some(TextInfo {
            text: String::new(),
            caret: None,
            selection: None,
            redacted: true,
        })
    );
    assert_eq!(pin.value, None);
    assert_eq!(pin.actions, [NodeAction::Focus]);
    assert_eq!(
        tree["reveal"].label, None,
        "secret text never becomes an ancestor's label"
    );
}

fn order(nodes: Vec<RawNode>, root: Option<u64>) -> Vec<String> {
    frame_nodes(TreeUpdate { nodes, root }, None)
        .into_iter()
        .map(|node| node.id)
        .collect()
}

#[test]
fn nodes_come_depth_first_and_unreachable_ones_by_number() {
    let nodes = vec![
        raw(9, Some("stray-late"), ak(AccessRole::Group, &[])),
        raw(0, None, ak(AccessRole::Window, &[1, 4])),
        raw(4, Some("second"), ak(AccessRole::Group, &[])),
        raw(1, Some("first"), ak(AccessRole::Group, &[2, 3, 77])),
        raw(3, Some("b"), ak(AccessRole::Group, &[])),
        raw(2, Some("a"), ak(AccessRole::Group, &[])),
        raw(7, Some("stray"), ak(AccessRole::Group, &[8])),
        raw(8, Some("stray-child"), ak(AccessRole::Group, &[])),
    ];
    assert_eq!(
        order(nodes, Some(0)),
        ["first", "a", "b", "second", "stray", "stray-child", "stray-late"]
    );
}

#[test]
fn a_root_with_an_element_id_is_published_last() {
    let nodes = vec![
        raw(0, Some("root"), ak(AccessRole::Window, &[1])),
        raw(1, Some("child"), ak(AccessRole::Group, &[])),
    ];
    let published = frame_nodes(
        TreeUpdate {
            nodes,
            root: Some(0),
        },
        None,
    );
    assert_eq!(published[0].id, "child");
    assert_eq!(published[0].parent.as_deref(), Some("root"));
    assert_eq!(published[1].id, "root");
    assert_eq!(published[1].parent, None);
}

#[test]
fn elements_without_an_id_are_named_by_their_number() {
    let nodes = vec![
        raw(0, None, ak(AccessRole::Window, &[18_446_744_073_709_551_615])),
        raw(18_446_744_073_709_551_615, None, ak(AccessRole::Group, &[])),
    ];
    assert_eq!(order(nodes, Some(0)), ["18446744073709551615"]);
    assert_eq!(order(Vec::new(), None), Vec::<String>::new());
    assert_eq!(
        order(vec![raw(3, None, ak(AccessRole::Group, &[]))], None),
        ["3"]
    );
}

#[test]
fn the_shortest_separating_run_is_taken() {
    let nodes = vec![
        raw(0, None, ak(AccessRole::Window, &[1])),
        raw(1, Some("app"), ak(AccessRole::Application, &[2, 3])),
        raw(2, Some("left"), ak(AccessRole::Group, &[4])),
        raw(3, Some("right"), ak(AccessRole::Group, &[5])),
        raw(4, Some("list"), ak(AccessRole::List, &[6])),
        raw(5, Some("list"), ak(AccessRole::List, &[7])),
        raw(6, Some("item"), ak(AccessRole::ListItem, &[])),
        raw(7, Some("item"), ak(AccessRole::ListItem, &[])),
    ];
    assert_eq!(
        order(nodes, Some(0)),
        [
            "app",
            "left",
            "left/list",
            "left/list/item",
            "right",
            "right/list",
            "right/list/item",
        ]
    );
}

#[test]
fn runs_that_are_spelled_alike_are_told_apart() {
    let nodes = vec![
        raw(0, None, ak(AccessRole::Window, &[1, 2, 5, 6])),
        raw(1, Some("p"), ak(AccessRole::Group, &[3])),
        raw(2, Some("p/a"), ak(AccessRole::Group, &[4])),
        raw(3, Some("a/b"), ak(AccessRole::Group, &[])),
        raw(4, Some("b"), ak(AccessRole::Group, &[])),
        raw(5, Some("a/b"), ak(AccessRole::Group, &[])),
        raw(6, Some("b"), ak(AccessRole::Group, &[])),
    ];
    assert_eq!(
        order(nodes, Some(0)),
        ["p", "p/a/b#3", "p/a", "p/a/b#4", "a/b", "b"]
    );
    let nodes = vec![
        raw(0, None, ak(AccessRole::Window, &[1, 2, 3, 4])),
        raw(1, Some("a/b"), ak(AccessRole::Group, &[5])),
        raw(2, Some("a"), ak(AccessRole::Group, &[6])),
        raw(3, Some("c"), ak(AccessRole::Group, &[])),
        raw(4, Some("b/c"), ak(AccessRole::Group, &[])),
        raw(5, Some("c"), ak(AccessRole::Group, &[])),
        raw(6, Some("b/c"), ak(AccessRole::Group, &[])),
    ];
    assert_eq!(
        order(nodes, Some(0)),
        ["a/b", "a/b/c#5", "a", "a/b/c#6", "c", "b/c"]
    );
}

#[test]
fn runs_are_compared_name_by_name() {
    // The run of the first "a/b" is spelled like two that separate nothing.
    let nodes = vec![
        raw(0, None, ak(AccessRole::Window, &[1, 4, 7, 10])),
        raw(1, Some("w"), ak(AccessRole::Group, &[2])),
        raw(2, Some("x"), ak(AccessRole::Group, &[3])),
        raw(3, Some("a/b"), ak(AccessRole::Group, &[])),
        raw(4, Some("p"), ak(AccessRole::Group, &[5])),
        raw(5, Some("x/a"), ak(AccessRole::Group, &[6])),
        raw(6, Some("b"), ak(AccessRole::Group, &[])),
        raw(7, Some("q"), ak(AccessRole::Group, &[8])),
        raw(8, Some("x/a"), ak(AccessRole::Group, &[9])),
        raw(9, Some("b"), ak(AccessRole::Group, &[])),
        raw(10, Some("a/b"), ak(AccessRole::Group, &[])),
    ];
    assert_eq!(
        order(nodes, Some(0)),
        [
            "w", "x", "x/a/b", "p", "p/x/a", "p/x/a/b", "q", "q/x/a", "q/x/a/b", "a/b",
        ]
    );
}

#[test]
fn numbers_are_published_with_their_signs() {
    let mut slider = ak(AccessRole::Slider, &[]);
    slider.numeric_value = Some("0".to_owned());
    slider.min_numeric_value = Some(double(-0.0));
    slider.max_numeric_value = Some(double(0.0));
    slider.numeric_value_step = Some(double(-0.0));
    let bounds = rect(-0.0, 0.0, 1.0, 1.0);
    let tree = Fixture::new(vec![
        (0, None, ak(AccessRole::Window, &[1])),
        (1, Some("slider"), slider),
    ])
    .translate(None, |_| Some(bounds));
    let node = &tree["slider"];
    let placed = node.bounds.unwrap();
    assert_eq!(placed.x.bits, (-0.0_f32).to_bits());
    assert_eq!(placed.y.bits, 0.0_f32.to_bits());
    let value = node.value.as_ref().unwrap();
    assert_eq!(value.min.unwrap().bits, (-0.0_f64).to_bits());
    assert_eq!(value.max.unwrap().bits, 0.0_f64.to_bits());
    assert_eq!(value.step.unwrap().bits, (-0.0_f64).to_bits());
}

#[test]
fn a_numbered_path_is_not_one_that_was_given_out() {
    let nodes = vec![
        raw(0, None, ak(AccessRole::Window, &[1, 2, 3])),
        raw(1, Some("x"), ak(AccessRole::Group, &[])),
        raw(2, Some("x"), ak(AccessRole::Group, &[])),
        raw(3, Some("x#1"), ak(AccessRole::Group, &[])),
    ];
    assert_eq!(order(nodes, Some(0)), ["x#1#1", "x#2", "x#1"]);
}

#[test]
fn only_equal_paths_take_numbers() {
    let nodes = vec![
        raw(0, None, ak(AccessRole::Window, &[1, 2])),
        raw(1, Some("a"), ak(AccessRole::Group, &[3, 4, 5])),
        raw(2, Some("b"), ak(AccessRole::Group, &[6])),
        raw(3, Some("x"), ak(AccessRole::Group, &[])),
        raw(4, Some("x"), ak(AccessRole::Group, &[])),
        raw(5, Some("y"), ak(AccessRole::Group, &[])),
        raw(6, Some("x"), ak(AccessRole::Group, &[])),
    ];
    assert_eq!(
        order(nodes, Some(0)),
        ["a", "a/x#3", "a/x#4", "y", "b", "b/x"]
    );
}

#[test]
fn ancestors_hide_whatever_the_order() {
    let mut root = ak(AccessRole::Application, &[1]);
    root.hidden = true;
    let tree = Fixture::new(vec![
        (0, Some("root"), root),
        (1, Some("save"), ak(AccessRole::Button, &[])),
    ])
    .translate(None, |_| None);
    assert!(!tree["root"].state.visible);
    assert!(!tree["save"].state.visible);
    let mut outer = ak(AccessRole::Group, &[5]);
    outer.hidden = true;
    let tree = Fixture::new(vec![
        (0, None, ak(AccessRole::Window, &[7])),
        (5, Some("inner"), ak(AccessRole::Group, &[4])),
        (4, Some("innermost"), ak(AccessRole::Group, &[])),
        (7, Some("shown"), ak(AccessRole::Group, &[])),
        (9, Some("outer"), outer),
    ])
    .translate(None, |_| None);
    assert!(!tree["outer"].state.visible);
    assert!(!tree["inner"].state.visible);
    assert!(!tree["innermost"].state.visible);
    assert!(tree["shown"].state.visible);
}

#[test]
fn content_is_collected_whatever_the_order() {
    let text = |value: &str| {
        let mut node = ak(AccessRole::Label, &[]);
        node.value = Some(value.to_owned());
        node
    };
    let tree = Fixture::new(vec![
        (0, Some("root"), ak(AccessRole::Button, &[1])),
        (1, Some("group"), ak(AccessRole::Group, &[2])),
        (2, Some("label"), text("deep words")),
    ])
    .translate(None, |_| None);
    assert_eq!(tree["root"].label.as_deref(), Some("deep words"));
    let tree = Fixture::new(vec![
        (0, None, ak(AccessRole::Window, &[])),
        (3, Some("label"), text("stray words")),
        (4, Some("middle"), ak(AccessRole::Group, &[3])),
        (9, Some("outer"), ak(AccessRole::Button, &[4])),
    ])
    .translate(None, |_| None);
    assert_eq!(tree["outer"].label.as_deref(), Some("stray words"));
}

#[test]
fn elements_listed_below_themselves_say_what_is_behind_them() {
    let mut label = ak(AccessRole::Label, &[]);
    label.value = Some("word".to_owned());
    let tree = Fixture::new(vec![
        (0, None, ak(AccessRole::Window, &[3])),
        (1, Some("a"), ak(AccessRole::Button, &[2])),
        (2, Some("b"), ak(AccessRole::Button, &[1, 4])),
        (3, Some("c"), ak(AccessRole::Button, &[1])),
        (4, Some("label"), label),
    ])
    .translate(None, |_| None);
    assert_eq!(tree["a"].parent.as_deref(), Some("c"));
    assert_eq!(tree["b"].parent.as_deref(), Some("a"));
    assert_eq!(tree["a"].label.as_deref(), Some("word"));
    assert_eq!(tree["b"].label.as_deref(), Some("word"));
    assert_eq!(tree["c"].label.as_deref(), Some("word"));
}

#[test]
fn content_is_collected_in_tree_order() {
    let text = |value: &str| {
        let mut node = ak(AccessRole::Label, &[]);
        node.value = Some(value.to_owned());
        node
    };
    let mut secret = ak(AccessRole::PasswordInput, &[]);
    secret.value = Some("hunter2".to_owned());
    let tree = Fixture::new(vec![
        (0, None, ak(AccessRole::Window, &[1])),
        (1, Some("tab"), ak(AccessRole::Tab, &[2, 3, 5, 6])),
        (2, Some("one"), text("  one \n two")),
        (3, Some("group"), ak(AccessRole::Group, &[4])),
        (4, Some("three"), text("three")),
        (5, Some("secret"), secret),
        (6, Some("four"), text("four\u{2003}")),
    ])
    .translate(None, |_| None);
    assert_eq!(tree["tab"].label.as_deref(), Some("one two three four"));
    assert_eq!(tree["group"].label, None);
    assert_eq!(tree["tab"].text, None);
    assert_eq!(tree["one"].text.as_ref().unwrap().text, "  one \n two");
}

#[test]
fn secrets_do_not_show_in_what_is_published() {
    let publish = |value: &str| {
        let mut secret = ak(AccessRole::PasswordInput, &[]);
        secret.value = Some(value.to_owned());
        secret.numeric_value = Some("1".to_owned());
        frame_nodes(
            TreeUpdate {
                nodes: vec![
                    raw(0, None, ak(AccessRole::Window, &[1])),
                    raw(1, Some("button"), ak(AccessRole::Button, &[2])),
                    raw(2, Some("secret"), secret),
                ],
                root: Some(0),
            },
            Some(2),
        )
    };
    assert_eq!(publish("hunter2"), publish(""));
}

#[test]
fn empty_bounds_are_not_visible() {
    let tree = semantics_fixture().translate(None, |id| match id {
        2 => Some(rect(0.0, 0.0, 0.0, 5.0)),
        3 => Some(rect(0.0, 0.0, 5.0, -0.0)),
        4 => Some(rect(0.0, 0.0, 0.1, 0.1)),
        _ => None,
    });
    assert!(!tree["save"].state.visible);
    assert!(!tree["volume"].state.visible);
    assert!(tree["save-label"].state.visible);
}

#[test]
fn pointer_interactions_add_actions() {
    let mut card = raw(1, Some("card"), ak(AccessRole::Group, &[]));
    card.lookup.pointer = PointerInteractions {
        hover: true,
        drag: true,
        scroll: true,
    };
    card.node.actions.scroll_to_point = true;
    let nodes = frame_nodes(
        TreeUpdate {
            nodes: vec![card],
            root: None,
        },
        None,
    );
    assert_eq!(
        nodes[0].actions,
        [NodeAction::Scroll, NodeAction::Hover, NodeAction::Drag]
    );
}

#[test]
fn values_fall_back_to_text_and_content() {
    let mut field = ak(AccessRole::TextInput, &[]);
    field.value = Some("typed".to_owned());
    field.actions.set_value = true;
    let mut caption = ak(AccessRole::Caption, &[4]);
    caption.description = Some("about".to_owned());
    let mut inner = ak(AccessRole::Label, &[]);
    inner.value = Some("inner words".to_owned());
    let mut mixed = ak(AccessRole::CheckBox, &[]);
    mixed.toggled = Some(Toggled::Mixed);
    let tree = Fixture::new(vec![
        (0, None, ak(AccessRole::Window, &[1, 3, 5])),
        (1, Some("field"), field),
        (3, Some("caption"), caption),
        (4, Some("inner"), inner),
        (5, Some("mixed"), mixed),
    ])
    .translate(None, |_| None);
    assert_eq!(tree["field"].value.as_ref().unwrap().value, "typed");
    assert_eq!(
        tree["field"].actions,
        [NodeAction::SetText, NodeAction::SetValue]
    );
    assert_eq!(tree["caption"].text.as_ref().unwrap().text, "inner words");
    assert_eq!(tree["caption"].value, None);
    assert_eq!(tree["caption"].description.as_deref(), Some("about"));
    assert_eq!(tree["mixed"].state.checked, None);
}

#[test]
fn a_cyclic_tree_is_not_translated() {
    let update = |child: u64| TreeUpdate {
        nodes: vec![
            raw(0, None, ak(AccessRole::Window, &[1])),
            raw(1, Some("a"), ak(AccessRole::Group, &[])),
            raw(2, Some("b"), ak(AccessRole::Group, &[3])),
            raw(3, Some("c"), ak(AccessRole::Group, &[child])),
        ],
        root: Some(0),
    };
    assert!(checked_frame_nodes(update(2), None).is_none());
    assert!(checked_frame_nodes(update(3), None).is_none());
    assert_eq!(checked_frame_nodes(update(9), None).unwrap().len(), 3);
}

fn drawn(tree: Option<Vec<RawNode>>, changed: bool, began: u64) -> DrawnFrame {
    DrawnFrame {
        content_bounds: rect(0.0, 0.0, 640.0, 480.0),
        scale_factor: single(1.0),
        tree: tree.map(|nodes| TreeUpdate {
            nodes,
            root: Some(0),
        }),
        changed,
        gpui_focus: None,
        began,
        prepaint: 3,
        paint: 4,
    }
}

fn toggle(on: bool) -> Vec<RawNode> {
    let mut switch = ak(AccessRole::Button, &[]);
    switch.disabled = !on;
    vec![
        raw(0, None, ak(AccessRole::Window, &[1])),
        raw(1, Some("root"), ak(AccessRole::Application, &[2])),
        raw(2, Some("switch"), switch),
    ]
}

fn switch_enabled(automation: &Automation) -> bool {
    automation
        .snapshot()
        .nodes
        .get("switch")
        .unwrap()
        .state
        .enabled
}

#[test]
fn observed_frames_are_published_when_they_change() {
    let mut automation = Automation::isolated();
    assert!(automation.attach(false));
    assert_eq!(
        automation.frame_finished(drawn(Some(toggle(false)), false, 10)),
        Some(1),
        "the first tree is published even if it is reported unchanged"
    );
    assert!(automation.attach(true));
    assert_eq!(automation.frame_finished(drawn(Some(toggle(true)), false, 20)), None);
    assert!(!switch_enabled(&automation));
    assert_eq!(
        automation.frame_finished(drawn(Some(toggle(true)), true, 30)),
        Some(2)
    );
    assert!(switch_enabled(&automation));
    assert_eq!(automation.frame_finished(drawn(Some(toggle(true)), true, 40)), None);
    assert_eq!(automation.semantic_generation(), 2);
    assert_eq!(automation.completed_frames(), 4);
    let tree = automation.snapshot();
    assert!(tree.diagnostics.is_empty());
    assert_eq!(tree.roots, ["root"]);
    let stats = automation.state().frame_stats();
    assert_eq!(stats.prepaint.total_nanos, 12);
    assert_eq!(stats.root_paint.max_nanos, 4);
    assert_eq!(stats.intervals.total_nanos, 30);
    assert!(automation.state().window_geometry().is_some());
}

#[test]
fn on_demand_frames_are_published_only_while_observed() {
    let mut automation = Automation::new(SharedState::new(), true);
    assert!(!automation.attach(false));
    assert_eq!(automation.frame_finished(drawn(None, true, 10)), None);
    assert!(automation.snapshot().nodes.is_empty());
    assert_eq!(automation.completed_frames(), 1);

    automation.set_observed(false, true);
    assert_eq!(
        automation.frame_finished(drawn(Some(toggle(false)), true, 20)),
        Some(1)
    );
    automation.set_observed(true, false);
    assert_eq!(automation.frame_finished(drawn(None, true, 30)), None);
    assert!(!switch_enabled(&automation));

    automation.set_observed(false, true);
    assert_eq!(
        automation.frame_finished(drawn(Some(toggle(true)), false, 40)),
        Some(2),
        "resuming republishes the current frame"
    );
    assert!(switch_enabled(&automation));
    assert_eq!(automation.completed_frames(), 4);
}

#[test]
fn highlights_are_painted_when_their_color_can_be_read() {
    let highlight = |color: &str| Highlight {
        rect: rect(1.0, 2.0, 30.0, 40.0),
        color: color.to_owned(),
        label: None,
    };
    let outlines = paint_overlay(&vec![
        highlight("#ff0000ff"),
        highlight("red"),
        highlight("#00FF0080"),
    ]);
    assert_eq!(
        outlines,
        [
            Outline {
                rect: rect(1.0, 2.0, 30.0, 40.0),
                color: 0xff00_00ff,
            },
            Outline {
                rect: rect(1.0, 2.0, 30.0, 40.0),
                color: 0x00ff_0080,
            },
        ]
    );
    let mut automation = Automation::isolated();
    automation.set_highlights(vec![highlight("#11223344")]);
    assert_eq!(
        paint_overlay(automation.state().highlights())[0].color,
        0x1122_3344
    );
}
