//! Roles, actions, names, colors, words, and numbers.

use gpui_mcp::access::{
    element_id_name, is_editable_text_role, is_redacted, is_text_role, label_from_content,
    node_actions, parse_color, protocol_role, push_action, AccessNode, AccessRole, ElementName,
};
use gpui_mcp::identity::suffix;
use gpui_mcp::number::{Double, Single};
use gpui_mcp::protocol::{NodeAction, Role};
use gpui_mcp::text::{push_words, to_decimal};

#[test]
fn roles_have_words() {
    for (role, word) in [
        (AccessRole::Application, Role::Application),
        (AccessRole::RootWebArea, Role::Window),
        (AccessRole::DisclosureTriangle, Role::Button),
        (AccessRole::CheckBox, Role::Checkbox),
        (AccessRole::RadioButton, Role::Radio),
        (AccessRole::Strong, Role::Text),
        (AccessRole::PasswordInput, Role::TextInput),
        (AccessRole::Search, Role::SearchInput),
        (AccessRole::SpinButton, Role::Slider),
        (AccessRole::Meter, Role::Progress),
        (AccessRole::GraphicsSymbol, Role::Image),
        (AccessRole::ListGrid, Role::Table),
        (AccessRole::LayoutTableRow, Role::Row),
        (AccessRole::ColumnHeader, Role::Cell),
        (AccessRole::MenuListPopup, Role::Menu),
        (AccessRole::MenuItemRadio, Role::MenuItem),
        (AccessRole::EditableComboBox, Role::Combobox),
        (AccessRole::MenuListOption, Role::Option),
        (AccessRole::Splitter, Role::Separator),
        (AccessRole::AlertDialog, Role::Dialog),
        (AccessRole::ScrollBar, Role::ScrollArea),
        (AccessRole::TabPanel, Role::Group),
        (AccessRole::Other, Role::Generic),
    ] {
        assert_eq!(protocol_role(role), word);
    }
}

#[test]
fn text_roles_are_told_apart() {
    assert!(is_redacted(AccessRole::PasswordInput));
    assert!(!is_redacted(AccessRole::TextInput));
    assert!(is_editable_text_role(AccessRole::SearchInput));
    assert!(!is_editable_text_role(AccessRole::Search));
    assert!(!is_editable_text_role(AccessRole::Label));
    assert!(is_text_role(AccessRole::Label));
    assert!(is_text_role(AccessRole::UrlInput));
    assert!(!is_text_role(AccessRole::Button));
}

#[test]
fn some_roles_are_labelled_by_their_content() {
    assert_eq!(
        label_from_content(AccessRole::Tab, "Files").as_deref(),
        Some("Files")
    );
    assert_eq!(label_from_content(AccessRole::Tab, ""), None);
    assert_eq!(label_from_content(AccessRole::Group, "Files"), None);
    assert_eq!(label_from_content(AccessRole::PasswordInput, "Files"), None);
}

#[test]
fn actions_are_listed_once() {
    let mut node = AccessNode::new(AccessRole::TextInput);
    assert!(node_actions(&node).is_empty());
    node.actions.set_value = true;
    node.actions.set_scroll_offset = true;
    assert_eq!(
        node_actions(&node),
        [
            NodeAction::SetText,
            NodeAction::SetValue,
            NodeAction::Scroll
        ]
    );
    let mut actions = vec![NodeAction::Click];
    push_action(&mut actions, true, NodeAction::Click);
    push_action(&mut actions, false, NodeAction::Focus);
    push_action(&mut actions, true, NodeAction::Hover);
    assert_eq!(actions, [NodeAction::Click, NodeAction::Hover]);
}

#[test]
fn element_ids_give_names() {
    assert_eq!(
        element_id_name(&ElementName::Name("save".to_owned())).as_deref(),
        Some("save")
    );
    assert_eq!(
        element_id_name(&ElementName::NamedInteger("row".to_owned(), 12)).as_deref(),
        Some("row-12")
    );
    assert_eq!(
        element_id_name(&ElementName::Integer(0)).as_deref(),
        Some("0")
    );
    assert_eq!(element_id_name(&ElementName::Other), None);
}

#[test]
fn colors_have_eight_digits() {
    assert_eq!(parse_color("#ff0000ff"), Some(0xff00_00ff));
    assert_eq!(parse_color("#FFffFFff"), Some(u32::MAX));
    assert_eq!(parse_color("#00000000"), Some(0));
    for text in [
        "",
        "#",
        "ff0000ff",
        "#ff0000f",
        "#ff0000ff0",
        "#gg0000ff",
        "#+f0000ff",
        "# f0000ff",
        "##ff0000f",
        "#é00000",
    ] {
        assert_eq!(parse_color(text), None, "{text}");
    }
}

#[test]
fn suffixes_are_trailing_segments() {
    let segments = ["root", "panel", "item"];
    assert_eq!(suffix(&segments, 1), ["item"]);
    assert_eq!(suffix(&segments, 2), ["panel", "item"]);
    assert_eq!(suffix(&segments, 3), segments);
    assert_eq!(suffix(&segments, usize::MAX), segments);
    assert_eq!(suffix(&segments, 0), [""; 0]);
    assert_eq!(suffix::<&str>(&[], 1), [""; 0]);
}

#[test]
fn words_are_joined_by_single_spaces() {
    let mut joined = String::new();
    push_words(&mut joined, "  \t\n");
    assert_eq!(joined, "");
    push_words(&mut joined, " one\u{a0}two ");
    assert_eq!(joined, "one two");
    push_words(&mut joined, "three\r\n\u{3000}four");
    assert_eq!(joined, "one two three four");
    push_words(&mut joined, "");
    assert_eq!(joined, "one two three four");
}

#[test]
fn white_space_is_what_std_splits_at() {
    for code in 0..=0x10_ffff_u32 {
        if let Some(c) = char::from_u32(code) {
            let text = format!("a{c}b");
            let mut joined = String::new();
            push_words(&mut joined, &text);
            let expected: Vec<&str> = text.split_whitespace().collect();
            assert_eq!(joined, expected.join(" "), "{code:x}");
        }
    }
}

#[test]
fn decimals_are_written_out() {
    for number in [0, 7, 10, 99, 100, 1_234_567_890, u64::MAX] {
        assert_eq!(to_decimal(number), number.to_string());
    }
}

#[test]
fn numbers_compare_by_their_patterns() {
    let numbers = [
        f32::NEG_INFINITY,
        f32::MIN,
        -1.5,
        -f32::MIN_POSITIVE,
        -0.0,
        0.0,
        f32::MIN_POSITIVE,
        1.0,
        100_000.0,
        1_000_000.0,
        f32::MAX,
        f32::INFINITY,
    ];
    for a in numbers {
        let left = Single::from_bits(a.to_bits());
        assert_eq!(left.is_finite(), a.is_finite());
        assert_eq!(left.is_positive(), a > 0.0);
        for b in numbers {
            let right = Single::from_bits(b.to_bits());
            assert_eq!(left == right, a == b);
            assert_eq!(left.to_rank() < right.to_rank(), a < b);
        }
    }
    let nan = Single::from_bits(f32::NAN.to_bits());
    assert!(nan != nan);
    assert!(!nan.is_finite() && !nan.is_positive());
    for a in [-1.0_f64, -0.0, 0.0, 0.5, f64::MAX] {
        for b in [-1.0_f64, -0.0, 0.0, 0.5, f64::MAX] {
            let left = Double::from_bits(a.to_bits());
            let right = Double::from_bits(b.to_bits());
            assert_eq!(left.to_rank() < right.to_rank(), a < b);
            assert_eq!(left == right, a == b);
        }
    }
    assert!(!Double::from_bits(f64::NAN.to_bits()).is_finite());
}
