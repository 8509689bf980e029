//! Laws of single nodes: how an element's own semantics, and what the whole
//! tree says about it, come out in the bridge's node.

use vstd::prelude::*;

#[allow(unused_imports)]
use crate::access::{
    law_advertised_actions_are_offered, law_what_roles_mean, law_words_for_roles, node_action_list,
    offered, role_word, with_action, AccessRole, Toggled,
};
#[allow(unused_imports)]
use crate::number::Single;
#[allow(unused_imports)]
use crate::observer::{
    actions_of, enters_text, node_of, outlines_of, Outline, PublishedModel,
};
#[allow(unused_imports)]
use crate::protocol::{Highlight, NodeAction, Role};
#[allow(unused_imports)]
use crate::text::{decimal_value, law_decimals_spell_their_numbers};
#[allow(unused_imports)]
use crate::tree::RawNode;

verus! {

// ---------------------------------------------------------------------------
// Labels, texts, and values
// ---------------------------------------------------------------------------
/// An element's own label is its node's label, whatever its role is and
/// whatever it contains. Without one, what it contains is the label of a
/// button, checkbox, radio button, switch, link, menu item, option, or tab;
/// nothing else has a label.
pub proof fn law_labels(raw: RawNode, published: PublishedModel)
    ensures
        raw.node.label matches Some(label) ==> node_of(raw, published).label == Some(label@),
        raw.node.label is None ==> match published.content {
            None => node_of(raw, published).label is None,
            Some(content) => if content.len() > 0 && (raw.node.role == AccessRole::Button
                || raw.node.role == AccessRole::DefaultButton || raw.node.role
                == AccessRole::CheckBox || raw.node.role == AccessRole::RadioButton
                || raw.node.role == AccessRole::Switch || raw.node.role == AccessRole::Link
                || raw.node.role == AccessRole::MenuItem || raw.node.role
                == AccessRole::MenuItemCheckBox || raw.node.role == AccessRole::MenuItemRadio
                || raw.node.role == AccessRole::ListBoxOption || raw.node.role
                == AccessRole::MenuListOption || raw.node.role == AccessRole::Tab) {
                node_of(raw, published).label == Some(content)
            } else {
                node_of(raw, published).label is None
            },
        },
{
}

/// Texts and text inputs have a text, and nothing else does: their value, or
/// else what they contain, or else nothing. A password's text is withheld.
pub proof fn law_texts(raw: RawNode, published: PublishedModel)
    ensures
        node_of(raw, published).text is Some <==> role_word(raw.node.role) == Role::Text
            || role_word(raw.node.role) == Role::TextInput || raw.node.role
            == AccessRole::SearchInput,
        node_of(raw, published).text matches Some(text) ==> {
            &&& text.caret is None
            &&& text.selection is None
            &&& text.redacted <==> raw.node.role == AccessRole::PasswordInput
            &&& text.redacted ==> text.text.len() == 0
            &&& !text.redacted ==> match raw.node.value {
                Some(value) => text.text == value@,
                None => match published.content {
                    Some(content) => text.text == content,
                    None => text.text.len() == 0,
                },
            }
        },
{
    law_what_roles_mean(raw.node.role);
    law_words_for_roles(raw.node.role);
}

/// An element that has a number or a value has a node with a value, unless it
/// is a password: its number, or else its value. The limits are its own.
pub proof fn law_values(raw: RawNode, published: PublishedModel)
    ensures
        node_of(raw, published).value is Some <==> raw.node.role != AccessRole::PasswordInput && (
        raw.node.numeric_value is Some || raw.node.value is Some),
        node_of(raw, published).value matches Some(shown) ==> {
            &&& raw.node.numeric_value matches Some(number) ==> shown.value == number@
            &&& raw.node.numeric_value is None ==> shown.value == raw.node.value->0@
            &&& shown.min == raw.node.min_numeric_value.deep_view()
            &&& shown.max == raw.node.max_numeric_value.deep_view()
            &&& shown.step == raw.node.numeric_value_step.deep_view()
        },
{
}

// ---------------------------------------------------------------------------
// State and place
// ---------------------------------------------------------------------------
/// The number is greater than zero, by its pattern: neither zero, nor negative,
/// nor NaN.
pub open spec fn above_zero(number: Single) -> bool {
    0 < number.bits && number.bits <= 0x7f80_0000
}

/// What a node's state says: it is visible unless it is hidden or its bounds
/// enclose nothing, enabled unless it is disabled, checked as far as it is
/// toggled one way or the other, and selected, expanded, and focused as told.
pub proof fn law_states(raw: RawNode, published: PublishedModel)
    ensures
        ({
            let state = node_of(raw, published).state;
            &&& state.visible <==> !published.hidden && match raw.lookup.bounds {
                Some(rect) => above_zero(rect.width) && above_zero(rect.height),
                None => true,
            }
            &&& state.enabled <==> !raw.node.disabled
            &&& state.focused == published.focused
            &&& state.selected == raw.node.selected
            &&& state.expanded == raw.node.expanded
            &&& state.checked == Some(true) <==> raw.node.toggled == Some(Toggled::True)
            &&& state.checked == Some(false) <==> raw.node.toggled == Some(Toggled::False)
        }),
{
}

/// A node stands where the tree says, has no children of its own account, and
/// carries its description, its bounds, and its number.
pub proof fn law_places(raw: RawNode, published: PublishedModel)
    ensures
        ({
            let node = node_of(raw, published);
            &&& node.id == published.identity
            &&& node.parent == published.parent
            &&& node.children.len() == 0
            &&& node.role == role_word(raw.node.role)
            &&& node.description is None <==> raw.node.description is None
            &&& raw.node.description matches Some(text) ==> node.description == Some(text@)
            &&& node.bounds == raw.lookup.bounds.deep_view()
            &&& forall|key: Seq<char>| #[trigger]
                node.metadata.contains_key(key) <==> key == "accesskit_id"@
            &&& decimal_value(node.metadata["accesskit_id"@]) == raw.id
        }),
{
    law_decimals_spell_their_numbers(raw.id as nat);
}

// ---------------------------------------------------------------------------
// Actions
// ---------------------------------------------------------------------------
proof fn lemma_filter_offered(condition: bool, action: NodeAction)
    ensures
        offered(condition, action).filter(|action: NodeAction| !enters_text(action)) == offered(
            condition && action != NodeAction::SetText && action != NodeAction::SetValue,
            action,
        ),
{
    let keep = |action: NodeAction| !enters_text(action);
    reveal(Seq::filter);
    let list = offered(condition, action);
    if condition {
        assert(list.drop_last() =~= Seq::empty());
        assert(list.last() == action);
        assert(Seq::<NodeAction>::empty().filter(keep) =~= Seq::empty());
        assert(list.filter(keep) =~= offered(!enters_text(action), action));
    } else {
        assert(list.filter(keep) =~= Seq::empty());
    }
}

/// Adding an action is adding it behind the others, unless it is there.
proof fn lemma_with_action(list: Seq<NodeAction>, condition: bool, action: NodeAction)
    ensures
        with_action(list, condition, action) == list + offered(
            condition && !list.contains(action),
            action,
        ),
{
    assert(with_action(list, condition, action) =~= list + offered(
        condition && !list.contains(action),
        action,
    ));
}

/// What may be offered behind a list occurs in the longer list exactly if it
/// occurs in either.
proof fn lemma_contains_offered(
    list: Seq<NodeAction>,
    condition: bool,
    action: NodeAction,
    other: NodeAction,
)
    ensures
        (list + offered(condition, action)).contains(other) <==> list.contains(other) || (condition
            && action == other),
{
    let longer = list + offered(condition, action);
    if list.contains(other) {
        let i = choose|i: int| 0 <= i < list.len() && list[i] == other;
        assert(longer[i] == other);
    }
    if condition {
        assert(longer[list.len() as int] == action);
    }
    if longer.contains(other) {
        let i = choose|i: int| 0 <= i < longer.len() && longer[i] == other;
        if i < list.len() {
            assert(list[i] == other);
        }
    }
}

/// Among what an element advertises is neither hovering nor dragging.
proof fn lemma_advertised(
    click: bool,
    focus: bool,
    text: bool,
    value: bool,
    scrolls: bool,
    other: NodeAction,
)
    requires
        other == NodeAction::Hover || other == NodeAction::Drag || other == NodeAction::Scroll,
    ensures
        (offered(click, NodeAction::Click) + offered(focus, NodeAction::Focus) + offered(
            text,
            NodeAction::SetText,
        ) + offered(value, NodeAction::SetValue) + offered(scrolls, NodeAction::Scroll)).contains(
            other,
        ) <==> scrolls && other == NodeAction::Scroll,
{
    let a = offered(click, NodeAction::Click);
    let b = offered(focus, NodeAction::Focus);
    let c = offered(text, NodeAction::SetText);
    let d = offered(value, NodeAction::SetValue);
    assert(a.contains(other) <==> click && NodeAction::Click == other);
    lemma_contains_offered(a, focus, NodeAction::Focus, other);
    lemma_contains_offered(a + b, text, NodeAction::SetText, other);
    lemma_contains_offered(a + b + c, value, NodeAction::SetValue, other);
    lemma_contains_offered(a + b + c + d, scrolls, NodeAction::Scroll, other);
}

/// Of a list of offers, what does not enter text.
proof fn lemma_filter_next(
    list: Seq<NodeAction>,
    kept: Seq<NodeAction>,
    condition: bool,
    action: NodeAction,
)
    requires
        list.filter(|action: NodeAction| !enters_text(action)) == kept,
    ensures
        (list + offered(condition, action)).filter(|action: NodeAction| !enters_text(action))
            == kept + offered(
            condition && action != NodeAction::SetText && action != NodeAction::SetValue,
            action,
        ),
{
    let keep = |action: NodeAction| !enters_text(action);
    Seq::filter_distributes_over_add(list, offered(condition, action), keep);
    lemma_filter_offered(condition, action);
}

/// All that an element offers before anything is withheld.
proof fn lemma_all_offered(raw: RawNode, texts: bool, scrolls: bool)
    requires
        node_action_list(raw.node.role, raw.node.actions) == offered(
            raw.node.actions.click,
            NodeAction::Click,
        ) + offered(raw.node.actions.focus, NodeAction::Focus) + offered(texts, NodeAction::SetText)
            + offered(raw.node.actions.set_value, NodeAction::SetValue) + offered(
            scrolls,
            NodeAction::Scroll,
        ),
    ensures
        ({
            let pointer = raw.lookup.pointer;
            let all = node_action_list(raw.node.role, raw.node.actions) + offered(
                pointer.hover,
                NodeAction::Hover,
            ) + offered(pointer.drag, NodeAction::Drag) + offered(
                pointer.scroll && !scrolls,
                NodeAction::Scroll,
            );
            actions_of(raw) == if raw.node.role == AccessRole::PasswordInput {
                all.filter(|action: NodeAction| !enters_text(action))
            } else {
                all
            }
        }),
{
    let actions = raw.node.actions;
    let pointer = raw.lookup.pointer;
    let advertised = node_action_list(raw.node.role, actions);
    let hovered = with_action(advertised, pointer.hover, NodeAction::Hover);
    let dragged = with_action(hovered, pointer.drag, NodeAction::Drag);
    let value = actions.set_value;
    lemma_advertised(actions.click, actions.focus, texts, value, scrolls, NodeAction::Hover);
    lemma_advertised(actions.click, actions.focus, texts, value, scrolls, NodeAction::Drag);
    lemma_advertised(actions.click, actions.focus, texts, value, scrolls, NodeAction::Scroll);
    lemma_with_action(advertised, pointer.hover, NodeAction::Hover);
    lemma_contains_offered(advertised, pointer.hover, NodeAction::Hover, NodeAction::Drag);
    lemma_contains_offered(advertised, pointer.hover, NodeAction::Hover, NodeAction::Scroll);
    lemma_with_action(hovered, pointer.drag, NodeAction::Drag);
    lemma_contains_offered(hovered, pointer.drag, NodeAction::Drag, NodeAction::Scroll);
    lemma_with_action(dragged, pointer.scroll, NodeAction::Scroll);
}

/// What a node offers, in a fixed order: click, focus, setting the text, setting
/// the value, and scrolling as the element advertises them, then hovering,
/// dragging, and scrolling as the pointer can; scrolling once at most. What
/// enters text is not offered by a password.
pub proof fn law_actions(raw: RawNode, published: PublishedModel)
    ensures
        ({
            let actions = raw.node.actions;
            let pointer = raw.lookup.pointer;
            let secret = raw.node.role == AccessRole::PasswordInput;
            let scrolls = actions.scroll_down || actions.scroll_left || actions.scroll_right
                || actions.scroll_up || actions.scroll_into_view || actions.scroll_to_point
                || actions.set_scroll_offset;
            node_of(raw, published).actions == offered(actions.click, NodeAction::Click) + offered(
                actions.focus,
                NodeAction::Focus,
            ) + offered(
                !secret && (actions.replace_selected_text || (actions.set_value && (role_word(
                    raw.node.role,
                ) == Role::TextInput || raw.node.role == AccessRole::SearchInput))),
                NodeAction::SetText,
            ) + offered(!secret && actions.set_value, NodeAction::SetValue) + offered(
                scrolls,
                NodeAction::Scroll,
            ) + offered(pointer.hover, NodeAction::Hover) + offered(pointer.drag, NodeAction::Drag)
                + offered(pointer.scroll && !scrolls, NodeAction::Scroll)
        }),
{
    let role = raw.node.role;
    let actions = raw.node.actions;
    let pointer = raw.lookup.pointer;
    let scrolls = actions.scroll_down || actions.scroll_left || actions.scroll_right
        || actions.scroll_up || actions.scroll_into_view || actions.scroll_to_point
        || actions.set_scroll_offset;
    let texts = actions.replace_selected_text || (actions.set_value && (role_word(role)
        == Role::TextInput || role == AccessRole::SearchInput));
    law_advertised_actions_are_offered(role, actions);
    lemma_all_offered(raw, texts, scrolls);
    if role == AccessRole::PasswordInput {
        let a = offered(actions.click, NodeAction::Click);
        let b = offered(actions.focus, NodeAction::Focus);
        let c = offered(texts, NodeAction::SetText);
        let d = offered(actions.set_value, NodeAction::SetValue);
        let e = offered(scrolls, NodeAction::Scroll);
        let f = offered(pointer.hover, NodeAction::Hover);
        let g = offered(pointer.drag, NodeAction::Drag);
        let x = offered(false, NodeAction::SetText);
        let y = offered(false, NodeAction::SetValue);
        lemma_filter_offered(actions.click, NodeAction::Click);
        lemma_filter_next(a, a, actions.focus, NodeAction::Focus);
        lemma_filter_next(a + b, a + b, texts, NodeAction::SetText);
        lemma_filter_next(a + b + c, a + b + x, actions.set_value, NodeAction::SetValue);
        lemma_filter_next(a + b + c + d, a + b + x + y, scrolls, NodeAction::Scroll);
        lemma_filter_next(
            a + b + c + d + e,
            a + b + x + y + e,
            pointer.hover,
            NodeAction::Hover,
        );
        lemma_filter_next(
            a + b + c + d + e + f,
            a + b + x + y + e + f,
            pointer.drag,
            NodeAction::Drag,
        );
        lemma_filter_next(
            a + b + c + d + e + f + g,
            a + b + x + y + e + f + g,
            pointer.scroll && !scrolls,
            NodeAction::Scroll,
        );
    }
}

// ---------------------------------------------------------------------------
// Highlights
// ---------------------------------------------------------------------------
/// A highlight adds its own rectangle, in its own color, behind the outlines of
/// those before it, and nothing where its color cannot be read.
pub proof fn law_outlines_follow_highlights(highlights: Seq<Highlight>, next: Highlight)
    ensures
        outlines_of(Seq::empty()) == Seq::<Outline>::empty(),
        ({
            let before = outlines_of(highlights);
            let after = outlines_of(highlights.push(next));
            match crate::access::color(next.color@) {
                Some(value) => {
                    &&& after.len() == before.len() + 1
                    &&& after.drop_last() == before
                    &&& after.last().rect == next.rect
                    &&& value <= u32::MAX ==> after.last().color == value
                },
                None => after == before,
            }
        }),
{
    assert(highlights.push(next).drop_last() =~= highlights);
    assert(outlines_of(highlights.push(next)).drop_last() =~= outlines_of(highlights)
        || crate::access::color(next.color@) is None);
}

} // verus!
