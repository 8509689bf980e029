//! What a window's accessibility tree says about one element.

use vstd::prelude::*;

use crate::number::Double;
use crate::protocol::{NodeAction, Rect, Role};
#[allow(unused_imports)]
use crate::text::decimal;
use crate::text::{to_chars, to_decimal};

verus! {

// ---------------------------------------------------------------------------
// Nodes
// ---------------------------------------------------------------------------
/// The roles of accessible elements that are told apart.
#[derive(Clone, Copy, Debug, PartialEq, Eq, Structural)]
pub enum AccessRole {
    Application,
    Window,
    RootWebArea,
    Button,
    DefaultButton,
    DisclosureTriangle,
    CheckBox,
    RadioButton,
    Switch,
    Link,
    Label,
    TextRun,
    Paragraph,
    Heading,
    Legend,
    Caption,
    FigureCaption,
    Term,
    Code,
    Emphasis,
    Strong,
    TextInput,
    MultilineTextInput,
    EmailInput,
    PasswordInput,
    PhoneNumberInput,
    UrlInput,
    SearchInput,
    Search,
    Slider,
    SpinButton,
    ProgressIndicator,
    Meter,
    Image,
    GraphicsSymbol,
    List,
    ListBox,
    ListItem,
    Tree,
    TreeItem,
    Table,
    Grid,
    TreeGrid,
    ListGrid,
    Row,
    LayoutTableRow,
    Cell,
    GridCell,
    LayoutTableCell,
    RowHeader,
    ColumnHeader,
    Menu,
    MenuBar,
    MenuListPopup,
    MenuItem,
    MenuItemCheckBox,
    MenuItemRadio,
    ComboBox,
    EditableComboBox,
    ListBoxOption,
    MenuListOption,
    Splitter,
    Tooltip,
    TabList,
    Tab,
    Toolbar,
    Dialog,
    AlertDialog,
    Alert,
    ScrollBar,
    ScrollView,
    Group,
    Pane,
    RadioGroup,
    TabPanel,
    /// Any other role.
    Other,
}

/// The state of an element that can be toggled.
#[derive(Clone, Copy, Debug, PartialEq, Eq, Structural)]
pub enum Toggled {
    False,
    True,
    Mixed,
}

/// The actions that an element advertises, as far as they are told apart.
#[derive(Clone, Copy, Debug, PartialEq, Eq, Structural)]
pub struct AdvertisedActions {
    pub click: bool,
    pub focus: bool,
    pub replace_selected_text: bool,
    pub set_value: bool,
    pub scroll_down: bool,
    pub scroll_left: bool,
    pub scroll_right: bool,
    pub scroll_up: bool,
    pub scroll_into_view: bool,
    pub scroll_to_point: bool,
    pub set_scroll_offset: bool,
}

impl AdvertisedActions {
    /// No action at all.
    pub fn none() -> (actions: Self)
        ensures
            !actions.click && !actions.focus && !actions.replace_selected_text
                && !actions.set_value && !actions.scrolls(),
    {
        AdvertisedActions {
            click: false,
            focus: false,
            replace_selected_text: false,
            set_value: false,
            scroll_down: false,
            scroll_left: false,
            scroll_right: false,
            scroll_up: false,
            scroll_into_view: false,
            scroll_to_point: false,
            set_scroll_offset: false,
        }
    }

    /// Any of the actions that scroll.
    pub open spec fn scrolls(self) -> bool {
        self.scroll_down || self.scroll_left || self.scroll_right || self.scroll_up
            || self.scroll_into_view || self.scroll_to_point || self.set_scroll_offset
    }
}

/// One accessible element.
pub struct AccessNode {
    pub role: AccessRole,
    pub label: Option<String>,
    pub value: Option<String>,
    pub description: Option<String>,
    /// The numeric value, written as a number.
    pub numeric_value: Option<String>,
    pub min_numeric_value: Option<Double>,
    pub max_numeric_value: Option<Double>,
    pub numeric_value_step: Option<Double>,
    /// The numbers of the children, in order.
    pub children: Vec<u64>,
    pub hidden: bool,
    pub disabled: bool,
    pub toggled: Option<Toggled>,
    pub selected: Option<bool>,
    pub expanded: Option<bool>,
    pub actions: AdvertisedActions,
}

impl AccessNode {
    /// An element of which nothing but the role is known.
    pub fn new(role: AccessRole) -> (node: Self)
        ensures
            node.role == role,
            node.label is None && node.value is None && node.description is None,
            node.numeric_value is None && node.min_numeric_value is None
                && node.max_numeric_value is None && node.numeric_value_step is None,
            node.children@ == Seq::<u64>::empty(),
            !node.hidden && !node.disabled,
            node.toggled is None && node.selected is None && node.expanded is None,
            node_action_list(node.role, node.actions) == Seq::<NodeAction>::empty(),
    {
        AccessNode {
            role,
            label: None,
            value: None,
            description: None,
            numeric_value: None,
            min_numeric_value: None,
            max_numeric_value: None,
            numeric_value_step: None,
            children: Vec::new(),
            hidden: false,
            disabled: false,
            toggled: None,
            selected: None,
            expanded: None,
            actions: AdvertisedActions::none(),
        }
    }
}

/// The pointer interactions that a window has recorded for an element.
#[derive(Clone, Copy, Debug, PartialEq, Eq, Structural)]
pub struct PointerInteractions {
    pub hover: bool,
    pub drag: bool,
    pub scroll: bool,
}

/// What the window holds about one element beside the tree.
pub struct NodeLookup {
    pub bounds: Option<Rect>,
    pub pointer: PointerInteractions,
    pub element_id: Option<String>,
}

impl NodeLookup {
    /// Nothing is held.
    pub fn new() -> (lookup: Self)
        ensures
            lookup.bounds is None,
            lookup.pointer == (PointerInteractions { hover: false, drag: false, scroll: false }),
            lookup.element_id is None,
    {
        NodeLookup {
            bounds: None,
            pointer: PointerInteractions { hover: false, drag: false, scroll: false },
            element_id: None,
        }
    }
}

// ---------------------------------------------------------------------------
// Roles
// ---------------------------------------------------------------------------
/// The bridge's word for a role.
pub open spec fn role_word(role: AccessRole) -> Role {
    match role {
        AccessRole::Application => Role::Application,
        AccessRole::Window
        | AccessRole::RootWebArea => Role::Window,
        AccessRole::Button
        | AccessRole::DefaultButton
        | AccessRole::DisclosureTriangle => Role::Button,
        AccessRole::CheckBox => Role::Checkbox,
        AccessRole::RadioButton => Role::Radio,
        AccessRole::Switch => Role::Switch,
        AccessRole::Link => Role::Link,
        AccessRole::Label
        | AccessRole::TextRun
        | AccessRole::Paragraph
        | AccessRole::Heading
        | AccessRole::Legend
        | AccessRole::Caption
        | AccessRole::FigureCaption
        | AccessRole::Term
        | AccessRole::Code
        | AccessRole::Emphasis
        | AccessRole::Strong => Role::Text,
        AccessRole::TextInput
        | AccessRole::MultilineTextInput
        | AccessRole::EmailInput
        | AccessRole::PasswordInput
        | AccessRole::PhoneNumberInput
        | AccessRole::UrlInput => Role::TextInput,
        AccessRole::SearchInput
        | AccessRole::Search => Role::SearchInput,
        AccessRole::Slider
        | AccessRole::SpinButton => Role::Slider,
        AccessRole::ProgressIndicator
        | AccessRole::Meter => Role::Progress,
        AccessRole::Image
        | AccessRole::GraphicsSymbol => Role::Image,
        AccessRole::List
        | AccessRole::ListBox => Role::List,
        AccessRole::ListItem => Role::ListItem,
        AccessRole::Tree => Role::Tree,
        AccessRole::TreeItem => Role::TreeItem,
        AccessRole::Table
        | AccessRole::Grid
        | AccessRole::TreeGrid
        | AccessRole::ListGrid => Role::Table,
        AccessRole::Row
        | AccessRole::LayoutTableRow => Role::Row,
        AccessRole::Cell
        | AccessRole::GridCell
        | AccessRole::LayoutTableCell
        | AccessRole::RowHeader
        | AccessRole::ColumnHeader => Role::Cell,
        AccessRole::Menu
        | AccessRole::MenuBar
        | AccessRole::MenuListPopup => Role::Menu,
        AccessRole::MenuItem
        | AccessRole::MenuItemCheckBox
        | AccessRole::MenuItemRadio => Role::MenuItem,
        AccessRole::ComboBox
        | AccessRole::EditableComboBox => Role::Combobox,
        AccessRole::ListBoxOption
        | AccessRole::MenuListOption => Role::Option,
        AccessRole::Splitter => Role::Separator,
        AccessRole::Tooltip => Role::Tooltip,
        AccessRole::TabList => Role::TabList,
        AccessRole::Tab => Role::Tab,
        AccessRole::Toolbar => Role::Toolbar,
        AccessRole::Dialog
        | AccessRole::AlertDialog => Role::Dialog,
        AccessRole::Alert => Role::Alert,
        AccessRole::ScrollBar
        | AccessRole::ScrollView => Role::ScrollArea,
        AccessRole::Group
        | AccessRole::Pane
        | AccessRole::RadioGroup
        | AccessRole::TabPanel => Role::Group,
        AccessRole::Other => Role::Generic,
    }
}

/// Map a role onto the bridge's role vocabulary.
pub fn protocol_role(role: AccessRole) -> (word: Role)
    ensures
        word == role_word(role),
{
    match role {
        AccessRole::Application => Role::Application,
        AccessRole::Window
        | AccessRole::RootWebArea => Role::Window,
        AccessRole::Button
        | AccessRole::DefaultButton
        | AccessRole::DisclosureTriangle => Role::Button,
        AccessRole::CheckBox => Role::Checkbox,
        AccessRole::RadioButton => Role::Radio,
        AccessRole::Switch => Role::Switch,
        AccessRole::Link => Role::Link,
        AccessRole::Label
        | AccessRole::TextRun
        | AccessRole::Paragraph
        | AccessRole::Heading
        | AccessRole::Legend
        | AccessRole::Caption
        | AccessRole::FigureCaption
        | AccessRole::Term
        | AccessRole::Code
        | AccessRole::Emphasis
        | AccessRole::Strong => Role::Text,
        AccessRole::TextInput
        | AccessRole::MultilineTextInput
        | AccessRole::EmailInput
        | AccessRole::PasswordInput
        | AccessRole::PhoneNumberInput
        | AccessRole::UrlInput => Role::TextInput,
        AccessRole::SearchInput
        | AccessRole::Search => Role::SearchInput,
        AccessRole::Slider
        | AccessRole::SpinButton => Role::Slider,
        AccessRole::ProgressIndicator
        | AccessRole::Meter => Role::Progress,
        AccessRole::Image
        | AccessRole::GraphicsSymbol => Role::Image,
        AccessRole::List
        | AccessRole::ListBox => Role::List,
        AccessRole::ListItem => Role::ListItem,
        AccessRole::Tree => Role::Tree,
        AccessRole::TreeItem => Role::TreeItem,
        AccessRole::Table
        | AccessRole::Grid
        | AccessRole::TreeGrid
        | AccessRole::ListGrid => Role::Table,
        AccessRole::Row
        | AccessRole::LayoutTableRow => Role::Row,
        AccessRole::Cell
        | AccessRole::GridCell
        | AccessRole::LayoutTableCell
        | AccessRole::RowHeader
        | AccessRole::ColumnHeader => Role::Cell,
        AccessRole::Menu
        | AccessRole::MenuBar
        | AccessRole::MenuListPopup => Role::Menu,
        AccessRole::MenuItem
        | AccessRole::MenuItemCheckBox
        | AccessRole::MenuItemRadio => Role::MenuItem,
        AccessRole::ComboBox
        | AccessRole::EditableComboBox => Role::Combobox,
        AccessRole::ListBoxOption
        | AccessRole::MenuListOption => Role::Option,
        AccessRole::Splitter => Role::Separator,
        AccessRole::Tooltip => Role::Tooltip,
        AccessRole::TabList => Role::TabList,
        AccessRole::Tab => Role::Tab,
        AccessRole::Toolbar => Role::Toolbar,
        AccessRole::Dialog
        | AccessRole::AlertDialog => Role::Dialog,
        AccessRole::Alert => Role::Alert,
        AccessRole::ScrollBar
        | AccessRole::ScrollView => Role::ScrollArea,
        AccessRole::Group
        | AccessRole::Pane
        | AccessRole::RadioGroup
        | AccessRole::TabPanel => Role::Group,
        AccessRole::Other => Role::Generic,
    }
}

/// The role's value is secret.
pub open spec fn redacted(role: AccessRole) -> bool {
    role == AccessRole::PasswordInput
}

/// Whether the role's value is secret.
pub fn is_redacted(role: AccessRole) -> (answer: bool)
    ensures
        answer == redacted(role),
{
    role == AccessRole::PasswordInput
}

/// The role accepts text replacement through its value.
pub open spec fn editable_text(role: AccessRole) -> bool {
    match role {
        AccessRole::TextInput
        | AccessRole::MultilineTextInput
        | AccessRole::SearchInput
        | AccessRole::EmailInput
        | AccessRole::PasswordInput
        | AccessRole::PhoneNumberInput
        | AccessRole::UrlInput => true,
        _ => false,
    }
}

/// Whether the role accepts text replacement through its value.
pub fn is_editable_text_role(role: AccessRole) -> (answer: bool)
    ensures
        answer == editable_text(role),
{
    match role {
        AccessRole::TextInput
        | AccessRole::MultilineTextInput
        | AccessRole::SearchInput
        | AccessRole::EmailInput
        | AccessRole::PasswordInput
        | AccessRole::PhoneNumberInput
        | AccessRole::UrlInput => true,
        _ => false,
    }
}

/// The role's value is its text content.
pub open spec fn textual(role: AccessRole) -> bool {
    editable_text(role) || role_word(role) == Role::Text
}

/// Whether the role's value is its text content.
pub fn is_text_role(role: AccessRole) -> (answer: bool)
    ensures
        answer == textual(role),
{
    is_editable_text_role(role) || match role {
        AccessRole::Label
        | AccessRole::TextRun
        | AccessRole::Paragraph
        | AccessRole::Heading
        | AccessRole::Legend
        | AccessRole::Caption
        | AccessRole::FigureCaption
        | AccessRole::Term
        | AccessRole::Code
        | AccessRole::Emphasis
        | AccessRole::Strong => true,
        _ => false,
    }
}

/// The role takes its label from its content where it has none of its own.
pub open spec fn labelled_by_content(role: AccessRole) -> bool {
    match role {
        AccessRole::Button
        | AccessRole::DefaultButton
        | AccessRole::CheckBox
        | AccessRole::RadioButton
        | AccessRole::Switch
        | AccessRole::Link
        | AccessRole::MenuItem
        | AccessRole::MenuItemCheckBox
        | AccessRole::MenuItemRadio
        | AccessRole::ListBoxOption
        | AccessRole::MenuListOption
        | AccessRole::Tab => true,
        _ => false,
    }
}

/// The label that content gives to an element of this role.
pub open spec fn content_label(role: AccessRole, content: Seq<char>) -> Option<Seq<char>> {
    if labelled_by_content(role) && content.len() > 0 {
        Some(content)
    } else {
        None
    }
}

/// Derive a label from descendant text for roles that have no label of their own.
pub fn label_from_content(role: AccessRole, content: &str) -> (label: Option<String>)
    ensures
        label.deep_view() == content_label(role, content@),
{
    let labelled = match role {
        AccessRole::Button
        | AccessRole::DefaultButton
        | AccessRole::CheckBox
        | AccessRole::RadioButton
        | AccessRole::Switch
        | AccessRole::Link
        | AccessRole::MenuItem
        | AccessRole::MenuItemCheckBox
        | AccessRole::MenuItemRadio
        | AccessRole::ListBoxOption
        | AccessRole::MenuListOption
        | AccessRole::Tab => true,
        _ => false,
    };
    if labelled && !content.is_empty() {
        Some(content.to_owned())
    } else {
        None
    }
}

// ---------------------------------------------------------------------------
// Actions
// ---------------------------------------------------------------------------
/// `actions` with one more, if `condition` holds and it is not there yet.
pub open spec fn with_action(
    actions: Seq<NodeAction>,
    condition: bool,
    action: NodeAction,
) -> Seq<NodeAction> {
    if condition && !actions.contains(action) {
        actions.push(action)
    } else {
        actions
    }
}

/// Add an action once, if `condition` holds.
pub fn push_action(actions: &mut Vec<NodeAction>, condition: bool, action: NodeAction)
    ensures
        final(actions)@ == with_action(old(actions)@, condition, action),
{
    if !condition {
        return ;
    }
    let mut i: usize = 0;
    while i < actions.len()
        invariant
            actions@ == old(actions)@,
            i <= actions@.len(),
            condition,
            forall|j: int| 0 <= j < i ==> #[trigger] actions@[j] != action,
        decreases actions@.len() - i,
    {
        if actions[i] == action {
            assert(actions@[i as int] == action);
            return ;
        }
        i += 1;
    }
    actions.push(action);
}

/// The bridge's words for the advertised actions of an element.
pub open spec fn node_action_list(role: AccessRole, actions: AdvertisedActions) -> Seq<NodeAction> {
    let clicked = with_action(Seq::empty(), actions.click, NodeAction::Click);
    let focused = with_action(clicked, actions.focus, NodeAction::Focus);
    let texted = with_action(
        focused,
        actions.replace_selected_text || (editable_text(role) && actions.set_value),
        NodeAction::SetText,
    );
    let valued = with_action(texted, actions.set_value, NodeAction::SetValue);
    with_action(valued, actions.scrolls(), NodeAction::Scroll)
}

/// Map a node's advertised actions onto the bridge's vocabulary.
pub fn node_actions(node: &AccessNode) -> (actions: Vec<NodeAction>)
    ensures
        actions@ == node_action_list(node.role, node.actions),
{
    let advertised = node.actions;
    let mut actions: Vec<NodeAction> = Vec::new();
    push_action(&mut actions, advertised.click, NodeAction::Click);
    push_action(&mut actions, advertised.focus, NodeAction::Focus);
    push_action(
        &mut actions,
        advertised.replace_selected_text || (is_editable_text_role(node.role)
            && advertised.set_value),
        NodeAction::SetText,
    );
    push_action(&mut actions, advertised.set_value, NodeAction::SetValue);
    push_action(
        &mut actions,
        advertised.scroll_down || advertised.scroll_left || advertised.scroll_right
            || advertised.scroll_up || advertised.scroll_into_view || advertised.scroll_to_point
            || advertised.set_scroll_offset,
        NodeAction::Scroll,
    );
    actions
}

// ---------------------------------------------------------------------------
// Names and colors
// ---------------------------------------------------------------------------
/// The element ids that GPUI records, as far as they name an element.
pub enum ElementName {
    Name(String),
    NamedInteger(String, u64),
    Integer(u64),
    /// Any other element id.
    Other,
}

pub open spec fn element_text(id: ElementName) -> Option<Seq<char>> {
    match id {
        ElementName::Name(name) => Some(name@),
        ElementName::NamedInteger(name, index) => Some(name@.push('-') + decimal(index as nat)),
        ElementName::Integer(index) => Some(decimal(index as nat)),
        ElementName::Other => None,
    }
}

/// The identity a named element contributes, from the element id GPUI recorded.
pub fn element_id_name(id: &ElementName) -> (name: Option<String>)
    ensures
        name.deep_view() == element_text(*id),
{
    match id {
        ElementName::Name(name) => Some(name.clone()),
        ElementName::NamedInteger(name, index) => {
            let mut text = name.clone();
            text.push('-');
            let number = to_decimal(*index);
            text.append(number.as_str());
            Some(text)
        },
        ElementName::Integer(index) => Some(to_decimal(*index)),
        ElementName::Other => None,
    }
}

/// The value of a hexadecimal digit.
pub open spec fn hex_digit(c: char) -> Option<u32> {
    if '0' <= c <= '9' {
        Some((c as u32 - 0x30) as u32)
    } else if 'a' <= c <= 'f' {
        Some((c as u32 - 0x61 + 10) as u32)
    } else if 'A' <= c <= 'F' {
        Some((c as u32 - 0x41 + 10) as u32)
    } else {
        None
    }
}

/// The number that hexadecimal digits spell, if they are nothing but digits.
pub open spec fn hex_number(digits: Seq<char>) -> Option<nat>
    decreases digits.len(),
{
    if digits.len() == 0 {
        Some(0)
    } else {
        match (hex_number(digits.drop_last()), hex_digit(digits.last())) {
            (Some(high), Some(low)) => Some(high * 16 + low as nat),
            _ => None,
        }
    }
}

/// The color that an eight-digit `#RRGGBBAA` text spells.
pub open spec fn color(text: Seq<char>) -> Option<nat> {
    if text.len() == 9 && text[0] == '#' {
        hex_number(text.drop_first())
    } else {
        None
    }
}

fn hex_value(c: char) -> (value: Option<u32>)
    ensures
        value == hex_digit(c),
        value matches Some(digit) ==> digit < 16,
{
    let code: u32 = c as u32;
    if '0' <= c && c <= '9' {
        Some(code - 0x30)
    } else if 'a' <= c && c <= 'f' {
        Some(code - 0x61 + 10)
    } else if 'A' <= c && c <= 'F' {
        Some(code - 0x41 + 10)
    } else {
        None
    }
}

/// Parse an eight-digit `#RRGGBBAA` highlight color.
pub fn parse_color(text: &str) -> (parsed: Option<u32>)
    ensures
        match parsed {
            Some(value) => color(text@) == Some(value as nat),
            None => color(text@) is None,
        },
{
    let chars = to_chars(text);
    if chars.len() != 9 || chars[0] != '#' {
        return None;
    }
    let ghost digits = text@.drop_first();
    let mut value: u32 = 0;
    let mut i: usize = 1;
    assert(digits.take(0) =~= Seq::empty());
    while i < 9
        invariant
            1 <= i <= 9,
            chars@ == text@,
            chars@.len() == 9,
            digits == text@.drop_first(),
            hex_number(digits.take(i - 1)) == Some(value as nat),
            value < bound_after(i - 1),
        decreases 9 - i,
    {
        proof {
            assert(digits.take(i as int).drop_last() =~= digits.take(i - 1));
            assert(digits.take(i as int).last() == chars@[i as int]);
            lemma_bound_after(i - 1);
        }
        match hex_value(chars[i]) {
            Some(digit) => {
                value = value * 16 + digit;
            },
            None => {
                proof {
                    lemma_hex_prefix(digits, i as int);
                }
                return None;
            },
        }
        i += 1;
    }
    assert(digits.take(8) =~= digits);
    Some(value)
}

/// Sixteen to the power of `n`.
spec fn bound_after(n: int) -> int
    decreases n,
{
    if n <= 0 {
        1
    } else {
        16 * bound_after(n - 1)
    }
}

proof fn lemma_bound_after(n: int)
    requires
        0 <= n < 8,
    ensures
        1 <= bound_after(n) <= 0x1000_0000,
        bound_after(n + 1) == 16 * bound_after(n),
{
    reveal_with_fuel(bound_after, 9);
}

/// Digits with a prefix that spells no number spell none.
proof fn lemma_hex_prefix(digits: Seq<char>, n: int)
    requires
        0 <= n <= digits.len(),
        hex_number(digits.take(n)) is None,
    ensures
        hex_number(digits) is None,
    decreases digits.len(),
{
    if n < digits.len() {
        assert(digits.drop_last().take(n) =~= digits.take(n));
        lemma_hex_prefix(digits.drop_last(), n);
    } else {
        assert(digits.take(n) =~= digits);
    }
}

// ---------------------------------------------------------------------------
// Laws
// ---------------------------------------------------------------------------
/// No action is listed twice.
pub proof fn law_actions_are_distinct(role: AccessRole, actions: AdvertisedActions)
    ensures
        node_action_list(role, actions).no_duplicates(),
{
}

/// What is secret is editable text, and its word is that of any text input.
pub proof fn law_secret_roles(role: AccessRole)
    requires
        redacted(role),
    ensures
        textual(role),
        role_word(role) == Role::TextInput,
        !labelled_by_content(role),
{
}

/// Which roles each of the bridge's words stands for; no other role has it.
pub proof fn law_words_for_roles(role: AccessRole)
    ensures
        role_word(role) == Role::Application <==> role == AccessRole::Application,
        role_word(role) == Role::Window <==> role == AccessRole::Window
            || role == AccessRole::RootWebArea,
        role_word(role) == Role::Button <==> role == AccessRole::Button
            || role == AccessRole::DefaultButton
            || role == AccessRole::DisclosureTriangle,
        role_word(role) == Role::Checkbox <==> role == AccessRole::CheckBox,
        role_word(role) == Role::Radio <==> role == AccessRole::RadioButton,
        role_word(role) == Role::Switch <==> role == AccessRole::Switch,
        role_word(role) == Role::Link <==> role == AccessRole::Link,
        role_word(role) == Role::Text <==> role == AccessRole::Label
            || role == AccessRole::TextRun
            || role == AccessRole::Paragraph
            || role == AccessRole::Heading
            || role == AccessRole::Legend
            || role == AccessRole::Caption
            || role == AccessRole::FigureCaption
            || role == AccessRole::Term
            || role == AccessRole::Code
            || role == AccessRole::Emphasis
            || role == AccessRole::Strong,
        role_word(role) == Role::TextInput <==> role == AccessRole::TextInput
            || role == AccessRole::MultilineTextInput
            || role == AccessRole::EmailInput
            || role == AccessRole::PasswordInput
            || role == AccessRole::PhoneNumberInput
            || role == AccessRole::UrlInput,
        role_word(role) == Role::SearchInput <==> role == AccessRole::SearchInput
            || role == AccessRole::Search,
        role_word(role) == Role::Slider <==> role == AccessRole::Slider
            || role == AccessRole::SpinButton,
        role_word(role) == Role::Progress <==> role == AccessRole::ProgressIndicator
            || role == AccessRole::Meter,
        role_word(role) == Role::Image <==> role == AccessRole::Image
            || role == AccessRole::GraphicsSymbol,
        role_word(role) == Role::List <==> role == AccessRole::List
            || role == AccessRole::ListBox,
        role_word(role) == Role::ListItem <==> role == AccessRole::ListItem,
        role_word(role) == Role::Tree <==> role == AccessRole::Tree,
        role_word(role) == Role::TreeItem <==> role == AccessRole::TreeItem,
        role_word(role) == Role::Table <==> role == AccessRole::Table
            || role == AccessRole::Grid
            || role == AccessRole::TreeGrid
            || role == AccessRole::ListGrid,
        role_word(role) == Role::Row <==> role == AccessRole::Row
            || role == AccessRole::LayoutTableRow,
        role_word(role) == Role::Cell <==> role == AccessRole::Cell
            || role == AccessRole::GridCell
            || role == AccessRole::LayoutTableCell
            || role == AccessRole::RowHeader
            || role == AccessRole::ColumnHeader,
        role_word(role) == Role::Menu <==> role == AccessRole::Menu
            || role == AccessRole::MenuBar
            || role == AccessRole::MenuListPopup,
        role_word(role) == Role::MenuItem <==> role == AccessRole::MenuItem
            || role == AccessRole::MenuItemCheckBox
            || role == AccessRole::MenuItemRadio,
        role_word(role) == Role::Combobox <==> role == AccessRole::ComboBox
            || role == AccessRole::EditableComboBox,
        role_word(role) == Role::Option <==> role == AccessRole::ListBoxOption
            || role == AccessRole::MenuListOption,
        role_word(role) == Role::Separator <==> role == AccessRole::Splitter,
        role_word(role) == Role::Tooltip <==> role == AccessRole::Tooltip,
        role_word(role) == Role::TabList <==> role == AccessRole::TabList,
        role_word(role) == Role::Tab <==> role == AccessRole::Tab,
        role_word(role) == Role::Toolbar <==> role == AccessRole::Toolbar,
        role_word(role) == Role::Dialog <==> role == AccessRole::Dialog
            || role == AccessRole::AlertDialog,
        role_word(role) == Role::Alert <==> role == AccessRole::Alert,
        role_word(role) == Role::ScrollArea <==> role == AccessRole::ScrollBar
            || role == AccessRole::ScrollView,
        role_word(role) == Role::Group <==> role == AccessRole::Group
            || role == AccessRole::Pane
            || role == AccessRole::RadioGroup
            || role == AccessRole::TabPanel,
        role_word(role) == Role::Generic <==> role == AccessRole::Other,
{
}

/// What is editable text, what is text at all, what takes its label from its
/// content, and what is secret, in the bridge's words.
pub proof fn law_what_roles_mean(role: AccessRole)
    ensures
        editable_text(role) <==> role_word(role) == Role::TextInput || role
            == AccessRole::SearchInput,
        textual(role) <==> role_word(role) == Role::Text || role_word(role) == Role::TextInput
            || role == AccessRole::SearchInput,
        labelled_by_content(role) <==> (role_word(role) == Role::Button && role
            != AccessRole::DisclosureTriangle) || role_word(role) == Role::Checkbox || role_word(
            role,
        ) == Role::Radio || role_word(role) == Role::Switch || role_word(role) == Role::Link
            || role_word(role) == Role::MenuItem || role_word(role) == Role::Option || role_word(
            role,
        ) == Role::Tab,
        redacted(role) <==> role == AccessRole::PasswordInput,
{
}

/// One action, or none.
pub open spec fn offered(condition: bool, action: NodeAction) -> Seq<NodeAction> {
    if condition {
        seq![action]
    } else {
        Seq::empty()
    }
}

/// What an element advertises is offered in a fixed order: click, focus,
/// setting the text, setting the value, scrolling. Text can be set where the
/// element replaces a selection, or is a text input whose value can be set.
pub proof fn law_advertised_actions_are_offered(role: AccessRole, actions: AdvertisedActions)
    ensures
        node_action_list(role, actions) == offered(actions.click, NodeAction::Click) + offered(
            actions.focus,
            NodeAction::Focus,
        ) + offered(
            actions.replace_selected_text || (actions.set_value && (role_word(role)
                == Role::TextInput || role == AccessRole::SearchInput)),
            NodeAction::SetText,
        ) + offered(actions.set_value, NodeAction::SetValue) + offered(
            actions.scroll_down || actions.scroll_left || actions.scroll_right || actions.scroll_up
                || actions.scroll_into_view || actions.scroll_to_point
                || actions.set_scroll_offset,
            NodeAction::Scroll,
        ),
{
    law_what_roles_mean(role);
    let text = actions.replace_selected_text || (actions.set_value && editable_text(role));
    let a = with_action(Seq::empty(), actions.click, NodeAction::Click);
    let b = with_action(a, actions.focus, NodeAction::Focus);
    let c = with_action(b, text, NodeAction::SetText);
    let d = with_action(c, actions.set_value, NodeAction::SetValue);
    let w = offered(actions.click, NodeAction::Click);
    let x = offered(actions.focus, NodeAction::Focus);
    let y = offered(text, NodeAction::SetText);
    let z = offered(actions.set_value, NodeAction::SetValue);
    let v = offered(actions.scrolls(), NodeAction::Scroll);
    assert(a =~= w);
    assert(b =~= w + x);
    assert(c =~= w + x + y);
    assert(d =~= w + x + y + z);
    assert(node_action_list(role, actions) =~= w + x + y + z + v);
}

/// An element's name is its own text, its text and its index behind a dash, or
/// its number; any other element id names nothing.
pub proof fn law_element_names(id: ElementName)
    ensures
        match id {
            ElementName::Name(name) => element_text(id) == Some(name@),
            ElementName::NamedInteger(name, index) => {
                &&& element_text(id) matches Some(text)
                &&& text.len() > name@.len()
                &&& text.take(name@.len() as int) == name@
                &&& text[name@.len() as int] == '-'
                &&& crate::text::decimal_value(text.skip(name@.len() as int + 1)) == index
            },
            ElementName::Integer(index) => {
                &&& element_text(id) matches Some(text)
                &&& crate::text::decimal_value(text) == index
            },
            ElementName::Other => element_text(id) is None,
        },
{
    match id {
        ElementName::NamedInteger(name, index) => {
            let text = element_text(id)->0;
            crate::text::law_decimals_spell_their_numbers(index as nat);
            assert(text.take(name@.len() as int) =~= name@);
            assert(text.skip(name@.len() as int + 1) =~= decimal(index as nat));
        },
        ElementName::Integer(index) => {
            crate::text::law_decimals_spell_their_numbers(index as nat);
        },
        _ => {},
    }
}

/// The value of a hexadecimal digit, in either case.
pub open spec fn nibble(c: char) -> int {
    if c <= '9' {
        c as u32 - '0' as u32
    } else if c <= 'F' {
        c as u32 - 'A' as u32 + 10
    } else {
        c as u32 - 'a' as u32 + 10
    }
}

pub open spec fn is_hex(c: char) -> bool {
    '0' <= c <= '9' || 'a' <= c <= 'f' || 'A' <= c <= 'F'
}

/// A color is a `#` and exactly eight hexadecimal digits: two each for red,
/// green, blue, and alpha, from the most to the least significant byte.
pub proof fn law_colors(text: Seq<char>)
    ensures
        color(text) is Some <==> text.len() == 9 && text[0] == '#' && forall|i: int|
            1 <= i < 9 ==> is_hex(#[trigger] text[i]),
        color(text) matches Some(value) ==> value == 0x100_0000 * (16 * nibble(text[1]) + nibble(
            text[2],
        )) + 0x1_0000 * (16 * nibble(text[3]) + nibble(text[4])) + 0x100 * (16 * nibble(text[5])
            + nibble(text[6])) + (16 * nibble(text[7]) + nibble(text[8])),
{
    if text.len() == 9 && text[0] == '#' {
        let digits = text.drop_first();
        lemma_hex_steps(digits);
        assert forall|i: int| 1 <= i < 9 implies #[trigger] text[i] == digits[i - 1] by {}
        if hex_number(digits) is Some {
            assert forall|i: int| 1 <= i < 9 implies is_hex(#[trigger] text[i]) by {
                assert(hex_digit(digits[i - 1]) is Some);
            }
        } else {
            let i = choose|i: int| 0 <= i < 8 && hex_digit(#[trigger] digits[i]) is None;
            assert(!is_hex(text[i + 1]));
        }
    }
}

proof fn lemma_hex_step(digits: Seq<char>, n: int)
    requires
        0 <= n < digits.len(),
    ensures
        hex_number(digits.take(n + 1)) == match (hex_number(digits.take(n)), hex_digit(digits[n])) {
            (Some(high), Some(low)) => Some(high * 16 + low as nat),
            _ => None,
        },
{
    assert(digits.take(n + 1).drop_last() =~= digits.take(n));
    assert(digits.take(n + 1).last() == digits[n]);
}

/// Digits spell a number exactly when each of them is one.
proof fn lemma_hex_defined(digits: Seq<char>, n: int)
    requires
        0 <= n <= digits.len(),
    ensures
        hex_number(digits.take(n)) is Some <==> forall|i: int|
            0 <= i < n ==> hex_digit(#[trigger] digits[i]) is Some,
    decreases n,
{
    if n > 0 {
        lemma_hex_defined(digits, n - 1);
        lemma_hex_step(digits, n - 1);
        if forall|i: int| 0 <= i < n - 1 ==> hex_digit(#[trigger] digits[i]) is Some {
            if hex_digit(digits[n - 1]) is Some {
                assert forall|i: int| 0 <= i < n implies hex_digit(#[trigger] digits[i]) is Some by {
                    if i == n - 1 {
                        assert(hex_digit(digits[n - 1]) is Some);
                    }
                }
            }
        }
    }
}

proof fn lemma_hex_value(digits: Seq<char>, n: int)
    requires
        0 <= n < digits.len(),
        hex_number(digits.take(n + 1)) is Some,
    ensures
        hex_number(digits.take(n)) is Some,
        hex_number(digits.take(n + 1))->0 == hex_number(digits.take(n))->0 * 16 + nibble(
            digits[n],
        ),
{
    lemma_hex_step(digits, n);
}

proof fn lemma_hex_steps(digits: Seq<char>)
    requires
        digits.len() == 8,
    ensures
        hex_number(digits) is Some <==> forall|i: int|
            0 <= i < 8 ==> hex_digit(#[trigger] digits[i]) is Some,
        hex_number(digits) matches Some(value) ==> value == 0x1000_0000 * nibble(digits[0])
            + 0x100_0000 * nibble(digits[1]) + 0x10_0000 * nibble(digits[2]) + 0x1_0000 * nibble(
            digits[3],
        ) + 0x1000 * nibble(digits[4]) + 0x100 * nibble(digits[5]) + 0x10 * nibble(digits[6])
            + nibble(digits[7]),
{
    lemma_hex_defined(digits, 8);
    assert(digits.take(8) =~= digits);
    if hex_number(digits) is Some {
        lemma_hex_value(digits, 7);
        lemma_hex_value(digits, 6);
        lemma_hex_value(digits, 5);
        lemma_hex_value(digits, 4);
        lemma_hex_value(digits, 3);
        lemma_hex_value(digits, 2);
        lemma_hex_value(digits, 1);
        lemma_hex_value(digits, 0);
        assert(digits.take(0) =~= Seq::empty());
        assert(hex_number(digits.take(0))->0 == 0);
    }
}

} // verus!
