//! The bridge's vocabulary: semantic trees, commands, diagnostics, and limits.

use vstd::prelude::*;

use crate::model::Modelled;
use crate::number::{Double, Single};
use crate::string_map::StringMap;

verus! {

/// Longest semantic identifier.
pub const MAX_ID_BYTES: usize = 256;

/// Longest label or description.
pub const MAX_LABEL_BYTES: usize = 4096;

/// Longest text, value, or keystroke.
pub const MAX_TEXT_BYTES: usize = 65536;

/// Most metadata fields of one node.
pub const MAX_METADATA_FIELDS: usize = 32;

/// Longest metadata key.
pub const MAX_METADATA_KEY_BYTES: usize = 128;

/// Longest metadata value.
pub const MAX_METADATA_VALUE_BYTES: usize = 4096;

/// Most nodes of one semantic tree.
pub const MAX_TREE_NODES: usize = 10000;

/// Most keystrokes of one key sequence.
pub const MAX_KEY_SEQUENCE: usize = 1024;

// ---------------------------------------------------------------------------
// Geometry
// ---------------------------------------------------------------------------
/// A point in window-relative logical pixels.
#[derive(Clone, Copy, Debug, PartialEq)]
pub struct Point {
    pub x: Single,
    pub y: Single,
}

impl Point {
    pub open spec fn valid(self) -> bool {
        self.x.finite() && self.y.finite()
    }

    /// Whether both coordinates are finite.
    pub fn is_valid(self) -> (answer: bool)
        ensures
            answer == self.valid(),
    {
        self.x.is_finite() && self.y.is_finite()
    }
}

/// A rectangle in window-relative logical pixels.
#[derive(Clone, Copy, Debug, PartialEq)]
pub struct Rect {
    pub x: Single,
    pub y: Single,
    pub width: Single,
    pub height: Single,
}

/// A rectangle's numbers, by which equal rectangles are equal.
pub struct RectModel {
    pub x: int,
    pub y: int,
    pub width: int,
    pub height: int,
}

impl Rect {
    pub open spec fn valid(self) -> bool {
        &&& self.x.finite()
        &&& self.y.finite()
        &&& self.width.finite()
        &&& self.height.finite()
        &&& self.width.rank() >= 0
        &&& self.height.rank() >= 0
    }

    /// Whether all four numbers are finite and the size is not negative.
    pub fn is_valid(self) -> (answer: bool)
        ensures
            answer == self.valid(),
    {
        self.x.is_finite() && self.y.is_finite() && self.width.is_finite()
            && self.height.is_finite() && self.width.to_rank() >= 0 && self.height.to_rank() >= 0
    }
}

impl DeepView for Rect {
    type V = RectModel;

    open spec fn deep_view(&self) -> RectModel {
        RectModel {
            x: self.x.rank(),
            y: self.y.rank(),
            width: self.width.rank(),
            height: self.height.rank(),
        }
    }
}

impl Modelled for Rect {
    fn same(&self, other: &Self) -> (same: bool) {
        self.x.to_rank() == other.x.to_rank() && self.y.to_rank() == other.y.to_rank()
            && self.width.to_rank() == other.width.to_rank() && self.height.to_rank()
            == other.height.to_rank()
    }

    fn duplicate(&self) -> (copy: Self) {
        *self
    }
}

/// Where a window's content stands on the screen.
#[derive(Clone, Copy, Debug, PartialEq)]
pub struct WindowGeometry {
    pub content_bounds: Rect,
    pub scale_factor: Single,
}

impl WindowGeometry {
    pub open spec fn valid(self) -> bool {
        self.content_bounds.valid() && self.scale_factor.finite() && self.scale_factor.rank() > 0
    }

    /// Whether the bounds are valid and the scale is finite and positive.
    pub fn is_valid(self) -> (answer: bool)
        ensures
            answer == self.valid(),
    {
        self.content_bounds.is_valid() && self.scale_factor.is_finite()
            && self.scale_factor.to_rank() > 0
    }
}

// ---------------------------------------------------------------------------
// Semantic nodes
// ---------------------------------------------------------------------------
/// What a node is.
#[derive(Clone, Copy, Debug, PartialEq, Eq, Structural)]
pub enum Role {
    Application,
    Window,
    Button,
    Checkbox,
    Radio,
    Switch,
    Link,
    Text,
    TextInput,
    SearchInput,
    Slider,
    Progress,
    Image,
    List,
    ListItem,
    Tree,
    TreeItem,
    Table,
    Row,
    Cell,
    Menu,
    MenuItem,
    Combobox,
    Option,
    Separator,
    Tooltip,
    TabList,
    Tab,
    Toolbar,
    Dialog,
    Alert,
    ScrollArea,
    Group,
    Generic,
}

/// What a client can ask of a node.
#[derive(Clone, Copy, Debug, PartialEq, Eq, Structural)]
pub enum NodeAction {
    Click,
    Focus,
    Hover,
    Drag,
    Scroll,
    SetText,
    SetValue,
}

impl DeepView for NodeAction {
    type V = NodeAction;

    open spec fn deep_view(&self) -> NodeAction {
        *self
    }
}

impl Modelled for NodeAction {
    fn same(&self, other: &Self) -> (same: bool) {
        *self == *other
    }

    fn duplicate(&self) -> (copy: Self) {
        *self
    }
}

/// A node's state flags.
#[derive(Clone, Copy, Debug, PartialEq, Eq, Structural)]
pub struct NodeState {
    pub visible: bool,
    pub enabled: bool,
    pub focused: bool,
    pub checked: Option<bool>,
    pub selected: Option<bool>,
    pub expanded: Option<bool>,
}

/// A range of bytes in a text.
#[derive(Clone, Copy, Debug, PartialEq, Eq, Structural)]
pub struct TextRange {
    pub start: usize,
    pub end: usize,
}

/// A node's text content.
#[derive(Debug, PartialEq)]
pub struct TextInfo {
    pub text: String,
    pub caret: Option<usize>,
    pub selection: Option<TextRange>,
    pub redacted: bool,
}

pub struct TextModel {
    pub text: Seq<char>,
    pub caret: Option<usize>,
    pub selection: Option<TextRange>,
    pub redacted: bool,
}

impl DeepView for TextInfo {
    type V = TextModel;

    open spec fn deep_view(&self) -> TextModel {
        TextModel {
            text: self.text@,
            caret: self.caret,
            selection: self.selection,
            redacted: self.redacted,
        }
    }
}

fn same_caret(left: &Option<usize>, right: &Option<usize>) -> (same: bool)
    ensures
        same == (*left == *right),
{
    match (left, right) {
        (Some(a), Some(b)) => *a == *b,
        (None, None) => true,
        _ => false,
    }
}

fn same_selection(left: &Option<TextRange>, right: &Option<TextRange>) -> (same: bool)
    ensures
        same == (*left == *right),
{
    match (left, right) {
        (Some(a), Some(b)) => a.start == b.start && a.end == b.end,
        (None, None) => true,
        _ => false,
    }
}

impl Modelled for TextInfo {
    fn same(&self, other: &Self) -> (same: bool) {
        self.text == other.text && same_caret(&self.caret, &other.caret) && same_selection(
            &self.selection,
            &other.selection,
        ) && self.redacted == other.redacted
    }

    fn duplicate(&self) -> (copy: Self) {
        TextInfo {
            text: self.text.clone(),
            caret: self.caret,
            selection: self.selection,
            redacted: self.redacted,
        }
    }
}

impl Clone for TextInfo {
    fn clone(&self) -> (copy: Self)
        ensures
            copy.deep_view() == self.deep_view(),
    {
        self.duplicate()
    }
}

impl DeepView for Double {
    type V = int;

    open spec fn deep_view(&self) -> int {
        self.rank()
    }
}

impl Modelled for Double {
    fn same(&self, other: &Self) -> (same: bool) {
        self.to_rank() == other.to_rank()
    }

    fn duplicate(&self) -> (copy: Self) {
        *self
    }
}

/// A node's value and its numeric bounds.
#[derive(Debug, PartialEq)]
pub struct ValueInfo {
    pub value: String,
    pub min: Option<Double>,
    pub max: Option<Double>,
    pub step: Option<Double>,
}

pub struct ValueModel {
    pub value: Seq<char>,
    pub min: Option<int>,
    pub max: Option<int>,
    pub step: Option<int>,
}

impl DeepView for ValueInfo {
    type V = ValueModel;

    open spec fn deep_view(&self) -> ValueModel {
        ValueModel {
            value: self.value@,
            min: self.min.deep_view(),
            max: self.max.deep_view(),
            step: self.step.deep_view(),
        }
    }
}

impl Modelled for ValueInfo {
    fn same(&self, other: &Self) -> (same: bool) {
        self.value == other.value && self.min.same(&other.min) && self.max.same(&other.max)
            && self.step.same(&other.step)
    }

    fn duplicate(&self) -> (copy: Self) {
        ValueInfo {
            value: self.value.clone(),
            min: self.min.duplicate(),
            max: self.max.duplicate(),
            step: self.step.duplicate(),
        }
    }
}

impl Clone for ValueInfo {
    fn clone(&self) -> (copy: Self)
        ensures
            copy.deep_view() == self.deep_view(),
    {
        self.duplicate()
    }
}

/// One node of a semantic tree.
#[derive(Debug, PartialEq)]
pub struct UiNode {
    pub id: String,
    pub parent: Option<String>,
    pub children: Vec<String>,
    pub role: Role,
    pub label: Option<String>,
    pub description: Option<String>,
    pub bounds: Option<Rect>,
    pub state: NodeState,
    pub actions: Vec<NodeAction>,
    pub text: Option<TextInfo>,
    pub value: Option<ValueInfo>,
    pub metadata: StringMap<String>,
}

/// A node as a mathematical value.
pub struct NodeModel {
    pub id: Seq<char>,
    pub parent: Option<Seq<char>>,
    pub children: Seq<Seq<char>>,
    pub role: Role,
    pub label: Option<Seq<char>>,
    pub description: Option<Seq<char>>,
    pub bounds: Option<RectModel>,
    pub state: NodeState,
    pub actions: Seq<NodeAction>,
    pub text: Option<TextModel>,
    pub value: Option<ValueModel>,
    pub metadata: Map<Seq<char>, Seq<char>>,
}

impl DeepView for UiNode {
    type V = NodeModel;

    open spec fn deep_view(&self) -> NodeModel {
        NodeModel {
            id: self.id@,
            parent: self.parent.deep_view(),
            children: self.children.deep_view(),
            role: self.role,
            label: self.label.deep_view(),
            description: self.description.deep_view(),
            bounds: self.bounds.deep_view(),
            state: self.state,
            actions: self.actions.deep_view(),
            text: self.text.deep_view(),
            value: self.value.deep_view(),
            metadata: self.metadata.deep_view(),
        }
    }
}

fn same_state(left: &NodeState, right: &NodeState) -> (same: bool)
    ensures
        same == (*left == *right),
{
    left.visible == right.visible && left.enabled == right.enabled && left.focused == right.focused
        && same_flag(left.checked, right.checked) && same_flag(left.selected, right.selected)
        && same_flag(left.expanded, right.expanded)
}

fn same_flag(left: Option<bool>, right: Option<bool>) -> (same: bool)
    ensures
        same == (left == right),
{
    match (left, right) {
        (Some(a), Some(b)) => a == b,
        (None, None) => true,
        _ => false,
    }
}

impl Modelled for UiNode {
    fn same(&self, other: &Self) -> (same: bool) {
        self.id == other.id && self.parent.same(&other.parent) && self.children.same(
            &other.children,
        ) && self.role == other.role && self.label.same(&other.label) && self.description.same(
            &other.description,
        ) && self.bounds.same(&other.bounds) && same_state(&self.state, &other.state)
            && self.actions.same(&other.actions) && self.text.same(&other.text) && self.value.same(
            &other.value,
        ) && self.metadata.same(&other.metadata)
    }

    fn duplicate(&self) -> (copy: Self) {
        UiNode {
            id: self.id.clone(),
            parent: self.parent.duplicate(),
            children: self.children.duplicate(),
            role: self.role,
            label: self.label.duplicate(),
            description: self.description.duplicate(),
            bounds: self.bounds.duplicate(),
            state: self.state,
            actions: self.actions.duplicate(),
            text: self.text.duplicate(),
            value: self.value.duplicate(),
            metadata: self.metadata.duplicate(),
        }
    }
}

impl Clone for UiNode {
    fn clone(&self) -> (copy: Self)
        ensures
            copy.deep_view() == self.deep_view(),
    {
        self.duplicate()
    }
}

// ---------------------------------------------------------------------------
// Trees and diagnostics
// ---------------------------------------------------------------------------
/// Why a node was left out of a tree.
#[derive(Clone, Copy, Debug, PartialEq, Eq, Structural)]
pub enum SemanticDiagnosticCode {
    InvalidNode,
    DuplicateId,
    MissingParent,
    ParentCycle,
    CapacityExceeded,
}

/// A report about a frame's semantics.
#[derive(Debug, PartialEq)]
pub struct SemanticDiagnostic {
    pub code: SemanticDiagnosticCode,
    pub node_id: Option<String>,
    pub message: String,
}

pub struct DiagnosticModel {
    pub code: SemanticDiagnosticCode,
    pub node_id: Option<Seq<char>>,
    pub message: Seq<char>,
}

impl DeepView for SemanticDiagnostic {
    type V = DiagnosticModel;

    open spec fn deep_view(&self) -> DiagnosticModel {
        DiagnosticModel {
            code: self.code,
            node_id: self.node_id.deep_view(),
            message: self.message@,
        }
    }
}

impl Modelled for SemanticDiagnostic {
    fn same(&self, other: &Self) -> (same: bool) {
        self.code == other.code && self.node_id.same(&other.node_id) && self.message
            == other.message
    }

    fn duplicate(&self) -> (copy: Self) {
        SemanticDiagnostic {
            code: self.code,
            node_id: self.node_id.duplicate(),
            message: self.message.clone(),
        }
    }
}

impl Clone for SemanticDiagnostic {
    fn clone(&self) -> (copy: Self)
        ensures
            copy.deep_view() == self.deep_view(),
    {
        self.duplicate()
    }
}

/// A published semantic frame.
#[derive(Debug, PartialEq)]
pub struct UiTree {
    pub generation: u64,
    pub roots: Vec<String>,
    pub nodes: StringMap<UiNode>,
    pub diagnostics: Vec<SemanticDiagnostic>,
}

pub struct TreeModel {
    pub generation: u64,
    pub roots: Seq<Seq<char>>,
    pub nodes: Map<Seq<char>, NodeModel>,
    pub diagnostics: Seq<DiagnosticModel>,
}

impl DeepView for UiTree {
    type V = TreeModel;

    open spec fn deep_view(&self) -> TreeModel {
        TreeModel {
            generation: self.generation,
            roots: self.roots.deep_view(),
            nodes: self.nodes.deep_view(),
            diagnostics: self.diagnostics.deep_view(),
        }
    }
}

impl UiTree {
    /// A tree that no frame has been published to.
    pub fn new() -> (tree: Self)
        ensures
            tree.deep_view() == empty_tree(),
    {
        let tree = UiTree {
            generation: 0,
            roots: Vec::new(),
            nodes: StringMap::new(),
            diagnostics: Vec::new(),
        };
        assert(tree.roots.deep_view() =~= Seq::empty());
        assert(tree.diagnostics.deep_view() =~= Seq::empty());
        tree
    }
}

pub open spec fn empty_tree() -> TreeModel {
    TreeModel {
        generation: 0,
        roots: Seq::empty(),
        nodes: Map::empty(),
        diagnostics: Seq::empty(),
    }
}

impl Modelled for UiTree {
    fn same(&self, other: &Self) -> (same: bool) {
        self.generation == other.generation && self.roots.same(&other.roots) && self.nodes.same(
            &other.nodes,
        ) && self.diagnostics.same(&other.diagnostics)
    }

    fn duplicate(&self) -> (copy: Self) {
        UiTree {
            generation: self.generation,
            roots: self.roots.duplicate(),
            nodes: self.nodes.duplicate(),
            diagnostics: self.diagnostics.duplicate(),
        }
    }
}

impl Clone for UiTree {
    fn clone(&self) -> (copy: Self)
        ensures
            copy.deep_view() == self.deep_view(),
    {
        self.duplicate()
    }
}

/// A rectangle that the bridge paints over the window.
#[derive(Clone, Debug, PartialEq)]
pub struct Highlight {
    pub rect: Rect,
    pub color: String,
    pub label: Option<String>,
}

// ---------------------------------------------------------------------------
// Commands and errors
// ---------------------------------------------------------------------------
#[derive(Clone, Copy, Debug, PartialEq, Eq, Structural)]
pub enum ErrorCode {
    InvalidRequest,
    Unsupported,
    Timeout,
    Internal,
}

/// A refused request.
#[derive(Clone, Debug, PartialEq)]
pub struct BridgeError {
    pub code: ErrorCode,
    pub message: String,
}

impl BridgeError {
    pub fn new(code: ErrorCode, message: &str) -> (error: Self)
        ensures
            error.code == code,
            error.message@ == message@,
    {
        BridgeError { code, message: message.to_owned() }
    }
}

#[derive(Clone, Copy, Debug, PartialEq, Eq, Structural)]
pub enum MouseButton {
    Left,
    Right,
    Middle,
}

/// Keyboard input for the focused element.
#[derive(Clone, Debug, PartialEq)]
pub enum InputCommand {
    Key { keystroke: String },
    KeySequence { keystrokes: Vec<String> },
    TypeText { text: String },
    ReplaceText { text: String },
}

#[derive(Clone, Copy, Debug, PartialEq)]
pub enum PointerScrollDelta {
    Pixels { delta_x: Single, delta_y: Single },
    Lines { delta_x: Single, delta_y: Single },
}

/// One synthetic pointer event.
#[derive(Clone, Copy, Debug, PartialEq)]
pub enum PointerCommand {
    MouseMove { point: Point, pressed_button: Option<MouseButton> },
    MouseDown { point: Point, button: MouseButton, click_count: u8 },
    MouseUp { point: Point, button: MouseButton, click_count: u8 },
    ScrollWheel { point: Point, delta: PointerScrollDelta },
}

// ---------------------------------------------------------------------------
// Laws
// ---------------------------------------------------------------------------
/// A point is valid when neither coordinate is infinite or NaN; a rectangle
/// when none of its numbers is and its size is not negative; a window's
/// geometry when its bounds are and its scale is finite and positive.
pub proof fn law_valid_geometry(point: Point, rect: Rect, scale_factor: Single)
    ensures
        point.valid() <==> -0x7f80_0000 < point.x.rank() < 0x7f80_0000 && -0x7f80_0000
            < point.y.rank() < 0x7f80_0000,
        rect.valid() <==> -0x7f80_0000 < rect.x.rank() < 0x7f80_0000 && -0x7f80_0000
            < rect.y.rank() < 0x7f80_0000 && 0 <= rect.width.rank() < 0x7f80_0000 && 0
            <= rect.height.rank() < 0x7f80_0000,
        (WindowGeometry { content_bounds: rect, scale_factor }).valid() <==> rect.valid() && 0
            < scale_factor.rank() < 0x7f80_0000,
{
}

/// Nodes of one model agree in all that they say: identifiers, relations, role,
/// texts, place, state, actions, and metadata.
pub proof fn law_models_tell_nodes_apart(left: UiNode, right: UiNode)
    requires
        left.deep_view() == right.deep_view(),
    ensures
        left.id@ == right.id@,
        left.parent is Some <==> right.parent is Some,
        left.parent is Some ==> left.parent->0@ == right.parent->0@,
        left.children@.len() == right.children@.len(),
        forall|i: int|
            0 <= i < left.children@.len() ==> (#[trigger] left.children@[i])@
                == right.children@[i]@,
        left.role == right.role,
        left.label is Some <==> right.label is Some,
        left.label is Some ==> left.label->0@ == right.label->0@,
        left.description is Some <==> right.description is Some,
        left.description is Some ==> left.description->0@ == right.description->0@,
        left.bounds is Some <==> right.bounds is Some,
        left.bounds is Some ==> {
            let a = left.bounds->0;
            let b = right.bounds->0;
            &&& a.x.rank() == b.x.rank()
            &&& a.y.rank() == b.y.rank()
            &&& a.width.rank() == b.width.rank()
            &&& a.height.rank() == b.height.rank()
        },
        left.state == right.state,
        left.actions@ == right.actions@,
        left.text is Some <==> right.text is Some,
        left.text is Some ==> {
            let a = left.text->0;
            let b = right.text->0;
            &&& a.text@ == b.text@
            &&& a.caret == b.caret
            &&& a.selection == b.selection
            &&& a.redacted == b.redacted
        },
        left.value is Some <==> right.value is Some,
        left.value is Some ==> {
            let a = left.value->0;
            let b = right.value->0;
            &&& a.value@ == b.value@
            &&& a.min is Some <==> b.min is Some
            &&& a.min is Some ==> a.min->0.rank() == b.min->0.rank()
            &&& a.max is Some <==> b.max is Some
            &&& a.max is Some ==> a.max->0.rank() == b.max->0.rank()
            &&& a.step is Some <==> b.step is Some
            &&& a.step is Some ==> a.step->0.rank() == b.step->0.rank()
        },
        left.metadata.deep_view() == right.metadata.deep_view(),
{
    assert(left.children.deep_view() == right.children.deep_view());
    assert(left.children.deep_view().len() == left.children@.len());
    assert(right.children.deep_view().len() == right.children@.len());
    assert forall|i: int| 0 <= i < left.children@.len() implies (#[trigger] left.children@[i])@
        == right.children@[i]@ by {
        assert(left.children.deep_view()[i] == left.children@[i]@);
        assert(right.children.deep_view()[i] == right.children@[i]@);
    }
    assert(left.actions@ =~= right.actions@) by {
        assert(left.actions.deep_view() == right.actions.deep_view());
        assert(left.actions.deep_view().len() == left.actions@.len());
        assert(right.actions.deep_view().len() == right.actions@.len());
        assert forall|i: int| 0 <= i < left.actions@.len() implies left.actions@[i]
            == right.actions@[i] by {
            assert(left.actions.deep_view()[i] == left.actions@[i]);
            assert(right.actions.deep_view()[i] == right.actions@[i]);
        }
    }
}

/// Trees of one model agree in generation, roots, nodes, and diagnostics.
pub proof fn law_models_tell_trees_apart(left: UiTree, right: UiTree)
    requires
        left.deep_view() == right.deep_view(),
    ensures
        left.generation == right.generation,
        left.roots@.len() == right.roots@.len(),
        forall|i: int|
            0 <= i < left.roots@.len() ==> (#[trigger] left.roots@[i])@ == right.roots@[i]@,
        left.nodes.deep_view() == right.nodes.deep_view(),
        left.diagnostics@.len() == right.diagnostics@.len(),
        forall|i: int|
            0 <= i < left.diagnostics@.len() ==> {
                let a = #[trigger] left.diagnostics@[i];
                let b = right.diagnostics@[i];
                &&& a.code == b.code
                &&& a.node_id is Some <==> b.node_id is Some
                &&& a.node_id is Some ==> a.node_id->0@ == b.node_id->0@
                &&& a.message@ == b.message@
            },
{
    assert(left.roots.deep_view() == right.roots.deep_view());
    assert forall|i: int| 0 <= i < left.roots@.len() implies (#[trigger] left.roots@[i])@
        == right.roots@[i]@ by {
        assert(left.roots.deep_view()[i] == left.roots@[i]@);
        assert(right.roots.deep_view()[i] == right.roots@[i]@);
    }
    assert(left.diagnostics.deep_view() == right.diagnostics.deep_view());
    assert forall|i: int| 0 <= i < left.diagnostics@.len() implies {
        let a = #[trigger] left.diagnostics@[i];
        let b = right.diagnostics@[i];
        &&& a.code == b.code
        &&& a.node_id is Some <==> b.node_id is Some
        &&& a.node_id is Some ==> a.node_id->0@ == b.node_id->0@
        &&& a.message@ == b.message@
    } by {
        assert(left.diagnostics.deep_view()[i] == left.diagnostics@[i].deep_view());
        assert(right.diagnostics.deep_view()[i] == right.diagnostics@[i].deep_view());
    }
}

} // verus!
