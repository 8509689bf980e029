//! Semantic automation for GPUI applications.
//!
//! A window's accessibility tree is observed frame by frame ([`observer`]),
//! its elements are named ([`identity`]) and recorded ([`frame`]), and what has
//! a complete ancestry ([`ancestry`]) is published ([`registry`]). Synthetic
//! input is checked before anything of it reaches the window ([`input`]).
//!
//! What holds of the operations beyond their own contracts is stated as laws:
//! at the end of a module, or in the module of that name beside it.

pub mod access;
pub mod ancestry;
pub mod automation;
pub mod content;
pub mod frame;
pub mod frame_laws;
pub mod identity;
pub mod identity_laws;
pub mod input;
pub mod logs;
pub mod model;
pub mod node_laws;
pub mod number;
pub mod observer;
pub mod observer_laws;
pub mod omission_laws;
pub mod protocol;
pub mod registry;
pub mod shape_laws;
pub mod string_map;
pub mod text;
pub mod timing;
pub mod tree;
pub mod tree_laws;
pub mod validation;

pub use automation::Automation;
pub use logs::LogEntry;
pub use protocol::{
    BridgeError, ErrorCode, MouseButton, NodeAction, NodeState, Point, Rect, Role, TextInfo,
    TextRange, UiNode, UiTree, ValueInfo, MAX_LABEL_BYTES, MAX_TEXT_BYTES,
};
