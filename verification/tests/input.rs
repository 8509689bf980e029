//! What synthetic input is refused, and what it becomes.

use gpui_mcp::input::{
    dispatch_keyboard, dispatch_parsed_keyboard, dispatch_pointer, keyboard_outcome, validate,
    validate_click_count, validate_keystroke, validate_parsed, validate_pointer, KeyboardAction,
    Modifiers, PointerEvent, TouchPhase,
};
use gpui_mcp::number::Single;
use gpui_mcp::protocol::{
    BridgeError, ErrorCode, InputCommand, MouseButton, Point, PointerCommand, PointerScrollDelta,
    MAX_KEY_SEQUENCE,
};

fn single(value: f32) -> Single {
    Single::from_bits(value.to_bits())
}

fn at(x: f32, y: f32) -> Point {
    Point {
        x: single(x),
        y: single(y),
    }
}

fn refusal<T: std::fmt::Debug>(result: Result<T, BridgeError>) -> String {
    let error = result.unwrap_err();
    assert_eq!(error.code, ErrorCode::InvalidRequest);
    error.message
}

#[test]
fn key_sequences_are_bounded_and_fully_validated() {
    assert!(validate(&InputCommand::KeySequence {
        keystrokes: vec!["home".to_owned(), "right".to_owned()],
    })
    .is_ok());
    assert!(validate(&InputCommand::KeySequence {
        keystrokes: Vec::new(),
    })
    .is_err());
    assert!(validate(&InputCommand::KeySequence {
        keystrokes: vec!["right".to_owned(); MAX_KEY_SEQUENCE + 1],
    })
    .is_err());
}

#[test]
fn keystrokes_are_parsed() {
    let key = |keystroke: &str| InputCommand::Key {
        keystroke: keystroke.to_owned(),
    };
    assert_eq!(validate(&key("ctrl-shift-a")), Ok(()));
    assert_eq!(validate(&key("shift")), Ok(()));
    assert_eq!(refusal(validate(&key("a-b"))), "invalid GPUI keystroke syntax");
    assert_eq!(
        refusal(validate(&InputCommand::KeySequence {
            keystrokes: vec!["enter".to_owned(), "a-b".to_owned()],
        })),
        "invalid GPUI keystroke syntax"
    );
    assert_eq!(
        refusal(validate(&key(&"x".repeat(65_537)))),
        "text exceeds the 64 KiB safety bound"
    );
    assert_eq!(
        refusal(validate_keystroke("home", false)),
        "invalid GPUI keystroke syntax"
    );
    assert_eq!(validate_keystroke("home", true), Ok(()));
}

#[test]
fn the_first_fault_of_a_sequence_is_reported() {
    let sequence = InputCommand::KeySequence {
        keystrokes: vec!["a".to_owned(), "b".to_owned(), "x".repeat(65_537)],
    };
    assert_eq!(
        refusal(validate_parsed(&sequence, &vec![true, false, true])),
        "invalid GPUI keystroke syntax"
    );
    assert_eq!(
        refusal(validate_parsed(&sequence, &vec![true, true, false])),
        "text exceeds the 64 KiB safety bound"
    );
    assert_eq!(
        refusal(validate(&InputCommand::KeySequence {
            keystrokes: Vec::new(),
        })),
        "key sequence must contain 1 through 1024 events"
    );
    assert_eq!(
        refusal(dispatch_parsed_keyboard(sequence, &vec![false, true, true])),
        "invalid GPUI keystroke syntax"
    );
}

#[test]
fn text_is_bounded() {
    assert_eq!(
        validate(&InputCommand::TypeText {
            text: "x".repeat(65_536),
        }),
        Ok(())
    );
    assert_eq!(
        refusal(validate(&InputCommand::ReplaceText {
            text: "é".repeat(32_769),
        })),
        "text exceeds the 64 KiB safety bound"
    );
}

#[test]
fn keyboard_commands_become_actions() {
    assert_eq!(
        dispatch_keyboard(InputCommand::Key {
            keystroke: "enter".to_owned(),
        }),
        Ok(KeyboardAction::Keystrokes(vec!["enter".to_owned()]))
    );
    assert_eq!(
        dispatch_keyboard(InputCommand::KeySequence {
            keystrokes: vec!["home".to_owned(), "right".to_owned()],
        }),
        Ok(KeyboardAction::Keystrokes(vec![
            "home".to_owned(),
            "right".to_owned()
        ]))
    );
    assert_eq!(
        dispatch_keyboard(InputCommand::TypeText {
            text: "a-b".to_owned(),
        }),
        Ok(KeyboardAction::InsertText("a-b".to_owned()))
    );
    assert_eq!(
        dispatch_keyboard(InputCommand::ReplaceText {
            text: "all".to_owned(),
        }),
        Ok(KeyboardAction::ReplaceText("all".to_owned()))
    );
    assert!(dispatch_keyboard(InputCommand::KeySequence {
        keystrokes: vec!["home".to_owned(), "a-b".to_owned()],
    })
    .is_err());
}

#[test]
fn unhandled_text_is_unsupported() {
    let insert = KeyboardAction::InsertText("x".to_owned());
    let replace = KeyboardAction::ReplaceText("x".to_owned());
    let keys = KeyboardAction::Keystrokes(vec!["x".to_owned()]);
    assert_eq!(keyboard_outcome(&insert, true), Ok(()));
    assert_eq!(keyboard_outcome(&replace, true), Ok(()));
    assert_eq!(keyboard_outcome(&keys, false), Ok(()));
    let error = keyboard_outcome(&insert, false).unwrap_err();
    assert_eq!(error.code, ErrorCode::Unsupported);
    assert_eq!(
        error.message,
        "focused element has no active text input handler"
    );
    let error = keyboard_outcome(&replace, false).unwrap_err();
    assert_eq!(error.code, ErrorCode::Unsupported);
    assert_eq!(
        error.message,
        "focused input cannot expose its complete document range"
    );
}

#[test]
fn click_counts_are_one_to_three() {
    for count in 0..=u8::MAX {
        assert_eq!(validate_click_count(count).is_ok(), (1..=3).contains(&count));
    }
    assert_eq!(
        refusal(validate_click_count(0)),
        "click count must be between 1 and 3"
    );
}

#[test]
fn coordinates_are_bounded() {
    let moved = |x: f32, y: f32| PointerCommand::MouseMove {
        point: at(x, y),
        pressed_button: None,
    };
    assert_eq!(validate_pointer(&moved(1_000_000.0, -1_000_000.0)), Ok(()));
    assert_eq!(
        refusal(validate_pointer(&moved(1_000_000.1, 0.0))),
        "coordinates exceed the safety bound"
    );
    assert_eq!(
        refusal(validate_pointer(&moved(0.0, -1_000_001.0))),
        "coordinates exceed the safety bound"
    );
    for bad in [f32::NAN, f32::INFINITY, f32::NEG_INFINITY] {
        assert_eq!(
            refusal(validate_pointer(&moved(bad, 0.0))),
            "coordinates must be finite"
        );
    }
}

#[test]
fn scroll_deltas_are_bounded() {
    let scroll = |delta_x: f32, delta_y: f32| PointerCommand::ScrollWheel {
        point: at(1.0, 1.0),
        delta: PointerScrollDelta::Lines {
            delta_x: single(delta_x),
            delta_y: single(delta_y),
        },
    };
    assert_eq!(validate_pointer(&scroll(-100_000.0, 100_000.0)), Ok(()));
    assert_eq!(
        refusal(validate_pointer(&scroll(0.0, 100_000.01))),
        "scroll delta exceeds the safety bound"
    );
    assert_eq!(
        refusal(validate_pointer(&scroll(f32::NAN, 0.0))),
        "scroll deltas must be finite"
    );
    let pixels = PointerCommand::ScrollWheel {
        point: at(f32::NAN, 0.0),
        delta: PointerScrollDelta::Pixels {
            delta_x: single(f32::NAN),
            delta_y: single(0.0),
        },
    };
    assert_eq!(refusal(validate_pointer(&pixels)), "coordinates must be finite");
}

#[test]
fn pointer_commands_become_events() {
    let point = at(50.0, 60.0);
    let modifiers = Modifiers {
        control: false,
        alt: false,
        shift: false,
        platform: false,
        function: false,
    };
    assert_eq!(
        dispatch_pointer(&PointerCommand::MouseMove {
            point,
            pressed_button: Some(MouseButton::Left),
        }),
        Ok(PointerEvent::MouseMove {
            position: point,
            pressed_button: Some(MouseButton::Left),
            modifiers,
        })
    );
    assert_eq!(
        dispatch_pointer(&PointerCommand::MouseDown {
            point,
            button: MouseButton::Middle,
            click_count: 2,
        }),
        Ok(PointerEvent::MouseDown {
            button: MouseButton::Middle,
            position: point,
            modifiers,
            click_count: 2,
            first_mouse: false,
        })
    );
    assert_eq!(
        dispatch_pointer(&PointerCommand::MouseUp {
            point,
            button: MouseButton::Right,
            click_count: 3,
        }),
        Ok(PointerEvent::MouseUp {
            button: MouseButton::Right,
            position: point,
            modifiers,
            click_count: 3,
        })
    );
    let delta = PointerScrollDelta::Pixels {
        delta_x: single(0.0),
        delta_y: single(120.0),
    };
    assert_eq!(
        dispatch_pointer(&PointerCommand::ScrollWheel { point, delta }),
        Ok(PointerEvent::ScrollWheel {
            position: point,
            delta,
            modifiers,
            touch_phase: TouchPhase::Moved,
        })
    );
    assert_eq!(
        refusal(dispatch_pointer(&PointerCommand::MouseUp {
            point,
            button: MouseButton::Left,
            click_count: 4,
        })),
        "click count must be between 1 and 3"
    );
}
