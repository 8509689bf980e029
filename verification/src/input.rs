//! Synthetic input: what is refused, and what reaches the window's event
//! pipeline.

use vstd::prelude::*;
#[allow(unused_imports)]
use vstd::utf8::encode_utf8;

use crate::number::Single;
use crate::protocol::{
    BridgeError, ErrorCode, InputCommand, MouseButton, Point, PointerCommand, PointerScrollDelta,
    MAX_KEY_SEQUENCE, MAX_TEXT_BYTES,
};
use crate::text::byte_len;
#[allow(unused_imports)]
use crate::text::spec_byte_len;
use crate::validation::MILLION_BITS;

verus! {

/// The pattern of the single-precision number one hundred thousand.
pub const HUNDRED_THOUSAND_BITS: u32 = 0x47c3_5000;

/// The result of a check that refuses a request with `fault`'s message.
pub open spec fn refused<T>(result: Result<T, BridgeError>, fault: Option<Seq<char>>) -> bool {
    match result {
        Ok(_) => fault is None,
        Err(error) => error.code == ErrorCode::InvalidRequest && fault == Some(error.message@),
    }
}

fn invalid(message: &'static str) -> (error: BridgeError)
    ensures
        error.code == ErrorCode::InvalidRequest,
        error.message@ == message@,
{
    BridgeError::new(ErrorCode::InvalidRequest, message)
}

fn unsupported(message: &'static str) -> (error: BridgeError)
    ensures
        error.code == ErrorCode::Unsupported,
        error.message@ == message@,
{
    BridgeError::new(ErrorCode::Unsupported, message)
}

// ---------------------------------------------------------------------------
// Keyboard
// ---------------------------------------------------------------------------
/// Whether GPUI's keystroke syntax admits `source`.
pub uninterp spec fn keystroke_syntax(source: Seq<char>) -> bool;

/// `gpui::Keystroke::parse` succeeds on exactly the texts of GPUI's keystroke
/// syntax; the keystroke that it makes is dropped.
#[verifier::external_body]
fn parses_as_keystroke(source: &str) -> (parses: bool)
    ensures
        parses == keystroke_syntax(source@),
{
    gpui::Keystroke::parse(source).is_ok()
}

pub open spec fn text_fault(text: Seq<char>) -> Option<Seq<char>> {
    if spec_byte_len(text) > MAX_TEXT_BYTES {
        Some("text exceeds the 64 KiB safety bound"@)
    } else {
        None
    }
}

/// What is wrong with a keystroke that parses or does not.
pub open spec fn keystroke_fault(keystroke: Seq<char>, parses: bool) -> Option<Seq<char>> {
    if text_fault(keystroke) is Some {
        text_fault(keystroke)
    } else if !parses {
        Some("invalid GPUI keystroke syntax"@)
    } else {
        None
    }
}

/// What is wrong with the first of these keystrokes that is wrong.
pub open spec fn keystrokes_fault(
    keystrokes: Seq<Seq<char>>,
    parses: Seq<bool>,
) -> Option<Seq<char>>
    decreases keystrokes.len(),
{
    if keystrokes.len() == 0 {
        None
    } else if keystroke_fault(keystrokes[0], parses[0]) is Some {
        keystroke_fault(keystrokes[0], parses[0])
    } else {
        keystrokes_fault(keystrokes.drop_first(), parses.drop_first())
    }
}

pub open spec fn sequence_fault(keystrokes: Seq<Seq<char>>, parses: Seq<bool>) -> Option<
    Seq<char>,
> {
    if keystrokes.len() == 0 || keystrokes.len() > MAX_KEY_SEQUENCE {
        Some("key sequence must contain 1 through 1024 events"@)
    } else {
        keystrokes_fault(keystrokes, parses)
    }
}

/// The keystrokes that a command spells.
pub open spec fn keystrokes_of(command: InputCommand) -> Seq<Seq<char>> {
    match command {
        InputCommand::Key { keystroke } => seq![keystroke@],
        InputCommand::KeySequence { keystrokes } => keystrokes.deep_view(),
        _ => Seq::empty(),
    }
}

/// What is wrong with a command whose keystrokes parse or do not.
pub open spec fn command_fault(command: InputCommand, parses: Seq<bool>) -> Option<Seq<char>> {
    match command {
        InputCommand::Key { keystroke } => keystroke_fault(keystroke@, parses[0]),
        InputCommand::KeySequence { keystrokes } => sequence_fault(keystrokes.deep_view(), parses),
        InputCommand::TypeText { text } => text_fault(text@),
        InputCommand::ReplaceText { text } => text_fault(text@),
    }
}

/// Whether each of the texts is in GPUI's keystroke syntax.
pub open spec fn syntax_of(keystrokes: Seq<Seq<char>>) -> Seq<bool> {
    Seq::new(keystrokes.len(), |i: int| keystroke_syntax(keystrokes[i]))
}

fn validate_text(text: &str) -> (result: Result<(), BridgeError>)
    ensures
        refused(result, text_fault(text@)),
{
    if byte_len(text) > MAX_TEXT_BYTES {
        return Err(invalid("text exceeds the 64 KiB safety bound"));
    }
    Ok(())
}

/// Check a keystroke that parses or does not.
pub fn validate_keystroke(keystroke: &str, parses: bool) -> (result: Result<(), BridgeError>)
    ensures
        refused(result, keystroke_fault(keystroke@, parses)),
{
    validate_text(keystroke)?;
    if !parses {
        return Err(invalid("invalid GPUI keystroke syntax"));
    }
    Ok(())
}

proof fn lemma_keystrokes_step(keystrokes: Seq<Seq<char>>, parses: Seq<bool>, i: int)
    requires
        0 <= i < keystrokes.len(),
        parses.len() == keystrokes.len(),
    ensures
        keystrokes_fault(keystrokes.skip(i), parses.skip(i)) == (if keystroke_fault(
            keystrokes[i],
            parses[i],
        ) is Some {
            keystroke_fault(keystrokes[i], parses[i])
        } else {
            keystrokes_fault(keystrokes.skip(i + 1), parses.skip(i + 1))
        }),
{
    assert(keystrokes.skip(i).drop_first() =~= keystrokes.skip(i + 1));
    assert(parses.skip(i).drop_first() =~= parses.skip(i + 1));
}

/// Check a command, given whether each of its keystrokes parses.
pub fn validate_parsed(command: &InputCommand, parses: &Vec<bool>) -> (result: Result<
    (),
    BridgeError,
>)
    requires
        parses@.len() == keystrokes_of(*command).len(),
    ensures
        refused(result, command_fault(*command, parses@)),
{
    match command {
        InputCommand::Key { keystroke } => validate_keystroke(keystroke.as_str(), parses[0]),
        InputCommand::KeySequence { keystrokes } => {
            if keystrokes.len() == 0 || keystrokes.len() > MAX_KEY_SEQUENCE {
                return Err(invalid("key sequence must contain 1 through 1024 events"));
            }
            let ghost texts = keystrokes.deep_view();
            let mut i: usize = 0;
            proof {
                assert(texts.skip(0) =~= texts);
                assert(parses@.skip(0) =~= parses@);
            }
            while i < keystrokes.len()
                invariant
                    i <= keystrokes@.len(),
                    texts == keystrokes.deep_view(),
                    parses@.len() == keystrokes@.len(),
                    keystrokes_fault(texts, parses@) == keystrokes_fault(
                        texts.skip(i as int),
                        parses@.skip(i as int),
                    ),
                    command_fault(*command, parses@) == keystrokes_fault(texts, parses@),
                decreases keystrokes@.len() - i,
            {
                proof {
                    lemma_keystrokes_step(texts, parses@, i as int);
                }
                validate_keystroke(keystrokes[i].as_str(), parses[i])?;
                i += 1;
            }
            Ok(())
        },
        InputCommand::TypeText { text } => validate_text(text.as_str()),
        InputCommand::ReplaceText { text } => validate_text(text.as_str()),
    }
}

/// A keystroke that is too long is refused whether it parses or not.
proof fn lemma_long_keystrokes(
    keystrokes: Seq<Seq<char>>,
    first: Seq<bool>,
    second: Seq<bool>,
)
    requires
        first.len() == keystrokes.len(),
        second.len() == keystrokes.len(),
        forall|i: int|
            0 <= i < keystrokes.len() && text_fault(#[trigger] keystrokes[i]) is None ==> first[i]
                == second[i],
    ensures
        keystrokes_fault(keystrokes, first) == keystrokes_fault(keystrokes, second),
    decreases keystrokes.len(),
{
    if keystrokes.len() > 0 {
        assert forall|i: int|
            0 <= i < keystrokes.drop_first().len() && text_fault(
                #[trigger] keystrokes.drop_first()[i],
            ) is None implies first.drop_first()[i] == second.drop_first()[i] by {
            assert(keystrokes.drop_first()[i] == keystrokes[i + 1]);
        }
        lemma_long_keystrokes(keystrokes.drop_first(), first.drop_first(), second.drop_first());
    }
}

/// Whether a keystroke of admissible length parses.
fn short_keystroke_parses(keystroke: &str) -> (parses: bool)
    ensures
        text_fault(keystroke@) is None ==> parses == keystroke_syntax(keystroke@),
{
    byte_len(keystroke) <= MAX_TEXT_BYTES && parses_as_keystroke(keystroke)
}

/// Check a command before anything of it is dispatched.
pub fn validate(command: &InputCommand) -> (result: Result<(), BridgeError>)
    ensures
        refused(result, command_fault(*command, syntax_of(keystrokes_of(*command)))),
{
    let mut parses: Vec<bool> = Vec::new();
    match command {
        InputCommand::Key { keystroke } => {
            parses.push(short_keystroke_parses(keystroke.as_str()));
        },
        InputCommand::KeySequence { keystrokes } => {
            if keystrokes.len() > MAX_KEY_SEQUENCE {
                return Err(invalid("key sequence must contain 1 through 1024 events"));
            }
            let ghost texts = keystrokes.deep_view();
            let mut i: usize = 0;
            while i < keystrokes.len()
                invariant
                    i <= keystrokes@.len(),
                    texts == keystrokes.deep_view(),
                    parses@.len() == i,
                    forall|j: int|
                        0 <= j < i && text_fault(#[trigger] texts[j]) is None ==> parses@[j]
                            == keystroke_syntax(texts[j]),
                decreases keystrokes@.len() - i,
            {
                parses.push(short_keystroke_parses(keystrokes[i].as_str()));
                i += 1;
            }
            proof {
                lemma_long_keystrokes(texts, parses@, syntax_of(texts));
            }
        },
        _ => {},
    }
    validate_parsed(command, &parses)
}

/// What a keyboard command asks of the window.
#[derive(Clone, Debug, PartialEq)]
pub enum KeyboardAction {
    /// Dispatch these keystrokes in order.
    Keystrokes(Vec<String>),
    /// Insert this text into the focused input.
    InsertText(String),
    /// Replace the focused input's text by this one.
    ReplaceText(String),
}

/// The action is what the command asks for.
pub open spec fn asks_for(command: InputCommand, action: KeyboardAction) -> bool {
    match command {
        InputCommand::Key { keystroke } => action matches KeyboardAction::Keystrokes(keystrokes)
            && keystrokes.deep_view() == seq![keystroke@],
        InputCommand::KeySequence { keystrokes } => action == KeyboardAction::Keystrokes(
            keystrokes,
        ),
        InputCommand::TypeText { text } => action == KeyboardAction::InsertText(text),
        InputCommand::ReplaceText { text } => action == KeyboardAction::ReplaceText(text),
    }
}

fn keyboard_action(command: InputCommand) -> (action: KeyboardAction)
    ensures
        asks_for(command, action),
{
    match command {
        InputCommand::Key { keystroke } => {
            let mut keystrokes: Vec<String> = Vec::new();
            keystrokes.push(keystroke);
            assert(keystrokes.deep_view() =~= seq![keystroke@]);
            KeyboardAction::Keystrokes(keystrokes)
        },
        InputCommand::KeySequence { keystrokes } => KeyboardAction::Keystrokes(keystrokes),
        InputCommand::TypeText { text } => KeyboardAction::InsertText(text),
        InputCommand::ReplaceText { text } => KeyboardAction::ReplaceText(text),
    }
}

/// What to dispatch for a keyboard command, given whether its keystrokes parse.
pub fn dispatch_parsed_keyboard(command: InputCommand, parses: &Vec<bool>) -> (action: Result<
    KeyboardAction,
    BridgeError,
>)
    requires
        parses@.len() == keystrokes_of(command).len(),
    ensures
        refused(action, command_fault(command, parses@)),
        action matches Ok(action) ==> asks_for(command, action),
{
    validate_parsed(&command, parses)?;
    Ok(keyboard_action(command))
}

/// What to dispatch for a keyboard command: all of it, or nothing where any
/// part is refused.
pub fn dispatch_keyboard(command: InputCommand) -> (action: Result<KeyboardAction, BridgeError>)
    ensures
        refused(action, command_fault(command, syntax_of(keystrokes_of(command)))),
        action matches Ok(action) ==> asks_for(command, action),
{
    validate(&command)?;
    Ok(keyboard_action(command))
}

/// The outcome of an action that the window handled or did not.
pub fn keyboard_outcome(action: &KeyboardAction, handled: bool) -> (result: Result<
    (),
    BridgeError,
>)
    ensures
        match result {
            Ok(()) => handled || action is Keystrokes,
            Err(error) => !handled && error.code == ErrorCode::Unsupported && match action {
                KeyboardAction::Keystrokes(_) => false,
                KeyboardAction::InsertText(_) => error.message@
                    == "focused element has no active text input handler"@,
                KeyboardAction::ReplaceText(_) => error.message@
                    == "focused input cannot expose its complete document range"@,
            },
        },
{
    if handled {
        return Ok(());
    }
    match action {
        KeyboardAction::Keystrokes(_) => Ok(()),
        KeyboardAction::InsertText(_) => Err(
            unsupported("focused element has no active text input handler"),
        ),
        KeyboardAction::ReplaceText(_) => Err(
            unsupported("focused input cannot expose its complete document range"),
        ),
    }
}

// ---------------------------------------------------------------------------
// Pointer
// ---------------------------------------------------------------------------
pub open spec fn click_count_fault(click_count: u8) -> Option<Seq<char>> {
    if 1 <= click_count <= 3 {
        None
    } else {
        Some("click count must be between 1 and 3"@)
    }
}

/// Check a number of clicks.
pub fn validate_click_count(click_count: u8) -> (result: Result<(), BridgeError>)
    ensures
        refused(result, click_count_fault(click_count)),
{
    if click_count < 1 || click_count > 3 {
        return Err(invalid("click count must be between 1 and 3"));
    }
    Ok(())
}

/// The number is at most `limit` in size, given the limit's pattern.
pub open spec fn within(number: Single, limit: u32) -> bool {
    -limit <= number.rank() <= limit
}

fn is_within(number: Single, limit: u32) -> (answer: bool)
    ensures
        answer == within(number, limit),
{
    number.magnitude() <= limit
}

pub open spec fn scroll_delta_fault(delta_x: Single, delta_y: Single) -> Option<Seq<char>> {
    if !delta_x.finite() || !delta_y.finite() {
        Some("scroll deltas must be finite"@)
    } else if !within(delta_x, HUNDRED_THOUSAND_BITS) || !within(delta_y, HUNDRED_THOUSAND_BITS) {
        Some("scroll delta exceeds the safety bound"@)
    } else {
        None
    }
}

fn validate_scroll_delta(delta_x: Single, delta_y: Single) -> (result: Result<(), BridgeError>)
    ensures
        refused(result, scroll_delta_fault(delta_x, delta_y)),
{
    if !delta_x.is_finite() || !delta_y.is_finite() {
        return Err(invalid("scroll deltas must be finite"));
    }
    if !is_within(delta_x, HUNDRED_THOUSAND_BITS) || !is_within(delta_y, HUNDRED_THOUSAND_BITS) {
        return Err(invalid("scroll delta exceeds the safety bound"));
    }
    Ok(())
}

pub open spec fn point_fault(point: Point) -> Option<Seq<char>> {
    if !point.valid() {
        Some("coordinates must be finite"@)
    } else if !within(point.x, MILLION_BITS) || !within(point.y, MILLION_BITS) {
        Some("coordinates exceed the safety bound"@)
    } else {
        None
    }
}

fn validate_point(point: Point) -> (result: Result<(), BridgeError>)
    ensures
        refused(result, point_fault(point)),
{
    if !point.is_valid() {
        return Err(invalid("coordinates must be finite"));
    }
    if !is_within(point.x, MILLION_BITS) || !is_within(point.y, MILLION_BITS) {
        return Err(invalid("coordinates exceed the safety bound"));
    }
    Ok(())
}

/// The point of a pointer command.
pub open spec fn point_of(command: PointerCommand) -> Point {
    match command {
        PointerCommand::MouseMove { point, .. } => point,
        PointerCommand::MouseDown { point, .. } => point,
        PointerCommand::MouseUp { point, .. } => point,
        PointerCommand::ScrollWheel { point, .. } => point,
    }
}

pub open spec fn pointer_fault(command: PointerCommand) -> Option<Seq<char>> {
    if point_fault(point_of(command)) is Some {
        point_fault(point_of(command))
    } else {
        match command {
            PointerCommand::MouseMove { .. } => None,
            PointerCommand::MouseDown { click_count, .. } => click_count_fault(click_count),
            PointerCommand::MouseUp { click_count, .. } => click_count_fault(click_count),
            PointerCommand::ScrollWheel { delta, .. } => match delta {
                PointerScrollDelta::Pixels { delta_x, delta_y } => scroll_delta_fault(
                    delta_x,
                    delta_y,
                ),
                PointerScrollDelta::Lines { delta_x, delta_y } => scroll_delta_fault(
                    delta_x,
                    delta_y,
                ),
            },
        }
    }
}

/// Check a pointer command before it is dispatched.
pub fn validate_pointer(command: &PointerCommand) -> (result: Result<(), BridgeError>)
    ensures
        refused(result, pointer_fault(*command)),
{
    match *command {
        PointerCommand::MouseMove { point, .. } => validate_point(point),
        PointerCommand::MouseDown { point, click_count, .. } => {
            validate_point(point)?;
            validate_click_count(click_count)
        },
        PointerCommand::MouseUp { point, click_count, .. } => {
            validate_point(point)?;
            validate_click_count(click_count)
        },
        PointerCommand::ScrollWheel { point, delta } => {
            validate_point(point)?;
            match delta {
                PointerScrollDelta::Pixels { delta_x, delta_y } => validate_scroll_delta(
                    delta_x,
                    delta_y,
                ),
                PointerScrollDelta::Lines { delta_x, delta_y } => validate_scroll_delta(
                    delta_x,
                    delta_y,
                ),
            }
        },
    }
}

/// The modifier keys that are held down.
#[derive(Clone, Copy, Debug, PartialEq, Eq)]
pub struct Modifiers {
    pub control: bool,
    pub alt: bool,
    pub shift: bool,
    /// The command, windows, or super key.
    pub platform: bool,
    pub function: bool,
}

/// No modifier key is held down.
pub open spec fn no_modifiers() -> Modifiers {
    Modifiers { control: false, alt: false, shift: false, platform: false, function: false }
}

impl Default for Modifiers {
    fn default() -> (modifiers: Self)
        ensures
            modifiers == no_modifiers(),
    {
        Modifiers { control: false, alt: false, shift: false, platform: false, function: false }
    }
}

/// How far a touch has come.
#[derive(Clone, Copy, Debug, PartialEq, Eq)]
pub enum TouchPhase {
    Started,
    Moved,
    Ended,
    Cancelled,
}

/// A platform pointer event.
#[derive(Clone, Copy, Debug, PartialEq)]
pub enum PointerEvent {
    MouseMove { position: Point, pressed_button: Option<MouseButton>, modifiers: Modifiers },
    MouseDown {
        button: MouseButton,
        position: Point,
        modifiers: Modifiers,
        click_count: usize,
        first_mouse: bool,
    },
    MouseUp { button: MouseButton, position: Point, modifiers: Modifiers, click_count: usize },
    ScrollWheel {
        position: Point,
        delta: PointerScrollDelta,
        modifiers: Modifiers,
        touch_phase: TouchPhase,
    },
}

/// The event that a pointer command already is, without any modifier key.
pub open spec fn pointer_event(command: PointerCommand) -> PointerEvent {
    match command {
        PointerCommand::MouseMove { point, pressed_button } => PointerEvent::MouseMove {
            position: point,
            pressed_button,
            modifiers: no_modifiers(),
        },
        PointerCommand::MouseDown { point, button, click_count } => PointerEvent::MouseDown {
            button,
            position: point,
            modifiers: no_modifiers(),
            click_count: click_count as usize,
            first_mouse: false,
        },
        PointerCommand::MouseUp { point, button, click_count } => PointerEvent::MouseUp {
            button,
            position: point,
            modifiers: no_modifiers(),
            click_count: click_count as usize,
        },
        PointerCommand::ScrollWheel { point, delta } => PointerEvent::ScrollWheel {
            position: point,
            delta,
            modifiers: no_modifiers(),
            touch_phase: TouchPhase::Moved,
        },
    }
}

/// The event to dispatch for a pointer command.
pub fn dispatch_pointer(command: &PointerCommand) -> (event: Result<PointerEvent, BridgeError>)
    ensures
        refused(event, pointer_fault(*command)),
        event matches Ok(event) ==> event == pointer_event(*command),
{
    validate_pointer(command)?;
    Ok(
        match *command {
            PointerCommand::MouseMove { point, pressed_button } => PointerEvent::MouseMove {
                position: point,
                pressed_button,
                modifiers: Modifiers::default(),
            },
            PointerCommand::MouseDown { point, button, click_count } => PointerEvent::MouseDown {
                button,
                position: point,
                modifiers: Modifiers::default(),
                click_count: click_count as usize,
                first_mouse: false,
            },
            PointerCommand::MouseUp { point, button, click_count } => PointerEvent::MouseUp {
                button,
                position: point,
                modifiers: Modifiers::default(),
                click_count: click_count as usize,
            },
            PointerCommand::ScrollWheel { point, delta } => PointerEvent::ScrollWheel {
                position: point,
                delta,
                modifiers: Modifiers::default(),
                touch_phase: TouchPhase::Moved,
            },
        },
    )
}

// ---------------------------------------------------------------------------
// Laws
// ---------------------------------------------------------------------------
/// A key sequence is accepted exactly when it has an admissible number of
/// keystrokes and each of them alone would be accepted.
pub proof fn law_sequences_are_fully_validated(keystrokes: Seq<Seq<char>>, parses: Seq<bool>)
    requires
        parses.len() == keystrokes.len(),
    ensures
        sequence_fault(keystrokes, parses) is None <==> 1 <= keystrokes.len() <= MAX_KEY_SEQUENCE
            && forall|i: int|
            0 <= i < keystrokes.len() ==> keystroke_fault(#[trigger] keystrokes[i], parses[i]) is None,
{
    lemma_keystrokes_fault(keystrokes, parses);
}

proof fn lemma_keystrokes_fault(keystrokes: Seq<Seq<char>>, parses: Seq<bool>)
    requires
        parses.len() == keystrokes.len(),
    ensures
        keystrokes_fault(keystrokes, parses) is None <==> forall|i: int|
            0 <= i < keystrokes.len() ==> keystroke_fault(#[trigger] keystrokes[i], parses[i]) is None,
    decreases keystrokes.len(),
{
    if keystrokes.len() > 0 {
        let rest = keystrokes.drop_first();
        lemma_keystrokes_fault(rest, parses.drop_first());
        if keystrokes_fault(keystrokes, parses) is None {
            assert forall|i: int| 0 <= i < keystrokes.len() implies keystroke_fault(
                #[trigger] keystrokes[i],
                parses[i],
            ) is None by {
                if i > 0 {
                    assert(rest[i - 1] == keystrokes[i]);
                }
            }
        } else if keystroke_fault(keystrokes[0], parses[0]) is None {
            let i = choose|i: int|
                0 <= i < rest.len() && keystroke_fault(
                    #[trigger] rest[i],
                    parses.drop_first()[i],
                ) is Some;
            assert(keystrokes[i + 1] == rest[i]);
        }
    }
}

/// A refusal names an invalid request and its reason; whatever has no fault is
/// accepted.
pub proof fn law_refusals_give_the_reason<T>(
    result: Result<T, BridgeError>,
    fault: Option<Seq<char>>,
)
    requires
        refused(result, fault),
    ensures
        result is Ok <==> fault is None,
        result matches Err(error) ==> error.code == ErrorCode::InvalidRequest && Some(
            error.message@,
        ) == fault,
{
}

/// The number lies within `limit` of zero, given the pattern of the limit.
pub open spec fn at_most(number: Single, limit: u32) -> bool {
    number.bits <= limit || (0x8000_0000 <= number.bits && number.bits - 0x8000_0000 <= limit)
}

/// The number is neither infinite nor NaN.
pub open spec fn is_number(number: Single) -> bool {
    number.bits < 0x7f80_0000 || (0x8000_0000 <= number.bits && number.bits < 0xff80_0000)
}

/// What both deltas of a scroll are.
pub open spec fn deltas_of(delta: PointerScrollDelta) -> (Single, Single) {
    match delta {
        PointerScrollDelta::Pixels { delta_x, delta_y } => (delta_x, delta_y),
        PointerScrollDelta::Lines { delta_x, delta_y } => (delta_x, delta_y),
    }
}

/// A pointer command is accepted exactly when its point lies within a million
/// of the origin and its clicks number one to three, or its deltas lie within a
/// hundred thousand, whether they are pixels or lines.
pub proof fn law_accepted_pointer_commands(command: PointerCommand)
    ensures
        pointer_fault(command) is None <==> match command {
            PointerCommand::MouseMove { point, .. } => at_most(point.x, 0x4974_2400) && at_most(
                point.y,
                0x4974_2400,
            ),
            PointerCommand::MouseDown { point, click_count, .. } => at_most(point.x, 0x4974_2400)
                && at_most(point.y, 0x4974_2400) && (click_count == 1 || click_count == 2
                || click_count == 3),
            PointerCommand::MouseUp { point, click_count, .. } => at_most(point.x, 0x4974_2400)
                && at_most(point.y, 0x4974_2400) && (click_count == 1 || click_count == 2
                || click_count == 3),
            PointerCommand::ScrollWheel { point, delta } => at_most(point.x, 0x4974_2400)
                && at_most(point.y, 0x4974_2400) && at_most(deltas_of(delta).0, 0x47c3_5000)
                && at_most(deltas_of(delta).1, 0x47c3_5000),
        },
{
}

/// A refused pointer command is blamed for its point first: for coordinates
/// that are not finite, then for those that are too far; then for its clicks,
/// or its deltas in the same way.
pub proof fn law_refused_pointer_commands(command: PointerCommand, point: Point)
    requires
        match command {
            PointerCommand::MouseMove { point: at, .. } => at == point,
            PointerCommand::MouseDown { point: at, .. } => at == point,
            PointerCommand::MouseUp { point: at, .. } => at == point,
            PointerCommand::ScrollWheel { point: at, .. } => at == point,
        },
    ensures
        !is_number(point.x) || !is_number(point.y) ==> pointer_fault(command) == Some(
            "coordinates must be finite"@,
        ),
        is_number(point.x) && is_number(point.y) && !(at_most(point.x, 0x4974_2400) && at_most(
            point.y,
            0x4974_2400,
        )) ==> pointer_fault(command) == Some("coordinates exceed the safety bound"@),
        at_most(point.x, 0x4974_2400) && at_most(point.y, 0x4974_2400) ==> match command {
            PointerCommand::MouseMove { .. } => true,
            PointerCommand::MouseDown { click_count, .. } => click_count == 0 || click_count > 3
                ==> pointer_fault(command) == Some("click count must be between 1 and 3"@),
            PointerCommand::MouseUp { click_count, .. } => click_count == 0 || click_count > 3
                ==> pointer_fault(command) == Some("click count must be between 1 and 3"@),
            PointerCommand::ScrollWheel { delta, .. } => {
                let (x, y) = deltas_of(delta);
                &&& !is_number(x) || !is_number(y) ==> pointer_fault(command) == Some(
                    "scroll deltas must be finite"@,
                )
                &&& is_number(x) && is_number(y) && !(at_most(x, 0x47c3_5000) && at_most(
                    y,
                    0x47c3_5000,
                )) ==> pointer_fault(command) == Some("scroll delta exceeds the safety bound"@)
            },
        },
{
}

/// The event is the command's own: a move stays a move, a press a press, a
/// release a release, and a scroll a scroll by the same pixels or lines, at the
/// same point, with the same button and clicks, and without any modifier key.
pub proof fn law_events_are_what_was_commanded(command: PointerCommand)
    ensures
        match command {
            PointerCommand::MouseMove { point, pressed_button } => {
                &&& pointer_event(command) matches PointerEvent::MouseMove {
                    position,
                    pressed_button: button,
                    modifiers,
                }
                &&& position == point
                &&& button == pressed_button
                &&& !modifiers.control && !modifiers.alt && !modifiers.shift && !modifiers.platform
                    && !modifiers.function
            },
            PointerCommand::MouseDown { point, button, click_count } => {
                &&& pointer_event(command) matches PointerEvent::MouseDown {
                    button: pressed,
                    position,
                    modifiers,
                    click_count: clicks,
                    first_mouse,
                }
                &&& position == point
                &&& pressed == button
                &&& clicks == click_count
                &&& !first_mouse
                &&& !modifiers.control && !modifiers.alt && !modifiers.shift && !modifiers.platform
                    && !modifiers.function
            },
            PointerCommand::MouseUp { point, button, click_count } => {
                &&& pointer_event(command) matches PointerEvent::MouseUp {
                    button: released,
                    position,
                    modifiers,
                    click_count: clicks,
                }
                &&& position == point
                &&& released == button
                &&& clicks == click_count
                &&& !modifiers.control && !modifiers.alt && !modifiers.shift && !modifiers.platform
                    && !modifiers.function
            },
            PointerCommand::ScrollWheel { point, delta } => {
                &&& pointer_event(command) matches PointerEvent::ScrollWheel {
                    position,
                    delta: scrolled,
                    modifiers,
                    touch_phase,
                }
                &&& position == point
                &&& scrolled == delta
                &&& touch_phase == TouchPhase::Moved
                &&& !modifiers.control && !modifiers.alt && !modifiers.shift && !modifiers.platform
                    && !modifiers.function
            },
        },
{
}

/// A keyboard command is accepted exactly when its texts take at most 64 KiB
/// each and its keystrokes, one or a sequence of 1 through 1024, all parse.
pub proof fn law_accepted_keyboard_commands(command: InputCommand, parses: Seq<bool>)
    requires
        command matches InputCommand::KeySequence { keystrokes } ==> parses.len()
            == keystrokes@.len(),
    ensures
        command_fault(command, parses) is None <==> match command {
            InputCommand::Key { keystroke } => encode_utf8(keystroke@).len() <= 65536 && parses[0],
            InputCommand::KeySequence { keystrokes } => 1 <= keystrokes@.len() <= 1024
                && forall|i: int|
                0 <= i < keystrokes@.len() ==> encode_utf8((#[trigger] keystrokes@[i])@).len()
                    <= 65536 && parses[i],
            InputCommand::TypeText { text } => encode_utf8(text@).len() <= 65536,
            InputCommand::ReplaceText { text } => encode_utf8(text@).len() <= 65536,
        },
{
    if let InputCommand::KeySequence { keystrokes } = command {
        let texts = keystrokes.deep_view();
        law_sequences_are_fully_validated(texts, parses);
        assert forall|i: int| 0 <= i < texts.len() implies (keystroke_fault(
            #[trigger] texts[i],
            parses[i],
        ) is None <==> encode_utf8(keystrokes@[i]@).len() <= 65536 && parses[i]) by {
            assert(texts[i] == keystrokes@[i]@);
        }
        if command_fault(command, parses) is None {
            assert forall|i: int| 0 <= i < keystrokes@.len() implies encode_utf8(
                (#[trigger] keystrokes@[i])@,
            ).len() <= 65536 && parses[i] by {
                assert(keystroke_fault(texts[i], parses[i]) is None);
            }
        }
        if 1 <= keystrokes@.len() <= 1024 && forall|i: int|
            0 <= i < keystrokes@.len() ==> encode_utf8((#[trigger] keystrokes@[i])@).len() <= 65536
                && parses[i] {
            assert forall|i: int| 0 <= i < texts.len() implies keystroke_fault(
                #[trigger] texts[i],
                parses[i],
            ) is None by {
                assert(texts[i] == keystrokes@[i]@);
            }
        }
    }
}

/// A refused keyboard command is blamed for the number of its keystrokes
/// first, then for the first keystroke that is too long or does not parse.
pub proof fn law_refused_keyboard_commands(command: InputCommand, parses: Seq<bool>, at: int)
    requires
        command matches InputCommand::KeySequence { keystrokes } ==> parses.len()
            == keystrokes@.len() && (keystrokes@.len() > 0 ==> 0 <= at < keystrokes@.len())
            && forall|i: int|
            0 <= i < at < keystrokes@.len() ==> encode_utf8((#[trigger] keystrokes@[i])@).len()
                <= 65536 && parses[i],
    ensures
        match command {
            InputCommand::Key { keystroke } => {
                &&& encode_utf8(keystroke@).len() > 65536 ==> command_fault(command, parses)
                    == Some("text exceeds the 64 KiB safety bound"@)
                &&& encode_utf8(keystroke@).len() <= 65536 && !parses[0] ==> command_fault(
                    command,
                    parses,
                ) == Some("invalid GPUI keystroke syntax"@)
            },
            InputCommand::KeySequence { keystrokes } => {
                &&& keystrokes@.len() == 0 || keystrokes@.len() > 1024 ==> command_fault(
                    command,
                    parses,
                ) == Some("key sequence must contain 1 through 1024 events"@)
                &&& 1 <= keystrokes@.len() <= 1024 && encode_utf8(keystrokes@[at]@).len() > 65536
                    ==> command_fault(command, parses) == Some(
                    "text exceeds the 64 KiB safety bound"@,
                )
                &&& 1 <= keystrokes@.len() <= 1024 && encode_utf8(keystrokes@[at]@).len() <= 65536
                    && !parses[at] ==> command_fault(command, parses) == Some(
                    "invalid GPUI keystroke syntax"@,
                )
            },
            InputCommand::TypeText { text } => encode_utf8(text@).len() > 65536 ==> command_fault(
                command,
                parses,
            ) == Some("text exceeds the 64 KiB safety bound"@),
            InputCommand::ReplaceText { text } => encode_utf8(text@).len() > 65536
                ==> command_fault(command, parses) == Some("text exceeds the 64 KiB safety bound"@),
        },
{
    if let InputCommand::KeySequence { keystrokes } = command {
        let texts = keystrokes.deep_view();
        if keystrokes@.len() > 0 {
            assert forall|i: int| 0 <= i < at implies keystroke_fault(
                #[trigger] texts[i],
                parses[i],
            ) is None by {
                assert(texts[i] == keystrokes@[i]@);
            }
            lemma_first_keystroke_fault(texts, parses, at);
            assert(texts[at] == keystrokes@[at]@);
        }
    }
}

/// A keyboard command is judged by GPUI's keystroke syntax: each of its own
/// keystrokes has to be in it, and what is only text has not.
pub proof fn law_keystrokes_are_judged_by_syntax(command: InputCommand)
    ensures
        command_fault(command, syntax_of(keystrokes_of(command))) is None <==> match command {
            InputCommand::Key { keystroke } => encode_utf8(keystroke@).len() <= 65536
                && keystroke_syntax(keystroke@),
            InputCommand::KeySequence { keystrokes } => 1 <= keystrokes@.len() <= 1024
                && forall|i: int|
                0 <= i < keystrokes@.len() ==> encode_utf8((#[trigger] keystrokes@[i])@).len()
                    <= 65536 && keystroke_syntax(keystrokes@[i]@),
            InputCommand::TypeText { text } => encode_utf8(text@).len() <= 65536,
            InputCommand::ReplaceText { text } => encode_utf8(text@).len() <= 65536,
        },
{
    let parses = syntax_of(keystrokes_of(command));
    law_accepted_keyboard_commands(command, parses);
    if let InputCommand::KeySequence { keystrokes } = command {
        assert forall|i: int| 0 <= i < keystrokes@.len() implies parses[i] == keystroke_syntax(
            (#[trigger] keystrokes@[i])@,
        ) by {
            assert(keystrokes.deep_view()[i] == keystrokes@[i]@);
        }
    }
}

proof fn lemma_first_keystroke_fault(keystrokes: Seq<Seq<char>>, parses: Seq<bool>, at: int)
    requires
        parses.len() == keystrokes.len(),
        0 <= at < keystrokes.len(),
        forall|i: int|
            0 <= i < at ==> keystroke_fault(#[trigger] keystrokes[i], parses[i]) is None,
    ensures
        keystroke_fault(keystrokes[at], parses[at]) is Some ==> keystrokes_fault(
            keystrokes,
            parses,
        ) == keystroke_fault(keystrokes[at], parses[at]),
    decreases at,
{
    if at > 0 {
        let rest = keystrokes.drop_first();
        assert(keystroke_fault(keystrokes[0], parses[0]) is None);
        assert forall|i: int| 0 <= i < at - 1 implies keystroke_fault(
            #[trigger] rest[i],
            parses.drop_first()[i],
        ) is None by {
            assert(rest[i] == keystrokes[i + 1]);
        }
        lemma_first_keystroke_fault(rest, parses.drop_first(), at - 1);
    }
}

/// The action is the command's own: keystrokes are dispatched as they are
/// spelled and in their order, typed text is inserted, and a replacement
/// replaces.
pub proof fn law_actions_are_what_was_commanded(command: InputCommand, action: KeyboardAction)
    requires
        asks_for(command, action),
    ensures
        match command {
            InputCommand::Key { keystroke } => {
                &&& action matches KeyboardAction::Keystrokes(dispatched)
                &&& dispatched@.len() == 1
                &&& dispatched@[0]@ == keystroke@
            },
            InputCommand::KeySequence { keystrokes } => {
                &&& action matches KeyboardAction::Keystrokes(dispatched)
                &&& dispatched@.len() == keystrokes@.len()
                &&& forall|i: int|
                    0 <= i < keystrokes@.len() ==> (#[trigger] dispatched@[i])@ == keystrokes@[i]@
            },
            InputCommand::TypeText { text } => {
                &&& action matches KeyboardAction::InsertText(inserted)
                &&& inserted@ == text@
            },
            InputCommand::ReplaceText { text } => {
                &&& action matches KeyboardAction::ReplaceText(replacement)
                &&& replacement@ == text@
            },
        },
{
    if let InputCommand::Key { keystroke } = command {
        let dispatched = action->Keystrokes_0;
        assert(dispatched.deep_view().len() == 1);
        assert(dispatched.deep_view()[0] == dispatched@[0]@);
    }
}

/// A pointer command that is not refused is dispatched as it is: at its own
/// point, with its own button, clicks, or delta.
pub proof fn law_pointer_commands_are_dispatched_as_they_are(
    command: PointerCommand,
    dispatched: Result<PointerEvent, BridgeError>,
)
    requires
        call_ensures(dispatch_pointer, (&command,), dispatched),
    ensures
        dispatched matches Ok(event) ==> match command {
            PointerCommand::MouseMove { point, pressed_button } => event matches
                PointerEvent::MouseMove { position, pressed_button: button, .. } && position
                == point && button == pressed_button,
            PointerCommand::MouseDown { point, button, click_count } => event matches
                PointerEvent::MouseDown {
                button: pressed,
                position,
                click_count: clicks,
                first_mouse,
                ..
            } && position == point && pressed == button && clicks == click_count && !first_mouse,
            PointerCommand::MouseUp { point, button, click_count } => event matches
                PointerEvent::MouseUp {
                button: released,
                position,
                click_count: clicks,
                ..
            } && position == point && released == button && clicks == click_count,
            PointerCommand::ScrollWheel { point, delta } => event matches
                PointerEvent::ScrollWheel { position, delta: scrolled, .. } && position == point
                && scrolled == delta,
        },
{
    law_events_are_what_was_commanded(command);
}

/// Keystrokes are dispatched whether or not anything handles them; text that no
/// input takes is not supported.
pub proof fn law_unhandled_text_is_not_supported(
    action: KeyboardAction,
    handled: bool,
    outcome: Result<(), BridgeError>,
)
    requires
        call_ensures(keyboard_outcome, (&action, handled), outcome),
    ensures
        handled || action is Keystrokes ==> outcome is Ok,
        !handled && !(action is Keystrokes) ==> (outcome matches Err(error) && error.code
            == ErrorCode::Unsupported),
{
}

} // verus!
