//! What a recorded node must satisfy.

use vstd::prelude::*;
use vstd::utf8::{encode_utf8, is_char_boundary};

use crate::number::{Double, Single};
use crate::protocol::{
    NodeAction, Rect, TextInfo, UiNode, ValueInfo, MAX_ID_BYTES, MAX_LABEL_BYTES,
    MAX_METADATA_FIELDS, MAX_METADATA_KEY_BYTES, MAX_METADATA_VALUE_BYTES, MAX_TEXT_BYTES,
};
use crate::protocol::{NodeModel, RectModel, TextModel, ValueModel};
use crate::string_map::StringMap;
use crate::text::{byte_len, contains_control, has_control_char, spec_byte_len};

verus! {

/// The pattern of the single-precision number one million.
pub const MILLION_BITS: u32 = 0x4974_2400;

// ---------------------------------------------------------------------------
// Rules
// ---------------------------------------------------------------------------
/// An identifier of 1 through `MAX_ID_BYTES` bytes without control characters.
pub open spec fn valid_id(id: Seq<char>) -> bool {
    id.len() > 0 && spec_byte_len(id) <= MAX_ID_BYTES && !has_control_char(id)
}

pub open spec fn valid_label(text: Option<Seq<char>>) -> bool {
    match text {
        Some(text) => spec_byte_len(text) <= MAX_LABEL_BYTES && !has_control_char(text),
        None => true,
    }
}

/// A single-precision rank of a number that is finite.
pub open spec fn finite_rank(rank: int) -> bool {
    -0x7f80_0000 < rank < 0x7f80_0000
}

/// Finite coordinates within a million and a size from zero to a million.
pub open spec fn valid_bounds(bounds: Option<RectModel>) -> bool {
    match bounds {
        Some(rect) => {
            &&& finite_rank(rect.x) && -MILLION_BITS <= rect.x <= MILLION_BITS
            &&& finite_rank(rect.y) && -MILLION_BITS <= rect.y <= MILLION_BITS
            &&& finite_rank(rect.width) && 0 <= rect.width <= MILLION_BITS
            &&& finite_rank(rect.height) && 0 <= rect.height <= MILLION_BITS
        },
        None => true,
    }
}

/// A byte offset between two characters of a text, or at its ends.
pub open spec fn text_offset(text: Seq<char>, offset: usize) -> bool {
    offset <= spec_byte_len(text) && is_char_boundary(encode_utf8(text), offset as int)
}

pub open spec fn text_fault(text: TextModel) -> Option<Seq<char>> {
    if spec_byte_len(text.text) > MAX_TEXT_BYTES {
        Some("semantic text exceeds 64 KiB"@)
    } else if text.redacted && text.text.len() > 0 {
        Some("redacted semantic text must not contain a value"@)
    } else if text.caret matches Some(caret) && !text_offset(text.text, caret) {
        Some("semantic text caret is not a valid UTF-8 boundary"@)
    } else if text.selection matches Some(range) && !(range.start <= range.end && text_offset(
        text.text,
        range.start,
    ) && text_offset(text.text, range.end)) {
        Some("semantic text selection is not a valid UTF-8 range"@)
    } else {
        None
    }
}

/// A double-precision rank, if any, of a number that is finite.
pub open spec fn finite_bound(rank: Option<int>) -> bool {
    match rank {
        Some(rank) => -0x7ff0_0000_0000_0000 < rank < 0x7ff0_0000_0000_0000,
        None => true,
    }
}

pub open spec fn value_fault(value: ValueModel) -> Option<Seq<char>> {
    if spec_byte_len(value.value) > MAX_TEXT_BYTES {
        Some("semantic value exceeds 64 KiB"@)
    } else if !finite_bound(value.min) || !finite_bound(value.max) || !finite_bound(value.step) {
        Some("semantic numeric bounds must be finite"@)
    } else if value.min matches Some(min) && value.max matches Some(max) && min > max {
        Some("semantic numeric minimum exceeds its maximum"@)
    } else if value.step matches Some(step) && step <= 0 {
        Some("semantic numeric step must be positive"@)
    } else {
        None
    }
}

pub open spec fn valid_field(key: Seq<char>, value: Seq<char>) -> bool {
    &&& key.len() > 0
    &&& spec_byte_len(key) <= MAX_METADATA_KEY_BYTES
    &&& !has_control_char(key)
    &&& spec_byte_len(value) <= MAX_METADATA_VALUE_BYTES
    &&& !has_control_char(value)
}

pub open spec fn metadata_fault(metadata: Map<Seq<char>, Seq<char>>) -> Option<Seq<char>> {
    if metadata.len() > MAX_METADATA_FIELDS {
        Some("semantic metadata exceeds 32 fields"@)
    } else if exists|key: Seq<char>| #[trigger]
        metadata.contains_key(key) && !valid_field(key, metadata[key]) {
        Some("semantic metadata contains an invalid or oversized field"@)
    } else {
        None
    }
}

/// The first rule that a node breaks, as its message.
pub open spec fn node_fault(node: NodeModel) -> Option<Seq<char>> {
    if !valid_id(node.id) || (node.parent matches Some(parent) && !valid_id(parent)) {
        Some("semantic identifier must contain 1-256 bytes without control characters"@)
    } else if !valid_label(node.label) || !valid_label(node.description) {
        Some("semantic label or description is invalid or exceeds 4 KiB"@)
    } else if !valid_bounds(node.bounds) {
        Some("semantic bounds are invalid or exceed the coordinate limit"@)
    } else if !node.actions.no_duplicates() {
        Some("semantic actions contain a duplicate"@)
    } else if node.text matches Some(text) && text_fault(text) is Some {
        text_fault(node.text->0)
    } else if node.value matches Some(value) && value_fault(value) is Some {
        value_fault(node.value->0)
    } else {
        metadata_fault(node.metadata)
    }
}

/// The children do not count: they are derived from the parents.
pub proof fn lemma_children_do_not_matter(node: NodeModel, children: Seq<Seq<char>>)
    ensures
        node_fault(NodeModel { children, ..node }) == node_fault(node),
{
}

// ---------------------------------------------------------------------------
// Checks
// ---------------------------------------------------------------------------
/// `Ok` where the rule finds no fault, else its message.
pub open spec fn reports(result: Result<(), &'static str>, fault: Option<Seq<char>>) -> bool {
    match result {
        Ok(()) => fault is None,
        Err(message) => fault == Some(message@),
    }
}

/// Whether a diagnostic may name this identifier.
pub fn valid_diagnostic_id(id: &str) -> (valid: bool)
    ensures
        valid == valid_id(id@),
{
    !id.is_empty() && byte_len(id) <= MAX_ID_BYTES && !contains_control(id)
}

pub fn validate_id(id: &str) -> (result: Result<(), &'static str>)
    ensures
        reports(
            result,
            if valid_id(id@) {
                None
            } else {
                Some("semantic identifier must contain 1-256 bytes without control characters"@)
            },
        ),
{
    if id.is_empty() || byte_len(id) > MAX_ID_BYTES || contains_control(id) {
        return Err("semantic identifier must contain 1-256 bytes without control characters");
    }
    Ok(())
}

fn label_is_valid(text: &Option<String>) -> (valid: bool)
    ensures
        valid == valid_label(text.deep_view()),
{
    match text {
        Some(text) => byte_len(text.as_str()) <= MAX_LABEL_BYTES && !contains_control(
            text.as_str(),
        ),
        None => true,
    }
}

fn within_million(number: Single) -> (within: bool)
    ensures
        within == (-MILLION_BITS <= number.rank() <= MILLION_BITS),
{
    number.magnitude() <= MILLION_BITS
}

fn bounds_are_valid(bounds: &Option<Rect>) -> (valid: bool)
    ensures
        valid == valid_bounds(bounds.deep_view()),
{
    match bounds {
        Some(rect) => rect.is_valid() && within_million(rect.x) && within_million(rect.y)
            && within_million(rect.width) && within_million(rect.height),
        None => true,
    }
}

fn has_duplicate(actions: &Vec<NodeAction>) -> (found: bool)
    ensures
        found == !actions.deep_view().no_duplicates(),
{
    let mut j: usize = 0;
    while j < actions.len()
        invariant
            j <= actions@.len(),
            forall|a: int, b: int| 0 <= a < b < j ==> actions@[a] != actions@[b],
        decreases actions@.len() - j,
    {
        let mut i: usize = 0;
        while i < j
            invariant
                i <= j < actions@.len(),
                forall|a: int| 0 <= a < i ==> actions@[a] != actions@[j as int],
            decreases j - i,
        {
            if actions[i] == actions[j] {
                assert(actions.deep_view()[i as int] == actions.deep_view()[j as int]);
                return true;
            }
            i += 1;
        }
        j += 1;
    }
    assert(actions.deep_view() =~= actions@);
    false
}

fn offset_is_valid(text: &str, offset: usize) -> (valid: bool)
    ensures
        valid == text_offset(text@, offset),
{
    offset <= byte_len(text) && text.is_char_boundary(offset)
}

fn validate_text_info(text: &TextInfo) -> (result: Result<(), &'static str>)
    ensures
        reports(result, text_fault(text.deep_view())),
{
    if byte_len(text.text.as_str()) > MAX_TEXT_BYTES {
        return Err("semantic text exceeds 64 KiB");
    }
    if text.redacted && !text.text.as_str().is_empty() {
        return Err("redacted semantic text must not contain a value");
    }
    if let Some(caret) = text.caret {
        if !offset_is_valid(text.text.as_str(), caret) {
            return Err("semantic text caret is not a valid UTF-8 boundary");
        }
    }
    if let Some(range) = text.selection {
        if range.start > range.end || !offset_is_valid(text.text.as_str(), range.end)
            || !offset_is_valid(text.text.as_str(), range.start) {
            return Err("semantic text selection is not a valid UTF-8 range");
        }
    }
    Ok(())
}

fn bound_is_finite(bound: &Option<Double>) -> (finite: bool)
    ensures
        finite == finite_bound(bound.deep_view()),
{
    match bound {
        Some(number) => number.is_finite(),
        None => true,
    }
}

fn validate_value_info(value: &ValueInfo) -> (result: Result<(), &'static str>)
    ensures
        reports(result, value_fault(value.deep_view())),
{
    if byte_len(value.value.as_str()) > MAX_TEXT_BYTES {
        return Err("semantic value exceeds 64 KiB");
    }
    if !bound_is_finite(&value.min) || !bound_is_finite(&value.max) || !bound_is_finite(
        &value.step,
    ) {
        return Err("semantic numeric bounds must be finite");
    }
    if let (Some(min), Some(max)) = (&value.min, &value.max) {
        if min.to_rank() > max.to_rank() {
            return Err("semantic numeric minimum exceeds its maximum");
        }
    }
    if let Some(step) = &value.step {
        if step.to_rank() <= 0 {
            return Err("semantic numeric step must be positive");
        }
    }
    Ok(())
}

fn field_is_valid(key: &str, value: &str) -> (valid: bool)
    ensures
        valid == valid_field(key@, value@),
{
    !key.is_empty() && byte_len(key) <= MAX_METADATA_KEY_BYTES && !contains_control(key)
        && byte_len(value) <= MAX_METADATA_VALUE_BYTES && !contains_control(value)
}

fn validate_metadata(metadata: &StringMap<String>) -> (result: Result<(), &'static str>)
    ensures
        reports(result, metadata_fault(metadata.deep_view())),
{
    if metadata.len() > MAX_METADATA_FIELDS {
        return Err("semantic metadata exceeds 32 fields");
    }
    let keys = metadata.keys();
    let mut i: usize = 0;
    while i < keys.len()
        invariant
            i <= keys@.len(),
            metadata.deep_view().len() <= MAX_METADATA_FIELDS,
            forall|j: int|
                0 <= j < keys@.len() ==> metadata.deep_view().contains_key((#[trigger] keys@[j])@),
            forall|j: int|
                0 <= j < i ==> valid_field(
                    (#[trigger] keys@[j])@,
                    metadata.deep_view()[keys@[j]@],
                ),
        decreases keys@.len() - i,
    {
        let key = keys[i].as_str();
        assert(metadata.deep_view().contains_key(keys@[i as int]@));
        if let Some(value) = metadata.get(key) {
            if !field_is_valid(key, value.as_str()) {
                return Err("semantic metadata contains an invalid or oversized field");
            }
        }
        i += 1;
    }
    proof {
        assert forall|key: Seq<char>| #[trigger]
            metadata.deep_view().contains_key(key) implies valid_field(
            key,
            metadata.deep_view()[key],
        ) by {
            assert(keys.deep_view().contains(key));
            let j = keys.deep_view().index_of(key);
            assert(keys@[j]@ == key);
        }
    }
    Ok(())
}

/// Check a node against every rule and report the first that it breaks.
pub fn validate_node(node: &UiNode) -> (result: Result<(), &'static str>)
    ensures
        reports(result, node_fault(node.deep_view())),
{
    validate_id(node.id.as_str())?;
    if let Some(parent) = &node.parent {
        validate_id(parent.as_str())?;
    }
    if !label_is_valid(&node.label) || !label_is_valid(&node.description) {
        return Err("semantic label or description is invalid or exceeds 4 KiB");
    }
    if !bounds_are_valid(&node.bounds) {
        return Err("semantic bounds are invalid or exceed the coordinate limit");
    }
    if has_duplicate(&node.actions) {
        return Err("semantic actions contain a duplicate");
    }
    if let Some(text) = &node.text {
        validate_text_info(text)?;
    }
    if let Some(value) = &node.value {
        validate_value_info(value)?;
    }
    validate_metadata(&node.metadata)
}

// ---------------------------------------------------------------------------
// Laws
// ---------------------------------------------------------------------------
/// The text takes at most `limit` bytes and holds no control character.
pub open spec fn clean_text(text: Seq<char>, limit: nat) -> bool {
    &&& encode_utf8(text).len() <= limit
    &&& forall|i: int|
        0 <= i < text.len() ==> 0x1f < (#[trigger] text[i]) as u32 && !(0x7f <= text[i] as u32
            <= 0x9f)
}

pub proof fn lemma_clean_text(text: Seq<char>, limit: nat)
    ensures
        clean_text(text, limit) <==> spec_byte_len(text) <= limit && !has_control_char(text),
{
    if !has_control_char(text) {
        assert forall|i: int| 0 <= i < text.len() implies 0x1f < (#[trigger] text[i]) as u32 && !(
        0x7f <= text[i] as u32 <= 0x9f) by {
            assert(!crate::text::control_char(text[i]));
        }
    } else {
        let i = choose|i: int| 0 <= i < text.len() && crate::text::control_char(#[trigger] text[i]);
        assert(crate::text::control_char(text[i]));
    }
}

/// The node's identifier, and its parent's where it names one, take 1 through
/// 256 bytes without control characters.
pub open spec fn identified_well(node: NodeModel) -> bool {
    &&& node.id.len() > 0 && clean_text(node.id, 256)
    &&& node.parent matches Some(parent) ==> parent.len() > 0 && clean_text(parent, 256)
}

/// Label and description, where there are any, take at most 4 KiB without
/// control characters.
pub open spec fn described_well(node: NodeModel) -> bool {
    &&& node.label matches Some(label) ==> clean_text(label, 4096)
    &&& node.description matches Some(description) ==> clean_text(description, 4096)
}

/// The bounds, where there are any, lie within a million of the origin, and
/// their size is from zero to a million.
pub open spec fn placed_well(node: NodeModel) -> bool {
    node.bounds matches Some(rect) ==> {
        &&& -0x4974_2400 <= rect.x <= 0x4974_2400
        &&& -0x4974_2400 <= rect.y <= 0x4974_2400
        &&& 0 <= rect.width <= 0x4974_2400
        &&& 0 <= rect.height <= 0x4974_2400
    }
}

/// No action is offered twice.
pub open spec fn acts_well(node: NodeModel) -> bool {
    forall|i: int, j: int|
        0 <= i < j < node.actions.len() ==> #[trigger] node.actions[i] != #[trigger] node.actions[j]
}

/// The offset stands between two characters of the text, or at one of its ends.
pub open spec fn between_characters(text: Seq<char>, offset: usize) -> bool {
    exists|n: int| 0 <= n <= text.len() && encode_utf8(#[trigger] text.take(n)).len() == offset
}

/// A text takes at most 64 KiB, is empty where it is redacted, and has its
/// caret and both ends of its selection between characters, the start first.
pub open spec fn written_well(text: TextModel) -> bool {
    &&& encode_utf8(text.text).len() <= 65536
    &&& text.redacted ==> text.text.len() == 0
    &&& text.caret matches Some(caret) ==> between_characters(text.text, caret)
    &&& text.selection matches Some(range) ==> range.start <= range.end && between_characters(
        text.text,
        range.start,
    ) && between_characters(text.text, range.end)
}

/// A rank of a double-precision number that is neither infinite nor NaN.
pub open spec fn of_finite(rank: int) -> bool {
    -0x7ff0_0000_0000_0000 < rank < 0x7ff0_0000_0000_0000
}

/// A value takes at most 64 KiB; its numbers are finite, its minimum does not
/// exceed its maximum, and its step is positive.
pub open spec fn valued_well(value: ValueModel) -> bool {
    &&& encode_utf8(value.value).len() <= 65536
    &&& value.min matches Some(min) ==> of_finite(min)
    &&& value.max matches Some(max) ==> of_finite(max)
    &&& value.step matches Some(step) ==> of_finite(step) && 0 < step
    &&& value.min is Some && value.max is Some ==> value.min->0 <= value.max->0
}

/// At most 32 fields, each with a key of 1 through 128 bytes and a value of at
/// most 4 KiB, both without control characters.
pub open spec fn annotated_well(metadata: Map<Seq<char>, Seq<char>>) -> bool {
    &&& metadata.len() <= 32
    &&& forall|key: Seq<char>| #[trigger]
        metadata.contains_key(key) ==> key.len() > 0 && clean_text(key, 128) && clean_text(
            metadata[key],
            4096,
        )
}

proof fn lemma_prefix_bytes(text: Seq<char>, n: int)
    requires
        0 <= n <= text.len(),
    ensures
        encode_utf8(text.take(n)).len() <= encode_utf8(text).len(),
        n > 0 ==> encode_utf8(text.take(n)).len() == vstd::utf8::encode_scalar(
            text[0] as u32,
        ).len() + encode_utf8(text.drop_first().take(n - 1)).len(),
    decreases n,
{
    if n == 0 {
        assert(text.take(0) =~= Seq::empty());
    } else {
        assert(text.take(n).drop_first() =~= text.drop_first().take(n - 1));
        assert(text.take(n)[0] == text[0]);
        lemma_prefix_bytes(text.drop_first(), n - 1);
    }
}

/// The boundaries of an encoded text are the lengths of its encoded prefixes.
proof fn lemma_boundaries(text: Seq<char>, offset: int)
    requires
        0 <= offset <= encode_utf8(text).len(),
    ensures
        is_char_boundary(encode_utf8(text), offset) <==> exists|n: int|
            0 <= n <= text.len() && encode_utf8(#[trigger] text.take(n)).len() == offset,
    decreases text.len(),
{
    let bytes = encode_utf8(text);
    vstd::utf8::encode_utf8_valid_utf8(text);
    if offset == 0 {
        assert(text.take(0) =~= Seq::empty());
        assert(encode_utf8(text.take(0)).len() == 0);
    } else {
        let width = vstd::utf8::encode_scalar(text[0] as u32).len();
        let rest = text.drop_first();
        vstd::utf8::char_is_scalar(text[0]);
        vstd::utf8::encode_utf8_first_scalar(text);
        assert(vstd::utf8::pop_first_scalar(bytes) =~= encode_utf8(rest));
        assert(is_char_boundary(bytes, offset) == is_char_boundary(
            encode_utf8(rest),
            offset - width,
        ));
        if offset >= width {
            lemma_boundaries(rest, offset - width);
        }
        if exists|n: int| 0 <= n <= text.len() && encode_utf8(#[trigger] text.take(n)).len() == offset {
            let n = choose|n: int|
                0 <= n <= text.len() && encode_utf8(#[trigger] text.take(n)).len() == offset;
            if n == 0 {
                assert(text.take(0) =~= Seq::empty());
            }
            lemma_prefix_bytes(text, n);
            assert(encode_utf8(rest.take(n - 1)).len() == offset - width);
        }
        if is_char_boundary(bytes, offset) {
            assert(offset >= width);
            let n = choose|n: int|
                0 <= n <= rest.len() && encode_utf8(#[trigger] rest.take(n)).len() == offset
                    - width;
            lemma_prefix_bytes(text, n + 1);
            assert(encode_utf8(text.take(n + 1)).len() == offset);
        }
    }
}

proof fn lemma_between_characters(text: Seq<char>, offset: usize)
    ensures
        between_characters(text, offset) <==> text_offset(text, offset),
{
    if offset <= encode_utf8(text).len() {
        lemma_boundaries(text, offset as int);
    } else if between_characters(text, offset) {
        let n = choose|n: int|
            0 <= n <= text.len() && encode_utf8(#[trigger] text.take(n)).len() == offset;
        lemma_prefix_bytes(text, n);
    }
}

/// A text has no fault exactly when it is written well, and is blamed for the
/// first thing that is wrong: its length, a secret that shows, its caret, its
/// selection.
pub proof fn law_text_faults(text: TextModel)
    ensures
        text_fault(text) is None <==> written_well(text),
        encode_utf8(text.text).len() > 65536 ==> text_fault(text) == Some(
            "semantic text exceeds 64 KiB"@,
        ),
        encode_utf8(text.text).len() <= 65536 && text.redacted && text.text.len() > 0
            ==> text_fault(text) == Some("redacted semantic text must not contain a value"@),
        encode_utf8(text.text).len() <= 65536 && !text.redacted && (text.caret matches Some(caret)
            && !between_characters(text.text, caret)) ==> text_fault(text) == Some(
            "semantic text caret is not a valid UTF-8 boundary"@,
        ),
        text_fault(text) is Some && written_well(TextModel { selection: None, ..text })
            ==> text_fault(text) == Some("semantic text selection is not a valid UTF-8 range"@),
{
    if let Some(caret) = text.caret {
        lemma_between_characters(text.text, caret);
    }
    if let Some(range) = text.selection {
        lemma_between_characters(text.text, range.start);
        lemma_between_characters(text.text, range.end);
    }
}

/// A value has no fault exactly when it is valued well, and is blamed for the
/// first thing that is wrong: its length, a number that is not finite, its
/// range, its step.
pub proof fn law_value_faults(value: ValueModel)
    ensures
        value_fault(value) is None <==> valued_well(value),
        encode_utf8(value.value).len() > 65536 ==> value_fault(value) == Some(
            "semantic value exceeds 64 KiB"@,
        ),
        encode_utf8(value.value).len() <= 65536 && ((value.min matches Some(min) && !of_finite(min))
            || (value.max matches Some(max) && !of_finite(max)) || (value.step matches Some(step)
            && !of_finite(step))) ==> value_fault(value) == Some(
            "semantic numeric bounds must be finite"@,
        ),
        value_fault(value) is Some && valued_well(ValueModel { min: None, ..value }) && (
        value.min matches Some(min) && of_finite(min)) ==> value_fault(value) == Some(
            "semantic numeric minimum exceeds its maximum"@,
        ),
        value_fault(value) is Some && valued_well(ValueModel { step: None, ..value }) && (
        value.step matches Some(step) && of_finite(step)) ==> value_fault(value) == Some(
            "semantic numeric step must be positive"@,
        ),
{
}

/// Metadata has no fault exactly when it is annotated well; too many fields are
/// blamed before any single one.
pub proof fn law_metadata_faults(metadata: Map<Seq<char>, Seq<char>>)
    ensures
        metadata_fault(metadata) is None <==> annotated_well(metadata),
        metadata.len() > 32 ==> metadata_fault(metadata) == Some(
            "semantic metadata exceeds 32 fields"@,
        ),
        metadata.len() <= 32 && !annotated_well(metadata) ==> metadata_fault(metadata) == Some(
            "semantic metadata contains an invalid or oversized field"@,
        ),
{
    assert forall|key: Seq<char>| #[trigger] metadata.contains_key(key) implies (valid_field(
        key,
        metadata[key],
    ) <==> key.len() > 0 && clean_text(key, 128) && clean_text(metadata[key], 4096)) by {
        lemma_clean_text(key, 128);
        lemma_clean_text(metadata[key], 4096);
    }
    if annotated_well(metadata) {
        assert forall|key: Seq<char>| #[trigger] metadata.contains_key(key) implies valid_field(
            key,
            metadata[key],
        ) by {}
    } else if metadata.len() <= 32 {
        let key = choose|key: Seq<char>| #[trigger]
            metadata.contains_key(key) && !(key.len() > 0 && clean_text(key, 128) && clean_text(
                metadata[key],
                4096,
            ));
        assert(metadata.contains_key(key) && !valid_field(key, metadata[key]));
    }
}

proof fn lemma_identified_well(node: NodeModel)
    ensures
        identified_well(node) <==> valid_id(node.id) && (node.parent matches Some(parent)
            ==> valid_id(parent)),
{
    lemma_clean_text(node.id, 256);
    if let Some(parent) = node.parent {
        lemma_clean_text(parent, 256);
    }
}

proof fn lemma_described_well(node: NodeModel)
    ensures
        described_well(node) <==> valid_label(node.label) && valid_label(node.description),
{
    if let Some(label) = node.label {
        lemma_clean_text(label, 4096);
    }
    if let Some(description) = node.description {
        lemma_clean_text(description, 4096);
    }
}

proof fn lemma_acts_well(node: NodeModel)
    ensures
        acts_well(node) <==> node.actions.no_duplicates(),
{
    if acts_well(node) {
        assert forall|i: int, j: int|
            0 <= i < node.actions.len() && 0 <= j < node.actions.len() && i != j implies
            node.actions[i] != node.actions[j] by {
            if i < j {
                assert(node.actions[i] != node.actions[j]);
            } else {
                assert(node.actions[j] != node.actions[i]);
            }
        }
    }
}

/// A node is valid exactly when everything it says is: each part is judged by
/// itself, whatever the others say.
pub proof fn law_valid_nodes(node: NodeModel)
    ensures
        node_fault(node) is None <==> {
            &&& identified_well(node)
            &&& described_well(node)
            &&& placed_well(node)
            &&& acts_well(node)
            &&& node.text matches Some(text) ==> written_well(text)
            &&& node.value matches Some(value) ==> valued_well(value)
            &&& annotated_well(node.metadata)
        },
{
    lemma_identified_well(node);
    lemma_described_well(node);
    lemma_acts_well(node);
    if let Some(text) = node.text {
        law_text_faults(text);
    }
    if let Some(value) = node.value {
        law_value_faults(value);
    }
    law_metadata_faults(node.metadata);
}

/// An invalid node is blamed for the first part that is wrong: identifiers,
/// label and description, bounds, actions, text, value, metadata.
pub proof fn law_invalid_nodes_are_blamed_for_the_first_fault(node: NodeModel)
    ensures
        !identified_well(node) ==> node_fault(node) == Some(
            "semantic identifier must contain 1-256 bytes without control characters"@,
        ),
        identified_well(node) && !described_well(node) ==> node_fault(node) == Some(
            "semantic label or description is invalid or exceeds 4 KiB"@,
        ),
        identified_well(node) && described_well(node) && !placed_well(node) ==> node_fault(node)
            == Some("semantic bounds are invalid or exceed the coordinate limit"@),
        identified_well(node) && described_well(node) && placed_well(node) && !acts_well(node)
            ==> node_fault(node) == Some("semantic actions contain a duplicate"@),
        identified_well(node) && described_well(node) && placed_well(node) && acts_well(node) ==> {
            &&& (node.text matches Some(text) && !written_well(text)) ==> node_fault(node)
                == text_fault(node.text->0)
            &&& (node.text matches Some(text) ==> written_well(text)) && (
            node.value matches Some(value) && !valued_well(value)) ==> node_fault(node)
                == value_fault(node.value->0)
            &&& (node.text matches Some(text) ==> written_well(text)) && (
            node.value matches Some(value) ==> valued_well(value)) ==> node_fault(node)
                == metadata_fault(node.metadata)
        },
{
    lemma_identified_well(node);
    lemma_described_well(node);
    lemma_acts_well(node);
    if let Some(text) = node.text {
        law_text_faults(text);
    }
    if let Some(value) = node.value {
        law_value_faults(value);
    }
}

/// Any label and any description of at most 4 KiB without control characters
/// will do: a valid node stays valid with them.
pub proof fn law_any_clean_label_will_do(
    node: NodeModel,
    label: Option<Seq<char>>,
    description: Option<Seq<char>>,
)
    requires
        node_fault(node) is None,
        label matches Some(text) ==> clean_text(text, MAX_LABEL_BYTES as nat),
        description matches Some(text) ==> clean_text(text, MAX_LABEL_BYTES as nat),
    ensures
        node_fault(NodeModel { label, description, ..node }) is None,
{
    let other = NodeModel { label, description, ..node };
    law_valid_nodes(node);
    law_valid_nodes(other);
    assert(other.actions == node.actions);
    assert(acts_well(other) == acts_well(node));
}

/// Role, state, and children are never what is wrong with a node.
pub proof fn law_role_state_and_children_are_free(
    node: NodeModel,
    role: crate::protocol::Role,
    state: crate::protocol::NodeState,
    children: Seq<Seq<char>>,
)
    ensures
        node_fault(NodeModel { role, state, children, ..node }) == node_fault(node),
{
}

} // verus!
