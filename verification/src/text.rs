//! Text as the bridge handles it: lengths in bytes, order, words, and decimals.

use vstd::prelude::*;
use vstd::utf8::{encode_scalar, encode_utf8};

verus! {

// ---------------------------------------------------------------------------
// Characters
// ---------------------------------------------------------------------------
/// A control character: Unicode's general category `Cc`.
pub open spec fn control_char(c: char) -> bool {
    c as u32 <= 0x1f || 0x7f <= c as u32 <= 0x9f
}

pub open spec fn has_control_char(text: Seq<char>) -> bool {
    exists|i: int| 0 <= i < text.len() && control_char(#[trigger] text[i])
}

/// White space: the characters with Unicode's property `White_Space`.
pub open spec fn white_space(c: char) -> bool {
    let code = c as u32;
    ||| 0x09 <= code <= 0x0d
    ||| code == 0x20
    ||| code == 0x85
    ||| code == 0xa0
    ||| code == 0x1680
    ||| 0x2000 <= code <= 0x200a
    ||| code == 0x2028
    ||| code == 0x2029
    ||| code == 0x202f
    ||| code == 0x205f
    ||| code == 0x3000
}

/// The lower-case form of an ASCII letter; any other character itself.
pub open spec fn ascii_lower(c: char) -> char {
    if 'A' <= c <= 'Z' {
        (c as u32 + 32) as char
    } else {
        c
    }
}

pub fn is_control(c: char) -> (answer: bool)
    ensures
        answer == control_char(c),
{
    let code: u32 = c as u32;
    code <= 0x1f || (0x7f <= code && code <= 0x9f)
}

pub fn is_white_space(c: char) -> (answer: bool)
    ensures
        answer == white_space(c),
{
    let code: u32 = c as u32;
    (0x09 <= code && code <= 0x0d) || code == 0x20 || code == 0x85 || code == 0xa0 || code == 0x1680
        || (0x2000 <= code && code <= 0x200a) || code == 0x2028 || code == 0x2029 || code == 0x202f
        || code == 0x205f || code == 0x3000
}

pub fn to_ascii_lower(c: char) -> (lower: char)
    ensures
        lower == ascii_lower(c),
{
    if 'A' <= c && c <= 'Z' {
        let code: u8 = c as u8;
        (code + 32) as char
    } else {
        c
    }
}

// ---------------------------------------------------------------------------
// Strings and character sequences
// ---------------------------------------------------------------------------
/// `String::push` appends one character and changes nothing else.
pub assume_specification[ String::push ](text: &mut String, c: char)
    ensures
        final(text)@ == old(text)@.push(c),
;

/// The characters of a text, in order.
pub fn to_chars(text: &str) -> (chars: Vec<char>)
    ensures
        chars@ == text@,
{
    broadcast use vstd::string::group_string_axioms;

    let mut rest = text.chars();
    let mut chars: Vec<char> = Vec::new();
    loop
        invariant
            chars@ + vstd::std_specs::iter::IteratorSpec::remaining(&rest) == text@,
            vstd::std_specs::iter::IteratorSpec::obeys_prophetic_iter_laws(&rest),
            vstd::std_specs::iter::IteratorSpec::decrease(&rest) is Some,
        ensures
            chars@ == text@,
        decreases vstd::std_specs::iter::IteratorSpec::decrease(&rest)->0,
    {
        let ghost before = vstd::std_specs::iter::IteratorSpec::remaining(&rest);
        match rest.next() {
            Some(c) => {
                assert(before =~= seq![before[0]] + before.drop_first());
                chars.push(c);
                assert(chars@ + vstd::std_specs::iter::IteratorSpec::remaining(&rest) =~= text@);
            },
            None => {
                assert(chars@ =~= text@);
                break;
            },
        }
    }
    chars
}

/// Whether two texts are the same.
pub fn same_text(left: &str, right: &str) -> (same: bool)
    ensures
        same == (left@ == right@),
{
    match order(left, right) {
        Order::Same => true,
        _ => false,
    }
}

/// The length of a text in bytes, encoded as UTF-8.
pub open spec fn spec_byte_len(text: Seq<char>) -> nat {
    encode_utf8(text).len()
}

pub fn byte_len(text: &str) -> (len: usize)
    ensures
        len == spec_byte_len(text@),
{
    text.as_bytes().len()
}

pub fn contains_control(text: &str) -> (found: bool)
    ensures
        found == has_control_char(text@),
{
    let chars = to_chars(text);
    let mut i: usize = 0;
    while i < chars.len()
        invariant
            chars@ == text@,
            i <= chars.len(),
            forall|j: int| 0 <= j < i ==> !control_char(#[trigger] text@[j]),
        decreases chars.len() - i,
    {
        if is_control(chars[i]) {
            assert(control_char(text@[i as int]));
            return true;
        }
        i += 1;
    }
    false
}

// ---------------------------------------------------------------------------
// Order
// ---------------------------------------------------------------------------
/// The order of two texts.
pub enum Order {
    Before,
    Same,
    After,
}

/// Lexicographic order of byte strings.
pub open spec fn bytes_before(left: Seq<u8>, right: Seq<u8>) -> bool
    decreases left.len(),
{
    if right.len() == 0 {
        false
    } else if left.len() == 0 {
        true
    } else if left[0] != right[0] {
        left[0] < right[0]
    } else {
        bytes_before(left.drop_first(), right.drop_first())
    }
}

/// `left` sorts before `right`: texts are ordered by their bytes.
pub open spec fn text_before(left: Seq<char>, right: Seq<char>) -> bool {
    bytes_before(encode_utf8(left), encode_utf8(right))
}

proof fn lemma_bytes_before_irreflexive(a: Seq<u8>)
    ensures
        !bytes_before(a, a),
    decreases a.len(),
{
    if a.len() > 0 {
        lemma_bytes_before_irreflexive(a.drop_first());
    }
}

proof fn lemma_bytes_before_transitive(a: Seq<u8>, b: Seq<u8>, c: Seq<u8>)
    requires
        bytes_before(a, b),
        bytes_before(b, c),
    ensures
        bytes_before(a, c),
    decreases a.len(),
{
    if a.len() > 0 && a[0] == b[0] && b[0] == c[0] {
        lemma_bytes_before_transitive(a.drop_first(), b.drop_first(), c.drop_first());
    }
}

/// No text sorts before itself.
pub proof fn lemma_text_before_irreflexive(a: Seq<char>)
    ensures
        !text_before(a, a),
{
    lemma_bytes_before_irreflexive(encode_utf8(a));
}

pub proof fn lemma_text_before_transitive(a: Seq<char>, b: Seq<char>, c: Seq<char>)
    requires
        text_before(a, b),
        text_before(b, c),
    ensures
        text_before(a, c),
{
    lemma_bytes_before_transitive(encode_utf8(a), encode_utf8(b), encode_utf8(c));
}

/// Of two different texts one sorts before the other, and never both.
pub proof fn lemma_text_before_total(a: Seq<char>, b: Seq<char>)
    ensures
        a != b ==> text_before(a, b) || text_before(b, a),
        !(text_before(a, b) && text_before(b, a)),
{
    lemma_bytes_before_total(encode_utf8(a), encode_utf8(b));
    if text_before(a, b) && text_before(b, a) {
        lemma_text_before_transitive(a, b, a);
        lemma_text_before_irreflexive(a);
    }
    vstd::utf8::encode_utf8_decode_utf8(a);
    vstd::utf8::encode_utf8_decode_utf8(b);
}

proof fn lemma_bytes_before_total(a: Seq<u8>, b: Seq<u8>)
    ensures
        a != b ==> bytes_before(a, b) || bytes_before(b, a),
    decreases a.len(),
{
    if a.len() > 0 && b.len() > 0 {
        lemma_bytes_before_total(a.drop_first(), b.drop_first());
        if a[0] == b[0] && a.drop_first() == b.drop_first() {
            assert(a =~= seq![a[0]] + a.drop_first());
            assert(b =~= seq![b[0]] + b.drop_first());
        }
    } else if a.len() == 0 && b.len() == 0 {
        assert(a =~= b);
    }
}

proof fn lemma_bytes_before_skip(a: Seq<u8>, b: Seq<u8>, i: int)
    requires
        0 <= i < a.len(),
        i < b.len(),
        a[i] == b[i],
    ensures
        bytes_before(a.skip(i), b.skip(i)) == bytes_before(a.skip(i + 1), b.skip(i + 1)),
{
    assert(a.skip(i).drop_first() =~= a.skip(i + 1));
    assert(b.skip(i).drop_first() =~= b.skip(i + 1));
}

/// How `left` and `right` are ordered.
pub fn order(left: &str, right: &str) -> (order: Order)
    ensures
        match order {
            Order::Before => text_before(left@, right@) && left@ != right@,
            Order::Same => left@ == right@,
            Order::After => text_before(right@, left@) && left@ != right@,
        },
{
    let a = left.as_bytes();
    let b = right.as_bytes();
    proof {
        lemma_text_before_irreflexive(left@);
        vstd::utf8::encode_utf8_decode_utf8(left@);
        vstd::utf8::encode_utf8_decode_utf8(right@);
        assert(a@.skip(0) =~= a@);
        assert(b@.skip(0) =~= b@);
    }
    let mut i: usize = 0;
    while i < a.len() && i < b.len()
        invariant
            a@ == encode_utf8(left@),
            b@ == encode_utf8(right@),
            i <= a.len(),
            i <= b.len(),
            a@.take(i as int) == b@.take(i as int),
            bytes_before(a@, b@) == bytes_before(a@.skip(i as int), b@.skip(i as int)),
            bytes_before(b@, a@) == bytes_before(b@.skip(i as int), a@.skip(i as int)),
            !text_before(left@, left@),
        decreases a.len() - i,
    {
        if a[i] < b[i] {
            return Order::Before;
        }
        if b[i] < a[i] {
            return Order::After;
        }
        proof {
            lemma_bytes_before_skip(a@, b@, i as int);
            lemma_bytes_before_skip(b@, a@, i as int);
            assert(a@.take(i + 1) =~= a@.take(i as int).push(a@[i as int]));
            assert(b@.take(i + 1) =~= b@.take(i as int).push(b@[i as int]));
        }
        i += 1;
    }
    if i < b.len() {
        Order::Before
    } else if i < a.len() {
        Order::After
    } else {
        assert(a@.take(i as int) =~= a@);
        assert(b@.take(i as int) =~= b@);
        Order::Same
    }
}

// ---------------------------------------------------------------------------
// Words
// ---------------------------------------------------------------------------
/// The words of a text that continues an unfinished `word`: its maximal runs
/// of characters that are not white space, in order.
pub open spec fn words_after(word: Seq<char>, text: Seq<char>) -> Seq<Seq<char>>
    decreases text.len(),
{
    let finished = if word.len() == 0 {
        Seq::<Seq<char>>::empty()
    } else {
        seq![word]
    };
    if text.len() == 0 {
        finished
    } else if white_space(text[0]) {
        finished + words_after(Seq::empty(), text.drop_first())
    } else {
        words_after(word.push(text[0]), text.drop_first())
    }
}

/// The words of a text.
pub open spec fn words(text: Seq<char>) -> Seq<Seq<char>> {
    words_after(Seq::empty(), text)
}

/// `joined` with one more word, behind a space unless it is the first.
pub open spec fn with_word(joined: Seq<char>, word: Seq<char>) -> Seq<char> {
    if joined.len() == 0 {
        word
    } else {
        joined.push(' ') + word
    }
}

pub open spec fn with_words(joined: Seq<char>, words: Seq<Seq<char>>) -> Seq<char>
    decreases words.len(),
{
    if words.len() == 0 {
        joined
    } else {
        with_words(with_word(joined, words[0]), words.drop_first())
    }
}

proof fn lemma_with_words_head(joined: Seq<char>, word: Seq<char>, rest: Seq<Seq<char>>)
    ensures
        with_words(joined, seq![word] + rest) == with_words(with_word(joined, word), rest),
{
    assert((seq![word] + rest).drop_first() =~= rest);
}

fn push_word(joined: &mut String, word: &str)
    ensures
        final(joined)@ == with_word(old(joined)@, word@),
{
    if !joined.as_str().is_empty() {
        joined.push(' ');
        joined.append(word);
    } else {
        joined.append(word);
        assert(joined@ =~= word@);
    }
}

/// Append `text`'s words to `joined`, single-space separated.
pub fn push_words(joined: &mut String, text: &str)
    ensures
        final(joined)@ == with_words(old(joined)@, words(text@)),
{
    let chars = to_chars(text);
    let mut word = String::new();
    let mut i: usize = 0;
    assert(text@.skip(0) =~= text@);
    while i < chars.len()
        invariant
            chars@ == text@,
            i <= chars.len(),
            with_words(old(joined)@, words(text@)) == with_words(
                joined@,
                words_after(word@, text@.skip(i as int)),
            ),
        decreases chars.len() - i,
    {
        let c = chars[i];
        proof {
            assert(text@.skip(i as int).drop_first() =~= text@.skip(i + 1));
        }
        if is_white_space(c) {
            let ghost rest = words_after(Seq::empty(), text@.skip(i + 1));
            if !word.as_str().is_empty() {
                proof {
                    lemma_with_words_head(joined@, word@, rest);
                }
                push_word(joined, word.as_str());
                word = String::new();
            } else {
                assert(Seq::<Seq<char>>::empty() + rest =~= rest);
                assert(word@ =~= Seq::empty());
            }
        } else {
            word.push(c);
        }
        i += 1;
    }
    assert(text@.skip(i as int) =~= Seq::empty());
    if !word.as_str().is_empty() {
        proof {
            lemma_with_words_head(joined@, word@, Seq::empty());
            assert(seq![word@] + Seq::<Seq<char>>::empty() =~= seq![word@]);
        }
        push_word(joined, word.as_str());
    }
}

// ---------------------------------------------------------------------------
// Capped prefixes
// ---------------------------------------------------------------------------
/// How many leading characters of `text` fit into `limit` bytes.
pub open spec fn fitting(text: Seq<char>, limit: int) -> int
    decreases text.len(),
{
    if text.len() == 0 || encode_scalar(text[0] as u32).len() > limit {
        0
    } else {
        1 + fitting(text.drop_first(), limit - encode_scalar(text[0] as u32).len())
    }
}

/// The longest prefix of whole characters that fits into `limit` bytes.
pub open spec fn capped(text: Seq<char>, limit: int) -> Seq<char> {
    text.take(fitting(text, limit))
}

/// The capped prefix fits, and with one more character it would not.
pub proof fn lemma_capped_is_longest(text: Seq<char>, limit: int)
    requires
        0 <= limit,
    ensures
        0 <= fitting(text, limit) <= text.len(),
        spec_byte_len(capped(text, limit)) <= limit,
        forall|n: int|
            fitting(text, limit) < n <= text.len() ==> spec_byte_len(#[trigger] text.take(n)) > limit,
    decreases text.len(),
{
    if text.len() > 0 {
        let width = encode_scalar(text[0] as u32).len();
        let rest = text.drop_first();
        if width <= limit {
            lemma_capped_is_longest(rest, limit - width);
            let n = fitting(text, limit);
            assert(text.take(n).drop_first() =~= rest.take(n - 1));
            assert forall|n: int| fitting(text, limit) < n <= text.len() implies spec_byte_len(
                #[trigger] text.take(n),
            ) > limit by {
                assert(text.take(n).drop_first() =~= rest.take(n - 1));
            }
        } else {
            assert forall|n: int| fitting(text, limit) < n <= text.len() implies spec_byte_len(
                #[trigger] text.take(n),
            ) > limit by {
                assert(text.take(n)[0] == text[0]);
            }
        }
    }
}

/// The number of bytes that a character takes in UTF-8.
fn char_width(c: char) -> (width: usize)
    ensures
        width == encode_scalar(c as u32).len(),
        1 <= width <= 4,
{
    let code: u32 = c as u32;
    proof {
        vstd::utf8::char_is_scalar(c);
    }
    if code <= 0x7f {
        1
    } else if code <= 0x7ff {
        2
    } else if code <= 0xffff {
        3
    } else {
        4
    }
}

/// The longest prefix of `chars` that takes at most `limit` bytes, as a text.
pub fn capped_text(chars: &Vec<char>, limit: usize) -> (text: String)
    ensures
        text@ == capped(chars@, limit as int),
{
    let mut text = String::new();
    let mut left: usize = limit;
    let mut i: usize = 0;
    assert(chars@.skip(0) =~= chars@);
    assert(text@ =~= chars@.take(0));
    while i < chars.len()
        invariant_except_break
            i <= chars.len(),
            text@ == chars@.take(i as int),
            fitting(chars@, limit as int) == i + fitting(chars@.skip(i as int), left as int),
        ensures
            text@ == chars@.take(fitting(chars@, limit as int)),
        decreases chars.len() - i,
    {
        let width = char_width(chars[i]);
        if width > left {
            break;
        }
        proof {
            assert(chars@.skip(i as int).drop_first() =~= chars@.skip(i + 1));
            assert(chars@.take(i + 1) =~= chars@.take(i as int).push(chars@[i as int]));
        }
        text.push(chars[i]);
        left = left - width;
        i += 1;
    }
    text
}

// ---------------------------------------------------------------------------
// Joining and decimals
// ---------------------------------------------------------------------------
/// Path segments joined by `/`.
pub open spec fn joined(segments: Seq<Seq<char>>) -> Seq<char>
    decreases segments.len(),
{
    if segments.len() == 0 {
        Seq::empty()
    } else if segments.len() == 1 {
        segments[0]
    } else {
        joined(segments.drop_last()).push('/') + segments.last()
    }
}

/// A text without the separator of path segments.
pub open spec fn plain_segment(text: Seq<char>) -> bool {
    !text.contains('/')
}

/// The separator before the last segment stands right before it.
proof fn lemma_joined_last(segments: Seq<Seq<char>>)
    requires
        segments.len() > 1,
    ensures
        joined(segments).len() == joined(segments.drop_last()).len() + 1 + segments.last().len(),
        joined(segments)[joined(segments.drop_last()).len() as int] == '/',
        joined(segments).take(joined(segments.drop_last()).len() as int) == joined(
            segments.drop_last(),
        ),
        joined(segments).skip(joined(segments.drop_last()).len() as int + 1) == segments.last(),
{
    let start = joined(segments.drop_last());
    let text = joined(segments);
    assert(text == start.push('/') + segments.last());
    assert(text.take(start.len() as int) =~= start);
    assert(text.skip(start.len() as int + 1) =~= segments.last());
}

/// Segments without the separator can be told from their joined text.
pub proof fn lemma_joined_injective(left: Seq<Seq<char>>, right: Seq<Seq<char>>)
    requires
        left.len() > 0,
        right.len() > 0,
        forall|i: int| 0 <= i < left.len() ==> plain_segment(#[trigger] left[i]),
        forall|i: int| 0 <= i < right.len() ==> plain_segment(#[trigger] right[i]),
        joined(left) == joined(right),
    ensures
        left == right,
    decreases left.len(),
{
    let text = joined(left);
    if left.len() == 1 && right.len() == 1 {
        assert(left =~= right);
    } else if left.len() == 1 {
        lemma_joined_last(right);
        assert(left[0] == text);
        assert(text.contains('/'));
    } else if right.len() == 1 {
        lemma_joined_last(left);
        assert(right[0] == text);
        assert(text.contains('/'));
    } else {
        lemma_joined_last(left);
        lemma_joined_last(right);
        let a = joined(left.drop_last()).len() as int;
        let b = joined(right.drop_last()).len() as int;
        assert(plain_segment(left[left.len() - 1]));
        assert(plain_segment(right[right.len() - 1]));
        if a < b {
            assert(left.last()[b - a - 1] == text[b]);
            assert(left.last().contains('/'));
        }
        if b < a {
            assert(right.last()[a - b - 1] == text[a]);
            assert(right.last().contains('/'));
        }
        assert forall|i: int| 0 <= i < left.drop_last().len() implies plain_segment(
            #[trigger] left.drop_last()[i],
        ) by {
            assert(left.drop_last()[i] == left[i]);
        }
        assert forall|i: int| 0 <= i < right.drop_last().len() implies plain_segment(
            #[trigger] right.drop_last()[i],
        ) by {
            assert(right.drop_last()[i] == right[i]);
        }
        lemma_joined_injective(left.drop_last(), right.drop_last());
        assert(left =~= left.drop_last().push(left.last()));
        assert(right =~= right.drop_last().push(right.last()));
    }
}

/// The decimal digit for `n`.
pub open spec fn digit(n: nat) -> char {
    (n + 0x30) as char
}

/// A natural number written in decimal, without leading zeros.
pub open spec fn decimal(n: nat) -> Seq<char>
    decreases n,
{
    if n < 10 {
        seq![digit(n)]
    } else {
        decimal(n / 10).push(digit(n % 10))
    }
}

/// The decimal text of `n`.
pub fn to_decimal(n: u64) -> (text: String)
    ensures
        text@ == decimal(n as nat),
    decreases n,
{
    if n < 10 {
        let mut text = String::new();
        let last: u8 = n as u8;
        text.push((last + 0x30) as char);
        assert(text@ =~= decimal(n as nat));
        text
    } else {
        let mut text = to_decimal(n / 10);
        let last: u8 = (n % 10) as u8;
        text.push((last + 0x30) as char);
        text
    }
}

/// Different numbers have different decimal texts.
pub proof fn lemma_decimal_injective(m: nat, n: nat)
    requires
        decimal(m) == decimal(n),
    ensures
        m == n,
    decreases m,
{
    lemma_decimal_last(m);
    lemma_decimal_last(n);
    if m >= 10 && n >= 10 {
        assert(decimal(m).drop_last() =~= decimal(m / 10));
        assert(decimal(n).drop_last() =~= decimal(n / 10));
        lemma_decimal_injective(m / 10, n / 10);
    } else if m >= 10 {
        assert(decimal(m).drop_last() =~= decimal(m / 10));
        lemma_decimal_last(m / 10);
        assert(decimal(n).len() == 1);
    } else if n >= 10 {
        assert(decimal(n).drop_last() =~= decimal(n / 10));
        lemma_decimal_last(n / 10);
        assert(decimal(m).len() == 1);
    }
}

/// A decimal ends in the digit for its remainder by ten, and holds digits only.
pub proof fn lemma_decimal_last(n: nat)
    ensures
        decimal(n).len() > 0,
        decimal(n).last() == digit(n % 10),
        forall|i: int| 0 <= i < decimal(n).len() ==> '0' <= #[trigger] decimal(n)[i] <= '9',
    decreases n,
{
    if n >= 10 {
        lemma_decimal_last(n / 10);
    }
}

// ---------------------------------------------------------------------------
// Laws
// ---------------------------------------------------------------------------
/// White space is what Unicode calls so: the tab through the carriage return,
/// the space, the next-line character, and the spaces and separators beyond
/// ASCII. Every letter, digit, and mark of ASCII is part of a word.
pub proof fn law_white_space(c: char)
    ensures
        c as u32 <= 0x7f ==> (white_space(c) <==> c == ' ' || c == '\t' || c == '\n' || c == '\r'
            || c as u32 == 0x0b || c as u32 == 0x0c),
        0x7f < c as u32 <= 0xff ==> (white_space(c) <==> c as u32 == 0x85 || c as u32 == 0xa0),
        0xff < c as u32 ==> (white_space(c) <==> c as u32 == 0x1680 || 0x2000 <= c as u32
            <= 0x200a || c as u32 == 0x2028 || c as u32 == 0x2029 || c as u32 == 0x202f || c as u32
            == 0x205f || c as u32 == 0x3000),
{
}

proof fn lemma_words_split(word: Seq<char>, before: Seq<char>, space: char, after: Seq<char>)
    requires
        white_space(space),
    ensures
        words_after(word, before.push(space) + after) == words_after(word, before) + words(after),
    decreases before.len(),
{
    let text = before.push(space) + after;
    if before.len() == 0 {
        assert(text.drop_first() =~= after);
        let finished = if word.len() == 0 {
            Seq::<Seq<char>>::empty()
        } else {
            seq![word]
        };
        assert(words_after(word, before) == finished);
    } else {
        assert(text.drop_first() =~= before.drop_first().push(space) + after);
        assert(text[0] == before[0]);
        let finished = if word.len() == 0 {
            Seq::<Seq<char>>::empty()
        } else {
            seq![word]
        };
        if white_space(before[0]) {
            lemma_words_split(Seq::empty(), before.drop_first(), space, after);
            let rest = words_after(Seq::empty(), before.drop_first());
            assert(finished + (rest + words(after)) =~= (finished + rest) + words(after));
        } else {
            lemma_words_split(word.push(before[0]), before.drop_first(), space, after);
        }
    }
}

proof fn lemma_word_continues(word: Seq<char>, text: Seq<char>)
    requires
        forall|i: int| 0 <= i < text.len() ==> !white_space(#[trigger] text[i]),
    ensures
        words_after(word, text) == words_after(word + text, Seq::empty()),
    decreases text.len(),
{
    if text.len() == 0 {
        assert(word + text =~= word);
    } else {
        let rest = text.drop_first();
        assert(!white_space(text[0]));
        assert forall|i: int| 0 <= i < rest.len() implies !white_space(#[trigger] rest[i]) by {
            assert(rest[i] == text[i + 1]);
        }
        lemma_word_continues(word.push(text[0]), rest);
        assert(word.push(text[0]) + rest =~= word + text);
    }
}

/// White space splits a text into what stands before it and what stands behind
/// it; a text without white space is one word, unless it is empty.
pub proof fn law_words_are_split_by_white_space(before: Seq<char>, space: char, after: Seq<char>)
    ensures
        white_space(space) ==> words(before.push(space) + after) == words(before) + words(after),
        (forall|i: int| 0 <= i < before.len() ==> !white_space(#[trigger] before[i]))
            && before.len() > 0 ==> words(before) == seq![before],
        words(Seq::empty()) == Seq::<Seq<char>>::empty(),
{
    if white_space(space) {
        lemma_words_split(Seq::empty(), before, space, after);
    }
    if (forall|i: int| 0 <= i < before.len() ==> !white_space(#[trigger] before[i]))
        && before.len() > 0 {
        lemma_word_continues(Seq::empty(), before);
        assert(Seq::empty() + before =~= before);
    }
}

/// A word: something without white space.
pub open spec fn is_word(text: Seq<char>) -> bool {
    text.len() > 0 && forall|i: int| 0 <= i < text.len() ==> !white_space(#[trigger] text[i])
}

pub open spec fn all_words(list: Seq<Seq<char>>) -> bool {
    forall|i: int| 0 <= i < list.len() ==> is_word(#[trigger] list[i])
}

/// Words written one behind the other are read back: nothing is lost, added, or
/// reordered, and what was written before them stays.
pub proof fn law_written_words_are_read_back(joined: Seq<char>, list: Seq<Seq<char>>)
    requires
        all_words(list),
    ensures
        words(with_words(joined, list)) == words(joined) + list,
        joined.is_prefix_of(with_words(joined, list)),
        joined.len() == 0 && list.len() == 0 ==> with_words(joined, list).len() == 0,
    decreases list.len(),
{
    if list.len() == 0 {
        assert(words(joined) + list =~= words(joined));
    } else {
        let first = list[0];
        let rest = list.drop_first();
        let next = with_word(joined, first);
        assert(is_word(list[0]));
        assert forall|i: int| 0 <= i < rest.len() implies is_word(#[trigger] rest[i]) by {
            assert(rest[i] == list[i + 1]);
        }
        law_written_words_are_read_back(next, rest);
        law_words_are_split_by_white_space(first, ' ', Seq::empty());
        if joined.len() == 0 {
            assert(joined =~= Seq::empty());
            assert(words(joined) + seq![first] =~= seq![first]);
        } else {
            law_words_are_split_by_white_space(joined, ' ', first);
        }
        assert(words(next) == words(joined) + seq![first]);
        assert((words(joined) + seq![first]) + rest =~= words(joined) + list);
    }
}

/// One space stands between two words, and nothing else is added: a text of
/// words is as long as they are, with a space for each but the first.
pub proof fn law_words_are_spaced_once(list: Seq<Seq<char>>, word: Seq<char>)
    requires
        all_words(list),
        is_word(word),
    ensures
        list.len() == 0 ==> with_words(Seq::empty(), list.push(word)) == word,
        list.len() > 0 ==> with_words(Seq::empty(), list.push(word)) == with_words(
            Seq::empty(),
            list,
        ).push(' ') + word,
{
    lemma_with_words_push(Seq::empty(), list, word);
    law_written_words_are_read_back(Seq::empty(), list);
    law_words_are_split_by_white_space(Seq::empty(), ' ', Seq::empty());
    let text = with_words(Seq::empty(), list);
    if list.len() > 0 && text.len() == 0 {
        assert(text =~= Seq::empty());
        assert(words(text) == Seq::<Seq<char>>::empty() + list);
        assert((Seq::<Seq<char>>::empty() + list).len() == list.len());
    }
}

proof fn lemma_with_words_push(joined: Seq<char>, list: Seq<Seq<char>>, word: Seq<char>)
    ensures
        with_words(joined, list.push(word)) == with_word(with_words(joined, list), word),
    decreases list.len(),
{
    if list.len() == 0 {
        assert(list.push(word).drop_first() =~= Seq::empty());
        assert(with_words(with_word(joined, word), Seq::empty()) == with_word(joined, word));
    } else {
        assert(list.push(word).drop_first() =~= list.drop_first().push(word));
        assert(list.push(word)[0] == list[0]);
        lemma_with_words_push(with_word(joined, list[0]), list.drop_first(), word);
    }
}

/// The number that decimal digits spell.
pub open spec fn decimal_value(digits: Seq<char>) -> nat
    decreases digits.len(),
{
    if digits.len() == 0 {
        0
    } else {
        decimal_value(digits.drop_last()) * 10 + (digits.last() as u32 - 0x30) as nat
    }
}

/// A decimal spells its number, in digits only and without a leading zero.
pub proof fn law_decimals_spell_their_numbers(n: nat)
    ensures
        decimal_value(decimal(n)) == n,
        decimal(n).len() > 0,
        forall|i: int| 0 <= i < decimal(n).len() ==> '0' <= #[trigger] decimal(n)[i] <= '9',
        n > 0 ==> decimal(n)[0] != '0',
    decreases n,
{
    lemma_decimal_last(n);
    let text = decimal(n);
    if n >= 10 {
        law_decimals_spell_their_numbers(n / 10);
        assert(text.drop_last() =~= decimal(n / 10));
        assert(text[0] == decimal(n / 10)[0]);
    } else {
        assert(text.drop_last() =~= Seq::empty());
        assert(decimal_value(Seq::empty()) == 0);
    }
}

/// Joining one more segment puts a slash before it, unless it is the first.
pub proof fn law_segments_are_joined_by_slashes(segments: Seq<Seq<char>>, segment: Seq<char>)
    ensures
        joined(seq![segment]) == segment,
        segments.len() > 0 ==> joined(segments.push(segment)) == joined(segments).push('/')
            + segment,
{
    assert(segments.push(segment).drop_last() =~= segments);
}

/// Lower case changes the 26 letters `A` through `Z` to those 32 further on, and
/// nothing else.
pub proof fn law_lower_case_changes_letters_only(c: char)
    ensures
        'A' <= c <= 'Z' ==> ascii_lower(c) as u32 == c as u32 + 32 && 'a' <= ascii_lower(c) <= 'z',
        !('A' <= c <= 'Z') ==> ascii_lower(c) == c,
{
}

/// The first `n` bytes are the same, and then the left text ends before the
/// right one does, or has the smaller byte.
pub open spec fn differs_at(left: Seq<char>, right: Seq<char>, n: int) -> bool {
    let a = encode_utf8(left);
    let b = encode_utf8(right);
    &&& 0 <= n <= a.len()
    &&& n < b.len()
    &&& forall|k: int| 0 <= k < n ==> #[trigger] a[k] == b[k]
    &&& n == a.len() || a[n] < b[n]
}

proof fn lemma_first_difference(left: Seq<u8>, right: Seq<u8>)
    ensures
        bytes_before(left, right) <==> exists|n: int|
            {
                &&& 0 <= n <= left.len()
                &&& n < right.len()
                &&& #[trigger] left.take(n) == right.take(n)
                &&& n == left.len() || left[n] < right[n]
            },
    decreases left.len(),
{
    if left.len() > 0 && right.len() > 0 && left[0] == right[0] {
        let a = left.drop_first();
        let b = right.drop_first();
        lemma_first_difference(a, b);
        if bytes_before(left, right) {
            let n = choose|n: int|
                {
                    &&& 0 <= n <= a.len()
                    &&& n < b.len()
                    &&& #[trigger] a.take(n) == b.take(n)
                    &&& n == a.len() || a[n] < b[n]
                };
            assert(left.take(n + 1) =~= right.take(n + 1)) by {
                assert forall|k: int| 0 <= k < n + 1 implies left[k] == right[k] by {
                    if k > 0 {
                        assert(a.take(n)[k - 1] == b.take(n)[k - 1]);
                    }
                }
            }
            assert(n + 1 == left.len() || left[n + 1] < right[n + 1]);
        }
        if exists|n: int|
            {
                &&& 0 <= n <= left.len()
                &&& n < right.len()
                &&& #[trigger] left.take(n) == right.take(n)
                &&& n == left.len() || left[n] < right[n]
            } {
            let n = choose|n: int|
                {
                    &&& 0 <= n <= left.len()
                    &&& n < right.len()
                    &&& #[trigger] left.take(n) == right.take(n)
                    &&& n == left.len() || left[n] < right[n]
                };
            assert(n > 0);
            assert(a.take(n - 1) =~= b.take(n - 1)) by {
                assert forall|k: int| 0 <= k < n - 1 implies a[k] == b[k] by {
                    assert(left.take(n)[k + 1] == right.take(n)[k + 1]);
                }
            }
            assert(n - 1 == a.len() || a[n - 1] < b[n - 1]);
        }
    } else {
        assert(left.take(0) =~= right.take(0));
        if exists|n: int|
            {
                &&& 0 <= n <= left.len()
                &&& n < right.len()
                &&& #[trigger] left.take(n) == right.take(n)
                &&& n == left.len() || left[n] < right[n]
            } {
            let n = choose|n: int|
                {
                    &&& 0 <= n <= left.len()
                    &&& n < right.len()
                    &&& #[trigger] left.take(n) == right.take(n)
                    &&& n == left.len() || left[n] < right[n]
                };
            if n > 0 {
                assert(left.take(n)[0] == right.take(n)[0]);
            }
        }
    }
}

/// Texts are ordered by their bytes, the first difference deciding, and a text
/// comes before any that goes on from it.
pub proof fn law_texts_are_ordered_by_bytes(left: Seq<char>, right: Seq<char>)
    ensures
        text_before(left, right) <==> exists|n: int| differs_at(left, right, n),
{
    let a = encode_utf8(left);
    let b = encode_utf8(right);
    lemma_first_difference(a, b);
    if text_before(left, right) {
        let n = choose|n: int|
            {
                &&& 0 <= n <= a.len()
                &&& n < b.len()
                &&& #[trigger] a.take(n) == b.take(n)
                &&& n == a.len() || a[n] < b[n]
            };
        assert forall|k: int| 0 <= k < n implies #[trigger] a[k] == b[k] by {
            assert(a.take(n)[k] == b.take(n)[k]);
        }
        assert(differs_at(left, right, n));
    }
    if exists|n: int| differs_at(left, right, n) {
        let n = choose|n: int| differs_at(left, right, n);
        assert(a.take(n) =~= b.take(n));
    }
}

/// A text that is cut short is the longest beginning of it that takes at most
/// so many bytes.
pub proof fn law_cut_texts_are_the_longest_that_fit(text: Seq<char>, limit: int, n: int)
    requires
        limit >= 0,
    ensures
        capped(text, limit).is_prefix_of(text),
        encode_utf8(capped(text, limit)).len() <= limit,
        capped(text, limit).len() < n <= text.len() ==> encode_utf8(
            text.take(n),
        ).len() > limit,
{
    lemma_capped_is_longest(text, limit);
}

} // verus!
