//! A bounded log of what the application reports.

use std::collections::VecDeque;

use vstd::prelude::*;

use crate::model::Modelled;
#[allow(unused_imports)]
use crate::model::{deep_views, lemma_deep_view_push};
#[allow(unused_imports)]
use crate::text::{ascii_lower, capped, lemma_capped_is_longest, spec_byte_len};
use crate::text::{capped_text, same_text, to_ascii_lower, to_chars};

verus! {

/// Most log entries that are kept.
pub const MAX_LOG_ENTRIES: usize = 512;

/// Longest message of an entry.
pub const MAX_MESSAGE_BYTES: usize = 4096;

// ---------------------------------------------------------------------------
// Levels
// ---------------------------------------------------------------------------
/// A text with its ASCII letters in lower case.
pub open spec fn lowered(text: Seq<char>) -> Seq<char> {
    Seq::new(text.len(), |i: int| ascii_lower(text[i]))
}

/// The level that a name stands for, whatever the case of its letters; a name
/// that is not known stands for `info`.
pub open spec fn normal_level(level: Seq<char>) -> Seq<char> {
    let name = lowered(level);
    if name == "trace"@ {
        "trace"@
    } else if name == "debug"@ {
        "debug"@
    } else if name == "warn"@ || name == "warning"@ {
        "warn"@
    } else if name == "error"@ {
        "error"@
    } else {
        "info"@
    }
}

/// How severe a level is.
pub open spec fn severity(level: Seq<char>) -> u8 {
    let name = lowered(level);
    if name == "trace"@ {
        0
    } else if name == "debug"@ {
        1
    } else if name == "warn"@ || name == "warning"@ {
        3
    } else if name == "error"@ {
        4
    } else {
        2
    }
}

fn lower_case(text: &str) -> (lower: String)
    ensures
        lower@ == lowered(text@),
{
    let chars = to_chars(text);
    let mut lower = String::new();
    let mut i: usize = 0;
    assert(lower@ =~= lowered(text@).take(0));
    while i < chars.len()
        invariant
            chars@ == text@,
            i <= chars@.len(),
            lower@ == lowered(text@).take(i as int),
        decreases chars@.len() - i,
    {
        lower.push(to_ascii_lower(chars[i]));
        assert(lower@ =~= lowered(text@).take(i + 1));
        i += 1;
    }
    assert(lower@ =~= lowered(text@));
    lower
}

/// The level that `level` stands for.
pub fn normalize_level(level: &str) -> (name: &'static str)
    ensures
        name@ == normal_level(level@),
{
    let lower = lower_case(level);
    let given = lower.as_str();
    if same_text(given, "trace") {
        "trace"
    } else if same_text(given, "debug") {
        "debug"
    } else if same_text(given, "warn") || same_text(given, "warning") {
        "warn"
    } else if same_text(given, "error") {
        "error"
    } else {
        "info"
    }
}

/// The names of the levels stand for themselves, and are ranked from trace to
/// error.
pub proof fn law_levels_are_ranked()
    ensures
        normal_level("trace"@) == "trace"@,
        normal_level("debug"@) == "debug"@,
        normal_level("info"@) == "info"@,
        normal_level("warn"@) == "warn"@,
        normal_level("error"@) == "error"@,
        severity("trace"@) == 0,
        severity("debug"@) == 1,
        severity("info"@) == 2,
        severity("warn"@) == 3,
        severity("error"@) == 4,
{
    reveal_strlit("trace");
    reveal_strlit("debug");
    reveal_strlit("info");
    reveal_strlit("warn");
    reveal_strlit("warning");
    reveal_strlit("error");
    assert(lowered("trace"@) =~= "trace"@);
    assert(lowered("debug"@) =~= "debug"@);
    assert(lowered("info"@) =~= "info"@);
    assert(lowered("warn"@) =~= "warn"@);
    assert(lowered("error"@) =~= "error"@);
    assert("debug"@[0] != "trace"@[0]);
    assert("info"@.len() == 4 && "info"@[0] == 'i');
    assert("warn"@.len() == 4 && "warn"@[0] == 'w');
    assert("error"@[0] == 'e' && "error"@.len() == 5);
    assert("trace"@[0] == 't' && "trace"@.len() == 5);
    assert("debug"@[0] == 'd' && "debug"@.len() == 5);
    assert("warning"@.len() == 7);
}

/// Normalising a level twice changes nothing, and keeps how severe it is.
pub proof fn law_normal_levels_are_stable(level: Seq<char>)
    ensures
        normal_level(normal_level(level)) == normal_level(level),
        severity(normal_level(level)) == severity(level),
{
    law_levels_are_ranked();
}

/// How severe `level` is, from trace to error.
pub fn level_rank(level: &str) -> (rank: u8)
    ensures
        rank == severity(level@),
{
    let name = normalize_level(level);
    proof {
        law_normal_levels_are_stable(level@);
        law_levels_are_ranked();
    }
    if same_text(name, "trace") {
        0
    } else if same_text(name, "debug") {
        1
    } else if same_text(name, "warn") {
        3
    } else if same_text(name, "error") {
        4
    } else {
        2
    }
}

// ---------------------------------------------------------------------------
// Entries
// ---------------------------------------------------------------------------
/// One reported message.
#[derive(Clone, Debug, PartialEq, Eq)]
pub struct LogEntry {
    pub timestamp_ms: u64,
    pub level: String,
    pub message: String,
}

pub struct LogModel {
    pub timestamp_ms: u64,
    pub level: Seq<char>,
    pub message: Seq<char>,
}

impl DeepView for LogEntry {
    type V = LogModel;

    open spec fn deep_view(&self) -> LogModel {
        LogModel {
            timestamp_ms: self.timestamp_ms,
            level: self.level@,
            message: self.message@,
        }
    }
}

impl Modelled for LogEntry {
    fn same(&self, other: &Self) -> (same: bool) {
        self.timestamp_ms == other.timestamp_ms && self.level == other.level && self.message
            == other.message
    }

    fn duplicate(&self) -> (copy: Self) {
        LogEntry {
            timestamp_ms: self.timestamp_ms,
            level: self.level.clone(),
            message: self.message.clone(),
        }
    }
}

/// A message on one line: a space for every carriage return and line feed.
pub open spec fn one_line(message: Seq<char>) -> Seq<char> {
    Seq::new(
        message.len(),
        |i: int|
            if message[i] == '\r' || message[i] == '\n' {
                ' '
            } else {
                message[i]
            },
    )
}

/// The entry for a reported message: its level by its own name, its message on
/// one line and cut to the longest prefix that fits.
pub open spec fn log_entry(timestamp_ms: u64, level: Seq<char>, message: Seq<char>) -> LogModel {
    LogModel {
        timestamp_ms,
        level: normal_level(level),
        message: capped(one_line(message), MAX_MESSAGE_BYTES as int),
    }
}

/// `entries` with one more, without the oldest where the log was full.
pub open spec fn with_entry(entries: Seq<LogModel>, entry: LogModel) -> Seq<LogModel> {
    if entries.len() == MAX_LOG_ENTRIES {
        entries.drop_first().push(entry)
    } else {
        entries.push(entry)
    }
}

/// The entries that are at least as severe as `threshold`.
pub open spec fn severe(entries: Seq<LogModel>, threshold: u8) -> Seq<LogModel> {
    entries.filter(|entry: LogModel| severity(entry.level) >= threshold)
}

/// The last `count` entries, in order.
pub open spec fn last_entries(entries: Seq<LogModel>, count: int) -> Seq<LogModel> {
    if entries.len() <= count {
        entries
    } else {
        entries.skip(entries.len() - count)
    }
}

/// The least severity that is asked for.
pub open spec fn threshold(min_level: Option<&str>) -> u8 {
    match min_level {
        Some(level) => severity(level@),
        None => 0,
    }
}

/// The latest entries, oldest first: at most `limit`, never more than the log
/// holds, and only those as severe as `min_level`.
pub open spec fn recent(
    entries: Seq<LogModel>,
    limit: u16,
    min_level: Option<&str>,
) -> Seq<LogModel> {
    last_entries(
        severe(entries, threshold(min_level)),
        if limit < MAX_LOG_ENTRIES {
            limit as int
        } else {
            MAX_LOG_ENTRIES as int
        },
    )
}

fn on_one_line(message: &str) -> (chars: Vec<char>)
    ensures
        chars@ == one_line(message@),
{
    let given = to_chars(message);
    let mut chars: Vec<char> = Vec::new();
    let mut i: usize = 0;
    while i < given.len()
        invariant
            given@ == message@,
            i <= given@.len(),
            chars@ == one_line(message@).take(i as int),
        decreases given@.len() - i,
    {
        let c = given[i];
        if c == '\r' || c == '\n' {
            chars.push(' ');
        } else {
            chars.push(c);
        }
        assert(chars@ =~= one_line(message@).take(i + 1));
        i += 1;
    }
    assert(chars@ =~= one_line(message@));
    chars
}

/// The log of an application.
pub struct Logs {
    entries: VecDeque<LogEntry>,
}

impl Logs {
    pub closed spec fn model(&self) -> Seq<LogModel> {
        deep_views(self.entries@)
    }

    /// An empty log.
    pub fn new() -> (logs: Self)
        ensures
            logs.model() == Seq::<LogModel>::empty(),
    {
        let logs = Logs { entries: VecDeque::with_capacity(MAX_LOG_ENTRIES) };
        assert(logs.model() =~= Seq::empty());
        logs
    }

    /// Add the entry for a message that was reported at `timestamp_ms`.
    pub fn add_log(&mut self, timestamp_ms: u64, level: &str, message: &str)
        ensures
            final(self).model() == with_entry(
                old(self).model(),
                log_entry(timestamp_ms, level@, message@),
            ),
    {
        let sanitized = on_one_line(message);
        let entry = LogEntry {
            timestamp_ms,
            level: normalize_level(level).to_owned(),
            message: capped_text(&sanitized, MAX_MESSAGE_BYTES),
        };
        if self.entries.len() == MAX_LOG_ENTRIES {
            let _ = self.entries.pop_front();
        }
        let ghost before = self.model();
        self.entries.push_back(entry);
        proof {
            assert(self.model() =~= before.push(entry.deep_view()));
            assert(self.model() =~= with_entry(
                old(self).model(),
                log_entry(timestamp_ms, level@, message@),
            ));
        }
    }

    /// The entries at least as severe as `threshold`, by their places.
    fn severe_places(&self, threshold: u8) -> (places: Vec<usize>)
        ensures
            forall|i: int| 0 <= i < places@.len() ==> #[trigger] places@[i] < self.entries@.len(),
            Seq::new(places@.len(), |i: int| self.model()[places@[i] as int]) == severe(
                self.model(),
                threshold,
            ),
    {
        let mut places: Vec<usize> = Vec::new();
        let mut i: usize = 0;
        proof {
            reveal(Seq::filter);
            assert(Seq::new(0, |i: int| self.model()[places@[i] as int]) =~= severe(
                self.model().take(0),
                threshold,
            ));
        }
        while i < self.entries.len()
            invariant
                i <= self.entries@.len(),
                forall|j: int| 0 <= j < places@.len() ==> #[trigger] places@[j] < self.entries@.len(),
                Seq::new(places@.len(), |j: int| self.model()[places@[j] as int]) == severe(
                    self.model().take(i as int),
                    threshold,
                ),
            decreases self.entries@.len() - i,
        {
            let ghost before = places@;
            proof {
                reveal(Seq::filter);
                assert(self.model().take(i + 1).drop_last() =~= self.model().take(i as int));
                assert(self.model().take(i + 1).last() == self.entries@[i as int].deep_view());
            }
            if level_rank(self.entries[i].level.as_str()) >= threshold {
                places.push(i);
                assert(Seq::new(places@.len(), |j: int| self.model()[places@[j] as int])
                    =~= Seq::new(before.len(), |j: int| self.model()[before[j] as int]).push(
                    self.model()[i as int],
                ));
            }
            i += 1;
        }
        assert(self.model().take(self.entries@.len() as int) =~= self.model());
        places
    }

    /// The latest entries, oldest first.
    pub fn logs(&self, limit: u16, min_level: Option<&str>) -> (entries: Vec<LogEntry>)
        ensures
            entries.deep_view() == recent(self.model(), limit, min_level),
    {
        let threshold = match min_level {
            Some(level) => level_rank(level),
            None => 0,
        };
        let take: usize = if (limit as usize) < MAX_LOG_ENTRIES {
            limit as usize
        } else {
            MAX_LOG_ENTRIES
        };
        let places = self.severe_places(threshold);
        let start: usize = if places.len() <= take {
            0
        } else {
            places.len() - take
        };
        let ghost found = severe(self.model(), threshold);
        let mut entries: Vec<LogEntry> = Vec::new();
        let mut i: usize = start;
        assert(entries.deep_view() =~= found.subrange(start as int, start as int));
        while i < places.len()
            invariant
                start <= i <= places@.len(),
                found.len() == places@.len(),
                forall|j: int| 0 <= j < places@.len() ==> #[trigger] places@[j] < self.entries@.len(),
                found == Seq::new(places@.len(), |j: int| self.model()[places@[j] as int]),
                entries.deep_view() == found.subrange(start as int, i as int),
            decreases places@.len() - i,
        {
            let place = places[i];
            assert(places@[i as int] < self.entries@.len());
            let entry = self.entries[place].duplicate();
            assert(entry.deep_view() == found[i as int]);
            let ghost before = entries@;
            entries.push(entry);
            proof {
                lemma_deep_view_push(before, entry, entries@);
                assert(found.subrange(start as int, i + 1) =~= found.subrange(
                    start as int,
                    i as int,
                ).push(found[i as int]));
            }
            i += 1;
        }
        assert(entries.deep_view() =~= recent(self.model(), limit, min_level));
        entries
    }

    /// Forget every entry.
    pub fn clear_logs(&mut self)
        ensures
            final(self).model() == Seq::<LogModel>::empty(),
    {
        self.entries.clear();
        assert(self.model() =~= Seq::empty());
    }
}

// ---------------------------------------------------------------------------
// Laws
// ---------------------------------------------------------------------------
/// An entry's message is on one line and fits, and with one more character of
/// what was reported it would not.
pub proof fn law_messages_are_bounded(timestamp_ms: u64, level: Seq<char>, message: Seq<char>)
    ensures
        ({
            let kept = log_entry(timestamp_ms, level, message).message;
            &&& spec_byte_len(kept) <= MAX_MESSAGE_BYTES
            &&& kept.is_prefix_of(one_line(message))
            &&& !kept.contains('\r') && !kept.contains('\n')
            &&& kept.len() < message.len() ==> spec_byte_len(
                one_line(message).take(kept.len() as int + 1),
            ) > MAX_MESSAGE_BYTES
        }),
{
    lemma_capped_is_longest(one_line(message), MAX_MESSAGE_BYTES as int);
    let kept = log_entry(timestamp_ms, level, message).message;
    assert(one_line(message).take(kept.len() as int) =~= kept);
}

/// A log never outgrows its limit.
pub proof fn law_log_is_bounded(entries: Seq<LogModel>, entry: LogModel)
    requires
        entries.len() <= MAX_LOG_ENTRIES,
    ensures
        with_entry(entries, entry).len() <= MAX_LOG_ENTRIES,
        with_entry(entries, entry).last() == entry,
{
}

proof fn lemma_severe(entries: Seq<LogModel>, least: u8)
    ensures
        forall|i: int|
            0 <= i < severe(entries, least).len() ==> {
                &&& entries.contains(#[trigger] severe(entries, least)[i])
                &&& severity(severe(entries, least)[i].level) >= least
            },
    decreases entries.len(),
{
    reveal(Seq::filter);
    if entries.len() > 0 {
        let rest = entries.drop_last();
        lemma_severe(rest, least);
        let found = severe(entries, least);
        assert forall|i: int| 0 <= i < found.len() implies {
            &&& entries.contains(#[trigger] found[i])
            &&& severity(found[i].level) >= least
        } by {
            if i < severe(rest, least).len() {
                assert(found[i] == severe(rest, least)[i]);
                assert(entries[rest.index_of(found[i])] == found[i]);
            } else {
                assert(entries[entries.len() - 1] == found[i]);
            }
        }
    }
}

/// What is read of a log is never longer than asked, and every entry of it is
/// one of the log's and severe enough.
pub proof fn law_reading_a_log(entries: Seq<LogModel>, limit: u16, min_level: Option<&str>)
    ensures
        recent(entries, limit, min_level).len() <= limit,
        recent(entries, limit, min_level).len() <= MAX_LOG_ENTRIES,
        forall|i: int|
            0 <= i < recent(entries, limit, min_level).len() ==> {
                &&& entries.contains(#[trigger] recent(entries, limit, min_level)[i])
                &&& severity(recent(entries, limit, min_level)[i].level) >= threshold(min_level)
            },
{
    let least = threshold(min_level);
    let found = severe(entries, least);
    let read = recent(entries, limit, min_level);
    assert forall|i: int| 0 <= i < read.len() implies {
        &&& entries.contains(#[trigger] read[i])
        &&& severity(read[i].level) >= least
    } by {
        lemma_severe(entries, least);
        let j = found.len() - read.len() + i;
        assert(read[i] == found[j]);
    }
}

/// The text spells a name, whatever the case of its letters.
pub open spec fn spells(text: Seq<char>, name: Seq<char>) -> bool {
    &&& text.len() == name.len()
    &&& forall|i: int| 0 <= i < text.len() ==> ascii_lower(#[trigger] text[i]) == name[i]
}

proof fn lemma_spells(text: Seq<char>, name: Seq<char>)
    ensures
        spells(text, name) <==> lowered(text) == name,
{
    if spells(text, name) {
        assert(lowered(text) =~= name);
    } else if lowered(text) == name {
        assert forall|i: int| 0 <= i < text.len() implies ascii_lower(#[trigger] text[i])
            == name[i] by {
            assert(lowered(text)[i] == name[i]);
        }
    }
}

/// A level is known by its name in any case, `warning` being another name for
/// `warn`; whatever is not known is `info`. From trace to error each level is
/// one more severe than the one before.
pub proof fn law_levels_are_known_by_name(level: Seq<char>)
    ensures
        spells(level, "trace"@) ==> normal_level(level) == "trace"@ && severity(level) == 0,
        spells(level, "debug"@) ==> normal_level(level) == "debug"@ && severity(level) == 1,
        spells(level, "warn"@) ==> normal_level(level) == "warn"@ && severity(level) == 3,
        spells(level, "warning"@) ==> normal_level(level) == "warn"@ && severity(level) == 3,
        spells(level, "error"@) ==> normal_level(level) == "error"@ && severity(level) == 4,
        !spells(level, "trace"@) && !spells(level, "debug"@) && !spells(level, "warn"@) && !spells(
            level,
            "warning"@,
        ) && !spells(level, "error"@) ==> normal_level(level) == "info"@ && severity(level) == 2,
{
    lemma_spells(level, "trace"@);
    lemma_spells(level, "debug"@);
    lemma_spells(level, "warn"@);
    lemma_spells(level, "warning"@);
    lemma_spells(level, "error"@);
    reveal_strlit("trace");
    reveal_strlit("debug");
    reveal_strlit("warn");
    reveal_strlit("warning");
    reveal_strlit("error");
    assert("trace"@.len() == 5 && "trace"@[0] == 't');
    assert("debug"@.len() == 5 && "debug"@[0] == 'd');
    assert("warn"@.len() == 4);
    assert("warning"@.len() == 7);
    assert("error"@.len() == 5 && "error"@[0] == 'e');
}

proof fn lemma_one_line_bytes(message: Seq<char>)
    ensures
        vstd::utf8::encode_utf8(one_line(message)).len() == vstd::utf8::encode_utf8(message).len(),
    decreases message.len(),
{
    if message.len() > 0 {
        assert(one_line(message).drop_first() =~= one_line(message.drop_first()));
        lemma_one_line_bytes(message.drop_first());
        assert(vstd::utf8::encode_scalar(one_line(message)[0] as u32).len()
            == vstd::utf8::encode_scalar(message[0] as u32).len());
    }
}

/// An entry says when, at what level, and what: the message character by
/// character, with a space for every line break, all of it where it takes at
/// most 4 KiB.
pub proof fn law_entries_say_what_was_reported(
    timestamp_ms: u64,
    level: Seq<char>,
    message: Seq<char>,
)
    ensures
        ({
            let entry = log_entry(timestamp_ms, level, message);
            &&& entry.timestamp_ms == timestamp_ms
            &&& entry.level == normal_level(level)
            &&& entry.message.len() <= message.len()
            &&& vstd::utf8::encode_utf8(message).len() <= 4096 ==> entry.message.len()
                == message.len()
            &&& forall|i: int|
                0 <= i < entry.message.len() ==> #[trigger] entry.message[i] == (if message[i]
                    == '\r' || message[i] == '\n' {
                    ' '
                } else {
                    message[i]
                })
        }),
{
    let line = one_line(message);
    lemma_capped_is_longest(line, MAX_MESSAGE_BYTES as int);
    lemma_one_line_bytes(message);
    if vstd::utf8::encode_utf8(message).len() <= 4096 && capped(
        line,
        MAX_MESSAGE_BYTES as int,
    ).len() < message.len() {
        assert(line.take(line.len() as int) =~= line);
        assert(spec_byte_len(line.take(line.len() as int)) > MAX_MESSAGE_BYTES);
    }
}

/// A log keeps its latest 512 entries in order: what is added comes last, and
/// only the oldest of a full log goes.
pub proof fn law_logs_keep_the_latest(entries: Seq<LogModel>, entry: LogModel)
    ensures
        with_entry(entries, entry).len() > 0,
        with_entry(entries, entry).last() == entry,
        entries.len() == 512 ==> with_entry(entries, entry).drop_last() == entries.drop_first(),
        entries.len() != 512 ==> with_entry(entries, entry).drop_last() == entries,
{
    assert(with_entry(entries, entry).drop_last() =~= if entries.len() == 512 {
        entries.drop_first()
    } else {
        entries
    });
}

/// How reading a log follows its growth: an entry that is not severe enough
/// does not show; one that is comes last, and the oldest one that was read goes
/// where as many as asked, or 512, were read already. Without a level every
/// entry is severe enough.
pub proof fn law_reading_follows_the_log(
    entries: Seq<LogModel>,
    entry: LogModel,
    limit: u16,
    min_level: Option<&str>,
)
    ensures
        recent(Seq::empty(), limit, min_level) == Seq::<LogModel>::empty(),
        limit == 0 ==> recent(entries, limit, min_level) == Seq::<LogModel>::empty(),
        ({
            let before = recent(entries, limit, min_level);
            let after = recent(entries.push(entry), limit, min_level);
            let shows = match min_level {
                Some(level) => severity(entry.level) >= severity(level@),
                None => true,
            };
            &&& !shows ==> after == before
            &&& shows && limit > 0 ==> after.len() > 0 && after.last() == entry
                && after.drop_last() == (if before.len() == limit || before.len() == 512 {
                before.drop_first()
            } else {
                before
            })
        }),
{
    reveal(Seq::filter);
    let least = threshold(min_level);
    let found = severe(entries, least);
    let longer = severe(entries.push(entry), least);
    let before = recent(entries, limit, min_level);
    let after = recent(entries.push(entry), limit, min_level);
    assert(severe(Seq::empty(), least) =~= Seq::empty());
    assert(entries.push(entry).drop_last() =~= entries);
    if limit == 0 {
        assert(before =~= Seq::empty());
    }
    if severity(entry.level) >= least {
        assert(longer =~= found.push(entry));
        if limit > 0 {
            assert(after.drop_last() =~= if before.len() == limit || before.len() == 512 {
                before.drop_first()
            } else {
                before
            });
        }
    } else {
        assert(longer =~= found);
    }
}

} // verus!
