//! Turning one raw history line into a structured entry: the command text
//! and, where the line carries one, a Unix timestamp.
//!
//! Extended-format history lines look like `: <timestamp>:<meta>;<command>`.
//! The timestamp is whatever stands between the first and second colon,
//! trimmed and read as an integer; the command is whatever follows the
//! first semicolon. A line that fits neither shape is kept whole: parsing
//! is best-effort and never rejects a line.

use vstd::prelude::*;

use crate::chars::{
    copy_range, find_char, first_idx, lemma_first_idx, parse_i64_chars, parse_i64_spec,
    str_chars, chars_string, trim_chars, trim_spec,
};

verus! {

/// One record of the history file.
pub struct HistoryEntry {
    /// The original line, unmodified; what the operator sees and selects.
    pub raw_text: String,
    /// The portion of the line identified as the executed command; equals
    /// `raw_text` when the line has no structured prefix.
    pub command: String,
    /// Unix epoch seconds, when the line carries a recognizable timestamp
    /// field.
    pub timestamp: Option<i64>,
}

/// The timestamp a raw line denotes: the text between the first colon and
/// the following colon (or the end), trimmed and read as an integer;
/// nothing when the line has no colon or that text is not an integer.
pub open spec fn timestamp_of(line: Seq<char>) -> Option<i64> {
    let i = first_idx(line, ':');
    if i == line.len() {
        Option::None
    } else {
        let rest = line.subrange(i + 1, line.len() as int);
        let field = rest.subrange(0, first_idx(rest, ':'));
        parse_i64_spec(trim_spec(field))
    }
}

/// The command portion of a raw line: everything after the first
/// semicolon, or the whole line when it has none.
pub open spec fn command_of(line: Seq<char>) -> Seq<char> {
    let i = first_idx(line, ';');
    if i == line.len() {
        line
    } else {
        line.subrange(i + 1, line.len() as int)
    }
}

/// How a `HistoryEntry` relates to the raw line it was parsed from.
pub open spec fn entry_matches(e: HistoryEntry, line: Seq<char>) -> bool {
    &&& e.raw_text@ == line
    &&& e.command@ == command_of(line)
    &&& e.timestamp == timestamp_of(line)
}

/// Extract the timestamp field of a raw line, if it carries one.
pub fn parse_timestamp(line: &str) -> (r: Option<i64>)
    ensures
        r == timestamp_of(line@),
{
    let cs = str_chars(line);
    let i = find_char(&cs, ':');
    proof {
        lemma_first_idx(cs@, ':');
    }
    if i == cs.len() {
        return None;
    }
    let rest = copy_range(&cs, i + 1, cs.len());
    let j = find_char(&rest, ':');
    proof {
        lemma_first_idx(rest@, ':');
    }
    let field = copy_range(&rest, 0, j);
    let trimmed = trim_chars(&field);
    parse_i64_chars(&trimmed)
}

/// Turn one raw history line into an entry. Never fails: a line that
/// cannot be decomposed keeps its full text as the command and carries no
/// timestamp.
pub fn parse_entry(line: String) -> (e: HistoryEntry)
    ensures
        entry_matches(e, line@),
{
    let timestamp = parse_timestamp(line.as_str());
    let cs = str_chars(line.as_str());
    let k = find_char(&cs, ';');
    proof {
        lemma_first_idx(cs@, ';');
    }
    let command = if k == cs.len() {
        proof {
            assert(command_of(line@) == line@);
        }
        line.clone()
    } else {
        let tail = copy_range(&cs, k + 1, cs.len());
        chars_string(&tail)
    };
    HistoryEntry { raw_text: line, command, timestamp }
}

/// A line with no colon at all carries no recognizable timestamp field.
pub proof fn lemma_no_colon_no_timestamp(line: Seq<char>)
    requires
        forall|j: int| 0 <= j < line.len() ==> line[j] != ':',
    ensures
        timestamp_of(line) is None,
{
    lemma_first_idx(line, ':');
}

} // verus!
