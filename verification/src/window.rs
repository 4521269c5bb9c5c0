//! The load-time window: which raw lines survive the search term and the
//! time constraint, and how the visible set is cut to the requested
//! number of newest entries.

use vstd::prelude::*;

use crate::entry::{entry_matches, parse_entry, timestamp_of, HistoryEntry};
use crate::search::{match_regex, match_regex_spec};

verus! {

/// Seconds in one day, the bound of the day window.
pub const DAY_SECONDS: i64 = 86400;

/// Seconds in thirty days, the bound of the month window.
pub const MONTH_SECONDS: i64 = 2592000;

/// Which time constraint the loaded window is under.
#[derive(Clone, Copy, PartialEq, Eq, Structural, Debug)]
pub enum TimeMode {
    /// No time constraint: every entry qualifies.
    AllTime,
    /// Only entries from the last day onward.
    LastDay,
    /// Only entries within thirty days of now, past or future.
    LastMonth,
}

/// Whether a timestamp falls inside the window `mode` describes, as seen
/// from the moment `now` (both in Unix epoch seconds).
pub open spec fn within_spec(t: i64, mode: TimeMode, now: i64) -> bool {
    match mode {
        TimeMode::AllTime => true,
        TimeMode::LastDay => t as int >= now as int - DAY_SECONDS as int,
        TimeMode::LastMonth => now as int - MONTH_SECONDS as int <= t as int
            && t as int <= now as int + MONTH_SECONDS as int,
    }
}

/// Decide whether the timestamp `t` falls inside the window `mode`, seen
/// from the moment `now`.
pub fn within(t: i64, mode: TimeMode, now: i64) -> (r: bool)
    ensures
        r == within_spec(t, mode, now),
{
    match mode {
        TimeMode::AllTime => true,
        TimeMode::LastDay => (t as i128) >= (now as i128) - (DAY_SECONDS as i128),
        TimeMode::LastMonth => (now as i128) - (MONTH_SECONDS as i128) <= (t as i128)
            && (t as i128) <= (now as i128) + (MONTH_SECONDS as i128),
    }
}

/// The day window is monotone in the timestamp: once a moment qualifies,
/// every later moment qualifies as well, for the same `now`.
pub proof fn lemma_day_window_monotone(t1: i64, t2: i64, now: i64)
    requires
        within_spec(t1, TimeMode::LastDay, now),
        t1 <= t2,
    ensures
        within_spec(t2, TimeMode::LastDay, now),
{
}

/// Whether a raw line survives the load-time filters: it matches the
/// search term when one was given, and, under a time constraint, it
/// carries a timestamp that falls inside the window. Without a search
/// term every line matches; without a time constraint no timestamp is
/// asked for.
pub open spec fn line_kept(
    line: Seq<char>,
    mode: TimeMode,
    search: Option<Seq<char>>,
    now: i64,
) -> bool {
    &&& match search {
        Option::Some(_) => match_regex_spec(line, search),
        Option::None => true,
    }
    &&& match mode {
        TimeMode::AllTime => true,
        _ => match timestamp_of(line) {
            Option::Some(ts) => within_spec(ts, mode, now),
            Option::None => false,
        },
    }
}

/// Filter one raw line: the parsed entry when the line survives the
/// search term and the time constraint, nothing otherwise.
pub fn process_line(line: String, mode: TimeMode, search: &Option<String>, now: i64) -> (r:
    Option<HistoryEntry>)
    ensures
        match r {
            Option::Some(e) => line_kept(line@, mode, search.deep_view(), now)
                && entry_matches(e, line@),
            Option::None => !line_kept(line@, mode, search.deep_view(), now),
        },
{
    let searched = match search {
        Some(_) => match_regex(line.as_str(), search),
        None => true,
    };
    if !searched {
        return None;
    }
    let e = parse_entry(line);
    match mode {
        TimeMode::AllTime => Some(e),
        _ => match e.timestamp {
            Some(ts) => if within(ts, mode, now) {
                Some(e)
            } else {
                None
            },
            None => None,
        },
    }
}

/// The raw lines that survive the load-time filters, in file order.
pub open spec fn kept_lines(
    lines: Seq<Seq<char>>,
    mode: TimeMode,
    search: Option<Seq<char>>,
    now: i64,
) -> Seq<Seq<char>>
    decreases lines.len(),
{
    if lines.len() == 0 {
        Seq::empty()
    } else {
        let rest = kept_lines(lines.drop_last(), mode, search, now);
        if line_kept(lines.last(), mode, search, now) {
            rest.push(lines.last())
        } else {
            rest
        }
    }
}

/// How the visible window relates to the raw lines it was loaded from:
/// it holds the last `limit` surviving lines (all of them, when fewer
/// survive), newest first, each parsed into an entry.
pub open spec fn window_matches(
    w: Seq<HistoryEntry>,
    lines: Seq<Seq<char>>,
    mode: TimeMode,
    search: Option<Seq<char>>,
    now: i64,
    limit: int,
) -> bool {
    let kept = kept_lines(lines, mode, search, now);
    &&& w.len() == (if limit <= kept.len() {
        limit
    } else {
        kept.len() as int
    })
    &&& forall|i: int| 0 <= i < w.len() ==> entry_matches(#[trigger] w[i], kept[kept.len() - 1 - i])
}

/// Load the visible window from the raw history lines: keep the lines
/// that survive the search term and the time constraint as of `now`,
/// parse them, and present the newest `limit` of them, newest first.
pub fn build_window(
    lines: Vec<String>,
    mode: TimeMode,
    search: &Option<String>,
    limit: usize,
    now: i64,
) -> (r: Vec<HistoryEntry>)
    ensures
        window_matches(r@, lines.deep_view(), mode, search.deep_view(), now, limit as int),
{
    let ghost all = lines.deep_view();
    let ghost q = search.deep_view();
    let mut filtered: Vec<HistoryEntry> = Vec::new();
    let mut i: usize = 0;
    proof {
        assert(all.subrange(0, 0) =~= Seq::<Seq<char>>::empty());
    }
    while i < lines.len()
        invariant
            0 <= i <= lines@.len(),
            all == lines.deep_view(),
            q == search.deep_view(),
            all.len() == lines@.len(),
            filtered@.len() == kept_lines(all.subrange(0, i as int), mode, q, now).len(),
            forall|j: int|
                0 <= j < filtered@.len() ==> entry_matches(
                    #[trigger] filtered@[j],
                    kept_lines(all.subrange(0, i as int), mode, q, now)[j],
                ),
        decreases lines@.len() - i,
    {
        let ghost pre = all.subrange(0, i + 1);
        proof {
            assert(pre.drop_last() =~= all.subrange(0, i as int));
            assert(pre.last() == all[i as int]);
            assert(all[i as int] == lines@[i as int]@);
        }
        let e_opt = process_line(lines[i].clone(), mode, search, now);
        match e_opt {
            Some(e) => {
                filtered.push(e);
            },
            None => {},
        }
        i = i + 1;
    }
    proof {
        assert(all.subrange(0, all.len() as int) =~= all);
    }
    let ghost kept = kept_lines(all, mode, q, now);
    let klim = if limit < filtered.len() {
        limit
    } else {
        filtered.len()
    };
    let mut r: Vec<HistoryEntry> = Vec::new();
    let mut j: usize = 0;
    while j < klim
        invariant
            0 <= j <= klim,
            klim <= kept.len(),
            klim == (if limit as int <= kept.len() {
                limit as int
            } else {
                kept.len() as int
            }),
            filtered@.len() == kept.len() - j,
            forall|m: int|
                0 <= m < filtered@.len() ==> entry_matches(#[trigger] filtered@[m], kept[m]),
            r@.len() == j,
            forall|m: int|
                0 <= m < j ==> entry_matches(#[trigger] r@[m], kept[kept.len() - 1 - m]),
        decreases klim - j,
    {
        let e = filtered.pop().unwrap();
        r.push(e);
        j = j + 1;
    }
    r
}

/// Relies on chrono::Local::now and chrono::DateTime::timestamp: the
/// current local moment in Unix epoch seconds. Nothing fixed can be
/// promised of a clock reading.
#[verifier::external_body]
fn now_seconds() -> i64 {
    chrono::Local::now().timestamp()
}

/// Load the visible window as of the present moment: like
/// `build_window`, with the clock supplying `now`.
pub fn build_window_now(
    lines: Vec<String>,
    mode: TimeMode,
    search: &Option<String>,
    limit: usize,
) -> (r: Vec<HistoryEntry>)
    ensures
        exists|now: i64|
            window_matches(r@, lines.deep_view(), mode, search.deep_view(), now, limit as int),
{
    let now = now_seconds();
    let ghost lv = lines.deep_view();
    let r = build_window(lines, mode, search, limit, now);
    proof {
        assert(window_matches(r@, lv, mode, search.deep_view(), now, limit as int));
    }
    r
}

} // verus!
