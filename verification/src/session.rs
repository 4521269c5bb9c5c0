//! The interactive read-query-refine-select loop as a state machine: each
//! operator input either ends the session, selects an entry, reports an
//! out-of-range number, or narrows the visible set with a free-text
//! query. The caller performs the printing, reading and clipboard work
//! and feeds each input line to `step`.

use vstd::prelude::*;

use crate::chars::{chars_eq, chars_string, parse_i64_chars, parse_i64_spec, str_chars,
    tokens_of, trim_chars, trim_spec};
use crate::entry::HistoryEntry;
use crate::search::{lemma_retained_monotone, lower_of, query_retains, retained, to_lower};

verus! {

/// What one step of the session decided.
pub enum StepOutcome {
    /// The operator asked to leave; nothing was selected.
    Quit,
    /// An entry was selected: its command text, ready for the clipboard.
    Selected(String),
    /// The entered number has no entry; the visible set is unchanged.
    OutOfRange(i64),
    /// The input was taken as a free-text query and the set was narrowed.
    Refined,
}

/// How an input line is understood, tried in this order: a quit token,
/// a number, else a free-text query.
pub enum InputClass {
    /// `q`, `exit` or `quit`, in any letter case, ends the session.
    Leave,
    /// An integer picks an entry of the visible set.
    Pick(i64),
    /// Anything else narrows the visible set.
    Narrow,
}

/// Whether the trimmed, lowercased input is one of the quit tokens.
pub open spec fn is_quit_input(input: Seq<char>) -> bool {
    let t = lower_of(trim_spec(input));
    t == "q"@ || t == "exit"@ || t == "quit"@
}

/// How the session understands one input line.
pub open spec fn classify_input(input: Seq<char>) -> InputClass {
    if is_quit_input(input) {
        InputClass::Leave
    } else {
        match parse_i64_spec(trim_spec(input)) {
            Option::Some(i) => InputClass::Pick(i),
            Option::None => InputClass::Narrow,
        }
    }
}

/// The subsequence of entries whose raw line the free-text `query`
/// retains, in their original order.
pub open spec fn refine_entries_spec(items: Seq<HistoryEntry>, query: Seq<char>) -> Seq<
    HistoryEntry>
    decreases items.len(),
{
    if items.len() == 0 {
        Seq::empty()
    } else {
        let rest = refine_entries_spec(items.drop_last(), query);
        if retained(items.last().raw_text@, query) {
            rest.push(items.last())
        } else {
            rest
        }
    }
}

/// Every entry refinement keeps was retained by the query.
pub proof fn lemma_refine_entries_all_retained(items: Seq<HistoryEntry>, query: Seq<char>)
    ensures
        forall|i: int|
            0 <= i < refine_entries_spec(items, query).len() ==> retained(
                (#[trigger] refine_entries_spec(items, query)[i]).raw_text@,
                query,
            ),
    decreases items.len(),
{
    if items.len() > 0 {
        lemma_refine_entries_all_retained(items.drop_last(), query);
        let rest = refine_entries_spec(items.drop_last(), query);
        assert forall|i: int| 0 <= i < refine_entries_spec(items, query).len() implies retained(
            (#[trigger] refine_entries_spec(items, query)[i]).raw_text@,
            query,
        ) by {
            if retained(items.last().raw_text@, query) {
                assert(refine_entries_spec(items, query) == rest.push(items.last()));
                if i < rest.len() {
                    assert(refine_entries_spec(items, query)[i] == rest[i]);
                } else {
                    assert(refine_entries_spec(items, query)[i] == items.last());
                }
            } else {
                assert(refine_entries_spec(items, query) == rest);
            }
        }
    }
}

/// Refining a set every entry of which the query retains changes
/// nothing.
pub proof fn lemma_refine_entries_noop(items: Seq<HistoryEntry>, query: Seq<char>)
    requires
        forall|i: int|
            0 <= i < items.len() ==> retained((#[trigger] items[i]).raw_text@, query),
    ensures
        refine_entries_spec(items, query) == items,
    decreases items.len(),
{
    if items.len() == 0 {
        assert(refine_entries_spec(items, query) =~= items);
    } else {
        lemma_refine_entries_noop(items.drop_last(), query);
        assert(refine_entries_spec(items, query) =~= items);
    }
}

/// Within one session, refining twice with the same query narrows
/// exactly as far as refining once.
pub proof fn lemma_refine_entries_idempotent(items: Seq<HistoryEntry>, query: Seq<char>)
    ensures
        refine_entries_spec(refine_entries_spec(items, query), query) == refine_entries_spec(
            items,
            query,
        ),
{
    lemma_refine_entries_all_retained(items, query);
    lemma_refine_entries_noop(refine_entries_spec(items, query), query);
}

/// Once the visible set has been narrowed with `p`, a later query `q`
/// that carries all of `p`'s tokens neither removes nor re-adds an
/// entry.
pub proof fn lemma_refine_entries_superset_noop(
    items: Seq<HistoryEntry>,
    p: Seq<char>,
    q: Seq<char>,
)
    requires
        tokens_of(p).len() > 0,
        forall|k: int|
            0 <= k < tokens_of(p).len() ==> tokens_of(q).contains(#[trigger] tokens_of(p)[k]),
    ensures
        refine_entries_spec(refine_entries_spec(items, p), q) == refine_entries_spec(items, p),
{
    lemma_refine_entries_all_retained(items, p);
    let narrowed = refine_entries_spec(items, p);
    assert forall|i: int| 0 <= i < narrowed.len() implies retained(
        (#[trigger] narrowed[i]).raw_text@,
        q,
    ) by {
        lemma_retained_monotone(narrowed[i].raw_text@, p, q);
    }
    lemma_refine_entries_noop(narrowed, q);
}

/// The interactive session: the visible entries, newest first, and
/// whether the session has ended.
pub struct Session {
    visible: Vec<HistoryEntry>,
    done: bool,
}

impl Session {
    /// The entries the operator currently sees, newest first.
    pub closed spec fn entries_spec(&self) -> Seq<HistoryEntry> {
        self.visible@
    }

    /// Whether the session has reached its terminal state.
    pub closed spec fn is_done_spec(&self) -> bool {
        self.done
    }

    /// Start a session showing `visible`.
    pub fn new(visible: Vec<HistoryEntry>) -> (s: Session)
        ensures
            s.entries_spec() == visible@,
            !s.is_done_spec(),
    {
        Session { visible, done: false }
    }

    /// Borrow the visible entries, for display.
    pub fn entries(&self) -> (r: &Vec<HistoryEntry>)
        ensures
            r@ == self.entries_spec(),
    {
        &self.visible
    }

    /// Whether the session has ended.
    pub fn is_done(&self) -> (r: bool)
        ensures
            r == self.is_done_spec(),
    {
        self.done
    }

    /// Feed one operator input line to the session. A quit token ends
    /// the session; a number in range selects that entry's command and
    /// ends the session; a number out of range changes nothing; any
    /// other input narrows the visible set to the entries its tokens
    /// retain.
    pub fn step(&mut self, input: &str) -> (r: StepOutcome)
        requires
            !old(self).is_done_spec(),
        ensures
            final(self).is_done_spec() == (r is Quit || r is Selected),
            match classify_input(input@) {
                InputClass::Leave => r is Quit && final(self).entries_spec() == old(
                    self,
                ).entries_spec(),
                InputClass::Pick(i) => {
                    &&& final(self).entries_spec() == old(self).entries_spec()
                    &&& if 0 <= i < old(self).entries_spec().len() {
                        r matches StepOutcome::Selected(s) && s@
                            == old(self).entries_spec()[i as int].command@
                    } else {
                        r matches StepOutcome::OutOfRange(j) && j == i
                    }
                },
                InputClass::Narrow => r is Refined && final(self).entries_spec()
                    == refine_entries_spec(old(self).entries_spec(), input@),
            },
    {
        let input_chars = str_chars(input);
        let trimmed_chars = trim_chars(&input_chars);
        let trimmed = chars_string(&trimmed_chars);
        let lower = to_lower(trimmed.as_str());
        let lower_chars = str_chars(lower.as_str());
        let tok_q: Vec<char> = vec!['q'];
        let tok_exit: Vec<char> = vec!['e', 'x', 'i', 't'];
        let tok_quit: Vec<char> = vec!['q', 'u', 'i', 't'];
        proof {
            reveal_strlit("q");
            reveal_strlit("exit");
            reveal_strlit("quit");
            assert(tok_q@ =~= "q"@);
            assert(tok_exit@ =~= "exit"@);
            assert(tok_quit@ =~= "quit"@);
            assert(lower_chars@ == lower_of(trim_spec(input@)));
        }
        if chars_eq(&lower_chars, &tok_q) || chars_eq(&lower_chars, &tok_exit) || chars_eq(
            &lower_chars,
            &tok_quit,
        ) {
            self.done = true;
            return StepOutcome::Quit;
        }
        match parse_i64_chars(&trimmed_chars) {
            Some(i) => {
                let len = self.visible.len();
                if i >= 0 && (i as u128) < (len as u128) {
                    let idx = i as usize;
                    let cmd = self.visible[idx].command.clone();
                    self.done = true;
                    StepOutcome::Selected(cmd)
                } else {
                    StepOutcome::OutOfRange(i)
                }
            },
            None => {
                self.refine(input);
                StepOutcome::Refined
            },
        }
    }

    /// Narrow the visible set to the entries the free-text `query`
    /// retains, keeping their order.
    fn refine(&mut self, query: &str)
        ensures
            final(self).entries_spec() == refine_entries_spec(
                old(self).entries_spec(),
                query@,
            ),
            final(self).is_done_spec() == old(self).is_done_spec(),
    {
        let ghost orig = self.visible@;
        let ghost q = query@;
        let mut i: usize = 0;
        let ghost mut j: int = 0;
        proof {
            assert(orig.subrange(0, 0) =~= Seq::<HistoryEntry>::empty());
            assert(orig.subrange(0, orig.len() as int) =~= orig);
        }
        while i < self.visible.len()
            invariant
                0 <= j <= orig.len(),
                self.done == old(self).done,
                i as int == refine_entries_spec(orig.subrange(0, j), q).len(),
                self.visible@ == refine_entries_spec(orig.subrange(0, j), q) + orig.subrange(
                    j,
                    orig.len() as int,
                ),
                q == query@,
            decreases orig.len() - j,
        {
            proof {
                assert(self.visible@[i as int] == orig.subrange(j, orig.len() as int)[0]);
                assert(orig.subrange(j, orig.len() as int)[0] == orig[j]);
            }
            let ghost pre = orig.subrange(0, j + 1);
            proof {
                assert(pre.drop_last() =~= orig.subrange(0, j));
                assert(pre.last() == orig[j]);
            }
            let keep = query_retains(self.visible[i].raw_text.as_str(), query);
            if keep {
                i = i + 1;
                proof {
                    j = j + 1;
                    assert(self.visible@ =~= refine_entries_spec(orig.subrange(0, j), q)
                        + orig.subrange(j, orig.len() as int));
                }
            } else {
                self.visible.remove(i);
                proof {
                    j = j + 1;
                    assert(self.visible@ =~= refine_entries_spec(orig.subrange(0, j), q)
                        + orig.subrange(j, orig.len() as int));
                }
            }
        }
        proof {
            assert(orig.subrange(j, orig.len() as int).len() == 0);
            assert(j == orig.len());
            assert(orig.subrange(0, j) =~= orig);
            assert(self.visible@ =~= refine_entries_spec(orig, q));
        }
    }
}

} // verus!
