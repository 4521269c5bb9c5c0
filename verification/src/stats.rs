//! Command frequency statistics: count the first one or two words of each
//! command across a window, then rank tokens by how often they occur.
//! Counts live in an association list in first-seen order, and the
//! ranking is a stable sort on the count, so ties keep first-seen order.

use vstd::prelude::*;

use crate::chars::{copy_range, find_char, first_idx, lemma_first_idx, split_tokens, str_chars,
    chars_string, tokens_of};

verus! {

/// The part of `line` after the first `delimiter`, or the whole line
/// when the delimiter does not occur: the command portion counted by the
/// statistics.
pub open spec fn delimited_tail(line: Seq<char>, delimiter: char) -> Seq<char> {
    let i = first_idx(line, delimiter);
    if i == line.len() {
        line
    } else {
        line.subrange(i + 1, line.len() as int)
    }
}

/// At most the first two whitespace tokens of a command.
pub open spec fn first_two_tokens(cmd: Seq<char>) -> Seq<Seq<char>> {
    let toks = tokens_of(cmd);
    if toks.len() <= 2 {
        toks
    } else {
        toks.subrange(0, 2)
    }
}

/// One token counted once more: its pair is incremented in place, or
/// appended with count one when the token is new.
pub open spec fn bump_spec(counts: Seq<(Seq<char>, int)>, tok: Seq<char>) -> Seq<(Seq<char>, int)>
    decreases counts.len(),
{
    if counts.len() == 0 {
        seq![(tok, 1int)]
    } else if counts[0].0 == tok {
        seq![(counts[0].0, counts[0].1 + 1)] + counts.drop_first()
    } else {
        seq![counts[0]] + bump_spec(counts.drop_first(), tok)
    }
}

/// A list of tokens counted in order.
pub open spec fn bump_all_spec(
    counts: Seq<(Seq<char>, int)>,
    toks: Seq<Seq<char>>,
) -> Seq<(Seq<char>, int)>
    decreases toks.len(),
{
    if toks.len() == 0 {
        counts
    } else {
        bump_all_spec(bump_spec(counts, toks[0]), toks.drop_first())
    }
}

/// The token counts of a whole command list, commands processed in
/// order, each contributing at most its first two tokens.
pub open spec fn counts_of(cmds: Seq<Seq<char>>, delimiter: char) -> Seq<(Seq<char>, int)>
    decreases cmds.len(),
{
    if cmds.len() == 0 {
        Seq::empty()
    } else {
        bump_all_spec(
            counts_of(cmds.drop_last(), delimiter),
            first_two_tokens(delimited_tail(cmds.last(), delimiter)),
        )
    }
}

/// `x` inserted into `s` after every pair whose count is at least as
/// large: descending order, and a tie goes behind what was seen earlier.
pub open spec fn insert_desc(
    x: (Seq<char>, int),
    s: Seq<(Seq<char>, int)>,
) -> Seq<(Seq<char>, int)>
    decreases s.len(),
{
    if s.len() == 0 {
        seq![x]
    } else if s[0].1 >= x.1 {
        seq![s[0]] + insert_desc(x, s.drop_first())
    } else {
        seq![x] + s
    }
}

/// Stable insertion sort by count, descending: pairs with equal counts
/// keep their original relative order.
pub open spec fn sort_desc(s: Seq<(Seq<char>, int)>) -> Seq<(Seq<char>, int)>
    decreases s.len(),
{
    if s.len() == 0 {
        Seq::empty()
    } else {
        insert_desc(s.last(), sort_desc(s.drop_last()))
    }
}

/// The ranked statistics of a command list: its token counts, sorted by
/// count descending, first-seen first among ties.
pub open spec fn ranked_counts(cmds: Seq<Seq<char>>, delimiter: char) -> Seq<(Seq<char>, int)> {
    sort_desc(counts_of(cmds, delimiter))
}

/// The executable pairs carry exactly the mathematical pairs: same
/// length, same token text, same count.
pub open spec fn counts_match(r: Seq<(String, usize)>, s: Seq<(Seq<char>, int)>) -> bool {
    &&& r.len() == s.len()
    &&& forall|i: int|
        0 <= i < r.len() ==> (#[trigger] r[i]).0@ == s[i].0 && r[i].1 as int == s[i].1
}

/// Running token counts, in first-seen order.
pub struct CommandCounts {
    pairs: Vec<(String, usize)>,
    total: usize,
}

impl CommandCounts {
    /// The counts as a sequence of (token, count) pairs.
    pub closed spec fn counts(&self) -> Seq<(Seq<char>, int)> {
        Seq::new(self.pairs@.len(), |i: int| (self.pairs@[i].0@, self.pairs@[i].1 as int))
    }

    /// How many tokens have been counted in all.
    pub closed spec fn total_spec(&self) -> int {
        self.total as int
    }

    /// No single count can exceed the number of tokens counted.
    pub closed spec fn wf(&self) -> bool {
        forall|i: int| 0 <= i < self.pairs@.len() ==> (#[trigger] self.pairs@[i]).1 <= self.total
    }

    /// An empty tally.
    pub fn new() -> (r: Self)
        ensures
            r.wf(),
            r.counts() == Seq::<(Seq<char>, int)>::empty(),
            r.total_spec() == 0,
    {
        let r = CommandCounts { pairs: Vec::new(), total: 0 };
        proof {
            assert(r.counts() =~= Seq::<(Seq<char>, int)>::empty());
        }
        r
    }

    /// Borrow the tallied pairs, in first-seen order.
    pub fn pairs(&self) -> (r: &Vec<(String, usize)>)
        ensures
            counts_match(r@, self.counts()),
    {
        proof {
            assert forall|i: int| 0 <= i < self.pairs@.len() implies (#[trigger] self.pairs@[i]).0@
                == self.counts()[i].0 && self.pairs@[i].1 as int == self.counts()[i].1 by {}
        }
        &self.pairs
    }

    /// Count one more occurrence of `tok`.
    fn bump(&mut self, tok: &Vec<char>)
        requires
            old(self).wf(),
            old(self).total_spec() < usize::MAX,
        ensures
            final(self).wf(),
            final(self).counts() == bump_spec(old(self).counts(), tok@),
            final(self).total_spec() == old(self).total_spec() + 1,
    {
        let ghost orig = self.counts();
        let key = chars_string(tok);
        let n = self.pairs.len();
        let mut idx: usize = 0;
        let mut found = false;
        while !found && idx < n
            invariant
                0 <= idx <= n,
                n == self.pairs@.len(),
                self.pairs@ == old(self).pairs@,
                self.total == old(self).total,
                key@ == tok@,
                forall|m: int| 0 <= m < idx ==> (#[trigger] self.pairs@[m]).0@ != tok@,
                found ==> idx < n && self.pairs@[idx as int].0@ == tok@,
            decreases n - idx + (if found {
                0int
            } else {
                1int
            }),
        {
            if self.pairs[idx].0 == key {
                found = true;
            } else {
                idx = idx + 1;
            }
        }
        if found {
            let c = self.pairs[idx].1;
            proof {
                assert(orig[idx as int] == (self.pairs@[idx as int].0@, c as int));
                assert(orig[idx as int].1 == c as int);
                assert(c <= self.total);
                assert forall|m: int| 0 <= m < idx implies (#[trigger] orig[m]).0
                    != tok@ by {
                    assert(orig[m].0 == self.pairs@[m].0@);
                }
                lemma_bump_found(orig, tok@, idx as int);
            }
            self.pairs[idx] = (key, c + 1);
            self.total = self.total + 1;
            proof {
                assert(self.counts() =~= orig.update(idx as int, (tok@, c as int + 1)));
            }
        } else {
            proof {
                assert forall|m: int| 0 <= m < orig.len() implies (#[trigger] orig[m]).0
                    != tok@ by {
                    assert(orig[m].0 == self.pairs@[m].0@);
                }
                lemma_bump_absent(orig, tok@);
            }
            self.pairs.push((key, 1));
            self.total = self.total + 1;
            proof {
                assert(self.counts() =~= orig.push((tok@, 1int)));
            }
        }
    }
}

/// Where `tok` already has a pair, counting it once more increments that
/// pair in place.
proof fn lemma_bump_found(counts: Seq<(Seq<char>, int)>, tok: Seq<char>, j: int)
    requires
        0 <= j < counts.len(),
        counts[j].0 == tok,
        forall|m: int| 0 <= m < j ==> (#[trigger] counts[m]).0 != tok,
    ensures
        bump_spec(counts, tok) == counts.update(j, (tok, counts[j].1 + 1)),
    decreases j,
{
    if j == 0 {
        assert(bump_spec(counts, tok) =~= counts.update(0, (tok, counts[0].1 + 1)));
    } else {
        let rest = counts.drop_first();
        assert(forall|m: int| 0 <= m < j - 1 ==> (#[trigger] rest[m]).0 == counts[m + 1].0);
        lemma_bump_found(rest, tok, j - 1);
        assert(bump_spec(counts, tok) =~= counts.update(j, (tok, counts[j].1 + 1)));
    }
}

/// Where `tok` has no pair yet, counting it appends a pair with count
/// one.
proof fn lemma_bump_absent(counts: Seq<(Seq<char>, int)>, tok: Seq<char>)
    requires
        forall|m: int| 0 <= m < counts.len() ==> (#[trigger] counts[m]).0 != tok,
    ensures
        bump_spec(counts, tok) == counts.push((tok, 1int)),
    decreases counts.len(),
{
    if counts.len() == 0 {
        assert(bump_spec(counts, tok) =~= counts.push((tok, 1int)));
    } else {
        let rest = counts.drop_first();
        assert(forall|m: int| 0 <= m < rest.len() ==> (#[trigger] rest[m]).0 == counts[m + 1].0);
        lemma_bump_absent(rest, tok);
        assert(bump_spec(counts, tok) =~= counts.push((tok, 1int)));
    }
}

/// Count the first one or two whitespace tokens of the command portion
/// of `line` (everything after the first `delimiter`, or the whole line
/// without one).
pub fn extract_unique_commands(line: &str, delimiter: char, unique_cmds: &mut CommandCounts)
    requires
        old(unique_cmds).wf(),
        old(unique_cmds).total_spec() + 2 <= usize::MAX,
    ensures
        final(unique_cmds).wf(),
        final(unique_cmds).counts() == bump_all_spec(
            old(unique_cmds).counts(),
            first_two_tokens(delimited_tail(line@, delimiter)),
        ),
        old(unique_cmds).total_spec() <= final(unique_cmds).total_spec()
            <= old(unique_cmds).total_spec() + 2,
{
    let ghost orig = unique_cmds.counts();
    let cs = str_chars(line);
    let i = find_char(&cs, delimiter);
    proof {
        lemma_first_idx(cs@, delimiter);
    }
    let cmd = if i == cs.len() {
        cs
    } else {
        copy_range(&cs, i + 1, cs.len())
    };
    let ghost tail = delimited_tail(line@, delimiter);
    let toks = split_tokens(&cmd);
    let ghost ftt = first_two_tokens(tail);
    proof {
        assert(cmd@ == tail);
        assert(toks.deep_view() == tokens_of(tail));
    }
    if toks.len() == 0 {
        proof {
            assert(ftt.len() == 0);
            assert(bump_all_spec(orig, ftt) == orig);
        }
        return ;
    }
    proof {
        assert(ftt[0] == toks.deep_view()[0]);
        assert(toks.deep_view()[0] == toks@[0]@);
    }
    unique_cmds.bump(&toks[0]);
    if toks.len() >= 2 {
        proof {
            assert(ftt.len() == 2);
            assert(ftt[1] == toks.deep_view()[1]);
            assert(toks.deep_view()[1] == toks@[1]@);
            assert(ftt.drop_first() =~= seq![toks@[1]@]);
            assert(ftt.drop_first().drop_first() =~= Seq::<Seq<char>>::empty());
        }
        unique_cmds.bump(&toks[1]);
        proof {
            let c1 = bump_spec(orig, ftt[0]);
            assert(bump_all_spec(orig, ftt) == bump_all_spec(c1, ftt.drop_first()));
            assert(ftt.drop_first()[0] == toks@[1]@);
            assert(bump_all_spec(c1, ftt.drop_first()) == bump_all_spec(
                bump_spec(c1, toks@[1]@),
                ftt.drop_first().drop_first(),
            ));
            assert(bump_all_spec(bump_spec(c1, toks@[1]@), ftt.drop_first().drop_first())
                == bump_spec(c1, toks@[1]@));
        }
    } else {
        proof {
            assert(ftt.len() == 1);
            assert(ftt.drop_first() =~= Seq::<Seq<char>>::empty());
            let c1 = bump_spec(orig, ftt[0]);
            assert(bump_all_spec(orig, ftt) == bump_all_spec(c1, ftt.drop_first()));
            assert(bump_all_spec(c1, ftt.drop_first()) == c1);
        }
    }
}

/// `x` inserted at the first position whose count is smaller lands
/// exactly where the stable descending insertion puts it.
proof fn lemma_insert_desc_at(x: (Seq<char>, int), s: Seq<(Seq<char>, int)>, p: int)
    requires
        0 <= p <= s.len(),
        forall|m: int| 0 <= m < p ==> (#[trigger] s[m]).1 >= x.1,
        p < s.len() ==> s[p].1 < x.1,
    ensures
        insert_desc(x, s) == s.subrange(0, p) + seq![x] + s.subrange(p, s.len() as int),
    decreases p,
{
    if p == 0 {
        assert(insert_desc(x, s) =~= s.subrange(0, 0) + seq![x] + s.subrange(0, s.len() as int));
    } else {
        let rest = s.drop_first();
        assert(forall|m: int| 0 <= m < rest.len() ==> #[trigger] rest[m] == s[m + 1]);
        lemma_insert_desc_at(x, rest, p - 1);
        assert(insert_desc(x, s) =~= s.subrange(0, p) + seq![x] + s.subrange(p, s.len() as int));
    }
}

/// Counts never increase along the sequence: the ranking is descending.
pub open spec fn sorted_by_count_desc(s: Seq<(Seq<char>, int)>) -> bool {
    forall|i: int, j: int| 0 <= i <= j < s.len() ==> (#[trigger] s[i]).1 >= (#[trigger] s[j]).1
}

proof fn lemma_insert_desc_bound(x: (Seq<char>, int), s: Seq<(Seq<char>, int)>, b: int)
    requires
        x.1 <= b,
        forall|m: int| 0 <= m < s.len() ==> (#[trigger] s[m]).1 <= b,
    ensures
        insert_desc(x, s).len() == s.len() + 1,
        forall|m: int| 0 <= m < insert_desc(x, s).len() ==> (#[trigger] insert_desc(x, s)[m]).1
            <= b,
    decreases s.len(),
{
    if s.len() == 0 {
    } else if s[0].1 >= x.1 {
        let rest = s.drop_first();
        assert(forall|m: int| 0 <= m < rest.len() ==> (#[trigger] rest[m]).1 == s[m + 1].1);
        lemma_insert_desc_bound(x, rest, b);
        assert(forall|m: int|
            1 <= m < insert_desc(x, s).len() ==> (#[trigger] insert_desc(x, s)[m]).1
                == insert_desc(x, rest)[m - 1].1);
    } else {
    }
}

proof fn lemma_insert_desc_sorted(x: (Seq<char>, int), s: Seq<(Seq<char>, int)>)
    requires
        sorted_by_count_desc(s),
    ensures
        sorted_by_count_desc(insert_desc(x, s)),
    decreases s.len(),
{
    if s.len() == 0 {
    } else if s[0].1 >= x.1 {
        let rest = s.drop_first();
        assert(forall|m: int| 0 <= m < rest.len() ==> (#[trigger] rest[m]).1 == s[m + 1].1);
        lemma_insert_desc_sorted(x, rest);
        lemma_insert_desc_bound(x, rest, s[0].1);
        let r = insert_desc(x, s);
        assert(forall|m: int|
            1 <= m < r.len() ==> (#[trigger] r[m]).1 == insert_desc(x, rest)[m - 1].1);
        assert forall|i: int, j: int| 0 <= i <= j < r.len() implies (#[trigger] r[i]).1
            >= (#[trigger] r[j]).1 by {
            if i == 0 {
                assert(r[0].1 == s[0].1);
            }
        }
    } else {
    }
}

proof fn lemma_sort_desc_sorted(s: Seq<(Seq<char>, int)>)
    ensures
        sorted_by_count_desc(sort_desc(s)),
    decreases s.len(),
{
    if s.len() > 0 {
        lemma_sort_desc_sorted(s.drop_last());
        lemma_insert_desc_sorted(s.last(), sort_desc(s.drop_last()));
    }
}

/// The ranked statistics list frequencies highest first: a token never
/// stands behind one counted fewer times.
pub proof fn lemma_ranked_counts_sorted(cmds: Seq<Seq<char>>, delimiter: char)
    ensures
        sorted_by_count_desc(ranked_counts(cmds, delimiter)),
{
    lemma_sort_desc_sorted(counts_of(cmds, delimiter));
}

/// Tally the commands of `lines` and rank the counted tokens by
/// frequency, highest first; tokens with equal counts stay in first-seen
/// order.
pub fn process_cmds(lines: Vec<String>, delimiter: char) -> (r: Vec<(String, usize)>)
    requires
        lines@.len() <= usize::MAX / 2,
    ensures
        counts_match(r@, ranked_counts(lines.deep_view(), delimiter)),
{
    let ghost all = lines.deep_view();
    let mut counts = CommandCounts::new();
    let mut i: usize = 0;
    proof {
        assert(all.subrange(0, 0) =~= Seq::<Seq<char>>::empty());
    }
    while i < lines.len()
        invariant
            0 <= i <= lines@.len(),
            lines@.len() <= usize::MAX / 2,
            all == lines.deep_view(),
            all.len() == lines@.len(),
            counts.wf(),
            counts.counts() == counts_of(all.subrange(0, i as int), delimiter),
            counts.total_spec() <= 2 * i,
        decreases lines@.len() - i,
    {
        let ghost pre = all.subrange(0, i + 1);
        proof {
            assert(pre.drop_last() =~= all.subrange(0, i as int));
            assert(pre.last() == all[i as int]);
            assert(all[i as int] == lines@[i as int]@);
        }
        extract_unique_commands(lines[i].as_str(), delimiter, &mut counts);
        i = i + 1;
    }
    proof {
        assert(all.subrange(0, all.len() as int) =~= all);
    }
    let ghost tallied = counts_of(all, delimiter);
    let n = counts.pairs.len();
    let mut out: Vec<(String, usize)> = Vec::new();
    let mut k: usize = 0;
    proof {
        assert(tallied.subrange(0, 0) =~= Seq::<(Seq<char>, int)>::empty());
        assert(counts.counts().len() == n);
    }
    while k < n
        invariant
            0 <= k <= n,
            n == counts.pairs@.len(),
            counts.counts() == tallied,
            tallied.len() == n,
            counts_match(out@, sort_desc(tallied.subrange(0, k as int))),
        decreases n - k,
    {
        let ghost sorted = sort_desc(tallied.subrange(0, k as int));
        let ghost x = tallied[k as int];
        proof {
            let pre = tallied.subrange(0, k + 1);
            assert(pre.drop_last() =~= tallied.subrange(0, k as int));
            assert(pre.last() == tallied[k as int]);
            assert(x == (counts.pairs@[k as int].0@, counts.pairs@[k as int].1 as int));
        }
        let key = counts.pairs[k].0.clone();
        let c = counts.pairs[k].1;
        let mut p: usize = 0;
        while p < out.len() && out[p].1 >= c
            invariant
                0 <= p <= out@.len(),
                counts_match(out@, sorted),
                x.1 == c as int,
                forall|m: int| 0 <= m < p ==> (#[trigger] sorted[m]).1 >= x.1,
            decreases out@.len() - p,
        {
            proof {
                assert(sorted[p as int].1 == out@[p as int].1 as int);
            }
            p = p + 1;
        }
        proof {
            if (p as int) < sorted.len() {
                assert(sorted[p as int].1 == out@[p as int].1 as int);
            }
            lemma_insert_desc_at(x, sorted, p as int);
        }
        let ghost old_out = out@;
        out.insert(p, (key, c));
        proof {
            assert(out@ =~= old_out.subrange(0, p as int) + seq![(key, c)]
                + old_out.subrange(p as int, old_out.len() as int));
            let target = sorted.subrange(0, p as int) + seq![x]
                + sorted.subrange(p as int, sorted.len() as int);
            assert(insert_desc(x, sorted) == target);
            assert forall|m: int| 0 <= m < out@.len() implies (#[trigger] out@[m]).0@
                == target[m].0 && out@[m].1 as int == target[m].1 by {
                if m < p {
                    assert(out@[m] == old_out[m]);
                    assert(target[m] == sorted[m]);
                } else if m == p {
                    assert(out@[m] == (key, c));
                    assert(target[m] == x);
                } else {
                    assert(out@[m] == old_out[m - 1]);
                    assert(target[m] == sorted[m - 1]);
                }
            }
        }
        k = k + 1;
    }
    proof {
        assert(tallied.subrange(0, tallied.len() as int) =~= tallied);
    }
    out
}

} // verus!
