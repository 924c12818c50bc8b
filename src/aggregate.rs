//! Tallies of whole files, and of many files together.
use vstd::prelude::*;
use crate::record::{eligible, line_record};
use crate::tally::{add_record, bounded, empty_view, lemma_merge_identity, merge_view, Tally, TallyView};
use crate::text::{lemma_split_on_bound, lemma_split_on_first, lemma_split_on_plain, split_fields, split_on, split_once};

verus! {

/// `t` after reading `line`: counted where it is a record in the window,
/// unchanged where it is outside the window or is no record.
pub open spec fn add_line(t: TallyView, line: Seq<char>, start: i64, end: i64) -> TallyView {
    match line_record(line, start, end) {
        Ok(Some((domain, status))) => add_record(t, domain, status),
        _ => t,
    }
}

/// The tally of `lines`, read in order.
pub open spec fn tally_lines(lines: Seq<Seq<char>>, start: i64, end: i64) -> TallyView
    decreases lines.len(),
{
    if lines.len() == 0 {
        empty_view()
    } else {
        add_line(tally_lines(lines.drop_last(), start, end), lines.last(), start, end)
    }
}

/// The tally of a file's text: its lines are the pieces between newlines.
///
/// A line that ends in a carriage return keeps it here; fields are trimmed, and a
/// line too short to hold five fields is no record, so the tally is the same.
pub open spec fn tally_of(content: Seq<char>, start: i64, end: i64) -> TallyView {
    tally_lines(split_on(content, '\n'), start, end)
}

/// Counts the records of a file's text whose timestamps lie in `[start, end)`;
/// lines that are not records are skipped.
pub fn parse_bytes(buffer: &str, start: i64, end: i64) -> (r: Tally)
    ensures
        r.wf(),
        r@ == tally_of(buffer@, start, end),
        bounded(r@),
{
    // The character count fits in `usize`, and each counted record takes at least
    // one character: this is what keeps the total below `u64::MAX`.
    let length = buffer.unicode_len();
    let mut r = Tally::new();
    let mut rest: &str = buffer;
    let ghost mut done: Seq<Seq<char>> = Seq::empty();
    loop
        invariant
            r.wf(),
            length == buffer@.len(),
            done + split_on(rest@, '\n') == split_on(buffer@, '\n'),
            r@ == tally_lines(done, start, end),
            r@.total + rest@.len() <= buffer@.len(),
        decreases rest@.len(),
    {
        let (line, next, last) = match split_once(rest, '\n') {
            Some((a, b)) => {
                proof {
                    lemma_split_on_first(a@, b@, '\n');
                    assert(done + split_on(rest@, '\n') =~= done.push(a@) + split_on(b@, '\n'));
                }
                (a, b, false)
            },
            None => {
                proof {
                    lemma_split_on_plain(rest@, '\n');
                    assert(done + split_on(rest@, '\n') =~= done.push(rest@));
                }
                (rest, rest, true)
            },
        };
        let fields = split_fields(line);
        match eligible(fields, start, end) {
            Ok(Some((domain, status))) => {
                proof {
                    lemma_split_on_bound(line@, '|');
                    r.lemma_wf_bounded();
                }
                r.count_record(&domain, status);
            },
            _ => {},
        }
        proof {
            assert(done.push(line@).drop_last() =~= done);
            done = done.push(line@);
        }
        if last {
            proof {
                assert(done =~= split_on(buffer@, '\n'));
                r.lemma_wf_bounded();
            }
            return r;
        }
        rest = next;
    }
}

/// What a file's result contributes: its tally, or nothing where it failed.
pub open spec fn result_view(o: Option<Tally>) -> TallyView {
    match o {
        Some(t) => t@,
        None => empty_view(),
    }
}

/// The merge of all results, in order.
pub open spec fn merged_results(s: Seq<Option<Tally>>) -> TallyView
    decreases s.len(),
{
    if s.len() == 0 {
        empty_view()
    } else {
        merge_view(merged_results(s.drop_last()), result_view(s.last()))
    }
}

proof fn lemma_merged_total_grows(s: Seq<Option<Tally>>, i: int, j: int)
    requires
        0 <= i <= j <= s.len(),
    ensures
        merged_results(s.take(i)).total <= merged_results(s.take(j)).total,
    decreases j - i,
{
    if i < j {
        lemma_merged_total_grows(s, i, j - 1);
        assert(s.take(j).drop_last() =~= s.take(j - 1));
    }
}

/// A file that failed contributes nothing to the merge.
pub proof fn lemma_failed_contributes_nothing(s: Seq<Option<Tally>>)
    ensures
        merged_results(s.push(None)) == merged_results(s),
{
    assert(s.push(None).drop_last() =~= s);
    lemma_merge_identity(merged_results(s));
}

/// Merges the tallies of all files; a failed file (`None`) contributes nothing.
pub fn merge_all(results: Vec<Option<Tally>>) -> (r: Tally)
    requires
        forall|i: int| 0 <= i < results@.len() && #[trigger] results@[i] is Some ==> results@[i]->0.wf(),
        merged_results(results@).total <= u64::MAX,
    ensures
        r.wf(),
        r@ == merged_results(results@),
{
    let mut r = Tally::new();
    assert(results@.take(0) =~= Seq::<Option<Tally>>::empty());
    for i in 0..results.len()
        invariant
            r.wf(),
            forall|i: int| 0 <= i < results@.len() && #[trigger] results@[i] is Some ==> results@[i]->0.wf(),
            merged_results(results@).total <= u64::MAX,
            r@ == merged_results(results@.take(i as int)),
    {
        proof {
            assert(results@.take(i + 1).drop_last() =~= results@.take(i as int));
            lemma_merged_total_grows(results@, i + 1, results@.len() as int);
            assert(results@.take(results@.len() as int) =~= results@);
        }
        match &results[i] {
            Some(t) => {
                r = r.merge(t);
            },
            None => {
                proof {
                    lemma_merge_identity(r@);
                }
            },
        }
    }
    assert(results@.take(results@.len() as int) =~= results@);
    r
}

} // verus!
