//! Extraction of labelled numeric values from free-form command output.
use vstd::prelude::*;
use crate::evaluator::{lemma_put_lookup, put, strings_view, TextMap};
use crate::expr::lookup;
use crate::text::{
    alphanumeric, chars_of, contains_infix, has_infix, is_alphanumeric, is_ascii_digit, is_digit,
    lower_of, slice_chars, split, split_seq, string_of, to_lower, views,
};

verus! {

/// A number may start at `i`: a digit, or a `.` followed by a digit, and not
/// right after a letter or digit (so the `1` of `F1` is no number).
pub open spec fn number_starts(line: Seq<char>, i: int) -> bool {
    &&& 0 <= i < line.len()
    &&& (is_digit(line[i]) || (line[i] == '.' && i + 1 < line.len() && is_digit(line[i + 1])))
    &&& (i == 0 || !alphanumeric(line[i - 1]))
}

/// End of the digits and single decimal point that continue a number at `j`.
pub open spec fn number_end(line: Seq<char>, j: int, has_dot: bool) -> int
    decreases line.len() - j,
{
    if 0 <= j < line.len() && is_digit(line[j]) {
        number_end(line, j + 1, has_dot)
    } else if 0 <= j && j + 1 < line.len() && line[j] == '.' && !has_dot && is_digit(line[j + 1]) {
        number_end(line, j + 1, true)
    } else {
        j
    }
}

/// End of the number that starts at `i`.
pub open spec fn token_end(line: Seq<char>, i: int) -> int {
    if line[i] == '.' {
        number_end(line, i + 1, true)
    } else {
        number_end(line, i, false)
    }
}

proof fn lemma_number_end_bounds(line: Seq<char>, j: int, has_dot: bool)
    requires
        0 <= j <= line.len(),
    ensures
        j <= number_end(line, j, has_dot) <= line.len(),
        j < line.len() && is_digit(line[j]) ==> j < number_end(line, j, has_dot),
    decreases line.len() - j,
{
    if j < line.len() && is_digit(line[j]) {
        lemma_number_end_bounds(line, j + 1, has_dot);
    } else if j + 1 < line.len() && line[j] == '.' && !has_dot && is_digit(line[j + 1]) {
        lemma_number_end_bounds(line, j + 1, true);
    }
}

proof fn lemma_token_end_bounds(line: Seq<char>, i: int)
    requires
        number_starts(line, i),
    ensures
        i < token_end(line, i) <= line.len(),
{
    if line[i] == '.' {
        lemma_number_end_bounds(line, i + 1, true);
    } else {
        lemma_number_end_bounds(line, i, false);
    }
}

/// The label of a number: the text since the previous number, or `value`.
pub open spec fn label_text(t: Seq<char>) -> Seq<char> {
    if t.len() == 0 {
        "value"@
    } else {
        t
    }
}

/// The (label, number) pairs of `line` from position `i` on, labels counted
/// from position `from`.
pub open spec fn scan(line: Seq<char>, i: int, from: int) -> Seq<(Seq<char>, Seq<char>)>
    decreases line.len() - i,
{
    if i < 0 || i >= line.len() {
        Seq::empty()
    } else if number_starts(line, i) {
        let e = token_end(line, i);
        // always the case (`lemma_token_end_bounds`); it keeps the recursion well founded
        if i < e <= line.len() {
            seq![(label_text(line.subrange(from, i)), line.subrange(i, e))] + scan(line, e, e)
        } else {
            Seq::empty()
        }
    } else {
        scan(line, i + 1, from)
    }
}

/// The (label, number) pairs of one line, left to right.
pub open spec fn line_pairs(line: Seq<char>) -> Seq<(Seq<char>, Seq<char>)> {
    scan(line, 0, 0)
}

/// A label is kept when there are no filters, or when its lower-cased text
/// contains a lower-cased filter term.
pub open spec fn keep_label(label: Seq<char>, ms: Seq<Seq<char>>) -> bool {
    ms.len() == 0 || exists|i: int|
        0 <= i < ms.len() && has_infix(lower_of(label), lower_of(#[trigger] ms[i]))
}

/// The pairs recorded in order into `m`, each kept one overwriting an
/// earlier value of its label.
pub open spec fn record(
    m: Seq<(Seq<char>, Seq<char>)>,
    pairs: Seq<(Seq<char>, Seq<char>)>,
    ms: Seq<Seq<char>>,
) -> Seq<(Seq<char>, Seq<char>)>
    decreases pairs.len(),
{
    if pairs.len() == 0 {
        m
    } else {
        let before = record(m, pairs.drop_last(), ms);
        if keep_label(pairs.last().0, ms) {
            put(before, pairs.last().0, pairs.last().1)
        } else {
            before
        }
    }
}

/// The pairs of all lines, where lines end at `\n` or `\r`; each line is
/// scanned as it stands, so a label keeps its leading text unchanged.
pub open spec fn lines_pairs(lines: Seq<Seq<char>>) -> Seq<(Seq<char>, Seq<char>)>
    decreases lines.len(),
{
    if lines.len() == 0 {
        Seq::empty()
    } else {
        lines_pairs(lines.drop_last()) + line_pairs(lines.last())
    }
}

pub open spec fn output_pairs(text: Seq<char>) -> Seq<(Seq<char>, Seq<char>)> {
    lines_pairs(split_seq(text, seq!['\n', '\r']))
}

proof fn lemma_record_push(
    m: Seq<(Seq<char>, Seq<char>)>,
    pairs: Seq<(Seq<char>, Seq<char>)>,
    more: Seq<(Seq<char>, Seq<char>)>,
    ms: Seq<Seq<char>>,
)
    ensures
        record(m, pairs + more, ms) == record(record(m, pairs, ms), more, ms),
    decreases more.len(),
{
    if more.len() == 0 {
        assert(pairs + more =~= pairs);
    } else {
        assert((pairs + more).drop_last() =~= pairs + more.drop_last());
        lemma_record_push(m, pairs, more.drop_last(), ms);
    }
}

/// Last value wins: a kept label that does not occur again later is
/// recorded with the value of that occurrence.
pub proof fn law_last_value_wins(
    m: Seq<(Seq<char>, Seq<char>)>,
    pairs: Seq<(Seq<char>, Seq<char>)>,
    ms: Seq<Seq<char>>,
    i: int,
)
    requires
        0 <= i < pairs.len(),
        keep_label(pairs[i].0, ms),
        forall|j: int| i < j < pairs.len() ==> (#[trigger] pairs[j]).0 != pairs[i].0,
    ensures
        lookup(record(m, pairs, ms), pairs[i].0) == Some(pairs[i].1),
    decreases pairs.len(),
{
    let l = pairs[i].0;
    let before = record(m, pairs.drop_last(), ms);
    let last = pairs.last();
    if i == pairs.len() - 1 {
        lemma_put_lookup(before, last.0, last.1, l);
    } else {
        let init = pairs.drop_last();
        assert forall|j: int| i < j < init.len() implies (#[trigger] init[j]).0 != init[i].0 by {
            assert(init[j] == pairs[j]);
        }
        law_last_value_wins(m, init, ms, i);
        assert(pairs[pairs.len() - 1].0 != l);
        if keep_label(last.0, ms) {
            lemma_put_lookup(before, last.0, last.1, l);
        }
    }
}

/// Whether `label` passes the metric filters.
pub fn should_keep_label(label: &[char], metrics: &[Vec<char>]) -> (r: bool)
    ensures
        r == keep_label(label@, views(metrics@)),
{
    if metrics.len() == 0 {
        return true;
    }
    let low = to_lower(label);
    let mut i: usize = 0;
    while i < metrics.len()
        invariant
            i <= metrics@.len(),
            metrics@.len() > 0,
            low@ == lower_of(label@),
            forall|j: int|
                0 <= j < i ==> !has_infix(lower_of(label@), lower_of(#[trigger] metrics@[j]@)),
        decreases metrics@.len() - i,
    {
        let m = to_lower(&metrics[i]);
        if contains_infix(&low, &m) {
            assert(views(metrics@)[i as int] == metrics@[i as int]@);
            return true;
        }
        i += 1;
    }
    assert forall|j: int| 0 <= j < views(metrics@).len() implies !has_infix(
        lower_of(label@),
        lower_of(#[trigger] views(metrics@)[j]),
    ) by {
        assert(views(metrics@)[j] == metrics@[j]@);
    }
    false
}

fn number_start_at(line: &[char], i: usize) -> (r: bool)
    requires
        i < line@.len(),
    ensures
        r == number_starts(line@, i as int),
{
    let c = line[i];
    let begins = is_ascii_digit(c) || (c == '.' && i + 1 < line.len() && is_ascii_digit(line[i + 1]));
    begins && (i == 0 || !is_alphanumeric(line[i - 1]))
}

fn find_token_end(line: &[char], i: usize) -> (e: usize)
    requires
        number_starts(line@, i as int),
    ensures
        e == token_end(line@, i as int),
        i < e <= line@.len(),
{
    proof {
        lemma_token_end_bounds(line@, i as int);
    }
    let mut has_dot = line[i] == '.';
    let mut j: usize = if has_dot {
        i + 1
    } else {
        i
    };
    while j < line.len()
        invariant
            j <= line@.len(),
            token_end(line@, i as int) == number_end(line@, j as int, has_dot),
        ensures
            j == token_end(line@, i as int),
        decreases line@.len() - j,
    {
        if is_ascii_digit(line[j]) {
            j += 1;
        } else if line[j] == '.' && !has_dot && j + 1 < line.len() && is_ascii_digit(line[j + 1]) {
            has_dot = true;
            j += 1;
        } else {
            break;
        }
    }
    j
}

/// Records the numbers of one line under their labels.
pub fn extract_numbers_from_line(line: &[char], results: &mut TextMap, metrics: &[Vec<char>])
    ensures
        final(results)@ == record(old(results)@, line_pairs(line@), views(metrics@)),
{
    let ghost ms = views(metrics@);
    let ghost all = line_pairs(line@);
    let ghost mut done: Seq<(Seq<char>, Seq<char>)> = Seq::empty();
    let mut search_start: usize = 0;
    let mut i: usize = 0;
    assert(done + scan(line@, 0, 0) =~= all);
    while i < line.len()
        invariant
            search_start <= i <= line@.len(),
            ms == views(metrics@),
            all == line_pairs(line@),
            done + scan(line@, i as int, search_start as int) == all,
            results@ == record(old(results)@, done, ms),
        decreases line@.len() - i,
    {
        if number_start_at(line, i) {
            let e = find_token_end(line, i);
            let num = slice_chars(line, i, e);
            let raw = slice_chars(line, search_start, i);
            let label = if raw.len() == 0 {
                chars_of("value")
            } else {
                raw
            };
            let ghost pair = (label@, num@);
            assert(scan(line@, i as int, search_start as int) == seq![pair] + scan(
                line@,
                e as int,
                e as int,
            ));
            if should_keep_label(&label, metrics) {
                results.insert(string_of(&label), string_of(&num));
            }
            proof {
                assert(done.push(pair).drop_last() =~= done);
                done = done.push(pair);
                assert(done + scan(line@, e as int, e as int) =~= all);
            }
            search_start = e;
            i = e;
        } else {
            i += 1;
        }
    }
    assert(scan(line@, i as int, search_start as int) =~= Seq::<(Seq<char>, Seq<char>)>::empty());
    assert(done =~= all);
}

/// Records every labelled number of `text` into `results`; lines end at
/// `\n` or `\r`, so each in-place progress update counts as a line and the
/// last value of a label wins.
pub fn parse_output(text: &str, results: &mut TextMap, metrics: &[String])
    ensures
        final(results)@ == record(old(results)@, output_pairs(text@), strings_view(metrics@)),
{
    let chars = chars_of(text);
    let mut terms: Vec<Vec<char>> = Vec::new();
    let mut k: usize = 0;
    while k < metrics.len()
        invariant
            k <= metrics@.len(),
            views(terms@) == strings_view(metrics@).take(k as int),
        decreases metrics@.len() - k,
    {
        let t = chars_of(metrics[k].as_str());
        let ghost before = views(terms@);
        terms.push(t);
        assert(views(terms@) == before.push(t@));
        assert(views(terms@) =~= strings_view(metrics@).take(k + 1));
        k += 1;
    }
    assert(strings_view(metrics@).take(metrics@.len() as int) =~= strings_view(metrics@));
    let seps: [char; 2] = ['\n', '\r'];
    assert(seps@ =~= seq!['\n', '\r']);
    let lines = split(&chars, seps.as_slice());
    let ghost lv = views(lines@);
    let ghost ms = strings_view(metrics@);
    let mut j: usize = 0;
    assert(lv.take(0) =~= Seq::<Seq<char>>::empty());
    while j < lines.len()
        invariant
            j <= lines@.len(),
            lv == views(lines@),
            lv == split_seq(text@, seq!['\n', '\r']),
            ms == strings_view(metrics@),
            views(terms@) == ms,
            results@ == record(old(results)@, lines_pairs(lv.take(j as int)), ms),
        decreases lines@.len() - j,
    {
        let line = &lines[j];
        assert(lv.take(j + 1).drop_last() =~= lv.take(j as int));
        assert(lv.take(j + 1).last() == lines@[j as int]@);
        proof {
            lemma_record_push(
                old(results)@,
                lines_pairs(lv.take(j as int)),
                line_pairs(line@),
                ms,
            );
        }
        if line.len() > 0 {
            extract_numbers_from_line(line, results, &terms);
        } else {
            assert(line_pairs(line@) =~= Seq::<(Seq<char>, Seq<char>)>::empty());
        }
        j += 1;
    }
    assert(lv.take(lines@.len() as int) =~= lv);
}

} // verus!
