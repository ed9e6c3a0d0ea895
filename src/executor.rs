//! The result store and the decisions of a sweep: which combinations still
//! need a run, whether a finished run counts, and what the result file holds.
use vstd::prelude::*;
use crate::csv::{
    build_csv_headers, csv_records, header_columns, join, parse_csv, rows_view, csv_text,
    write_csv_line,
};
use crate::evaluator::{
    lemma_put_at, lemma_put_lookup, names_of, put, same_mapping, strings_view, Combination, TextMap,
};
use crate::expr::{append_chars, lookup};
use crate::metrics::{output_pairs, parse_output, record};
use crate::parser::Options;
use crate::text::{
    chars_of, contains_infix, format_int, has_infix, int_text, lower_of, string_of, to_lower, views,
};

verus! {

/// One completed run: its parameter values, the labelled metric values read
/// from its output (label to value), and what the command printed.
#[derive(Debug, Clone)]
pub struct ExperimentResult {
    pub params: TextMap,
    pub metrics: TextMap,
    pub stdout: String,
    pub stderr: String,
}

pub open spec fn result_view(r: ExperimentResult) -> (
    Seq<(Seq<char>, Seq<char>)>,
    Seq<(Seq<char>, Seq<char>)>,
    Seq<char>,
    Seq<char>,
) {
    (r.params@, r.metrics@, r.stdout@, r.stderr@)
}

/// The rows hold a result for the combination's exact values.
pub open spec fn present(rows: Seq<ExperimentResult>, c: Combination) -> bool {
    exists|k: int| 0 <= k < rows.len() && same_mapping((#[trigger] rows[k]).params@, c.params@)
}

/// Whether a loaded result already covers the combination.
pub fn result_exists(existing: &[ExperimentResult], combo: &Combination) -> (r: bool)
    ensures
        r == present(existing@, *combo),
{
    assert(existing@.take(existing@.len() as int) =~= existing@);
    held_in_first(existing, existing.len(), combo)
}

/// Whether one of the first `n` rows covers the combination.
fn held_in_first(existing: &[ExperimentResult], n: usize, combo: &Combination) -> (r: bool)
    requires
        n <= existing@.len(),
    ensures
        r == present(existing@.take(n as int), *combo),
{
    let ghost rows = existing@.take(n as int);
    let mut i: usize = 0;
    while i < n
        invariant
            n <= existing@.len(),
            rows == existing@.take(n as int),
            i <= n,
            forall|k: int| 0 <= k < i ==> !same_mapping((#[trigger] rows[k]).params@, combo.params@),
        decreases n - i,
    {
        if existing[i].params.same_values(&combo.params) {
            assert(rows[i as int] == existing@[i as int]);
            return true;
        }
        i += 1;
    }
    false
}

// ---------------------------------------------------------------------------
// Judging one run
/// The text the metrics are read from: stdout, stderr, or both joined by a
/// line break.
pub open spec fn captured_text(
    stdout: Seq<char>,
    stderr: Seq<char>,
    stdout_only: bool,
    stderr_only: bool,
) -> Seq<char> {
    if stdout_only {
        stdout
    } else if stderr_only {
        stderr
    } else {
        stdout + seq!['\n'] + stderr
    }
}

/// Some extracted label contains the metric name, ignoring case.
pub open spec fn label_found(labels: Seq<(Seq<char>, Seq<char>)>, m: Seq<char>) -> bool {
    exists|i: int| 0 <= i < labels.len() && has_infix(lower_of((#[trigger] labels[i]).0), lower_of(m))
}

/// The requested metrics that no label matches, in the order asked.
pub open spec fn missing_of(labels: Seq<(Seq<char>, Seq<char>)>, ms: Seq<Seq<char>>) -> Seq<
    Seq<char>,
>
    decreases ms.len(),
{
    if ms.len() == 0 {
        Seq::empty()
    } else {
        let rest = missing_of(labels, ms.drop_last());
        if label_found(labels, ms.last()) {
            rest
        } else {
            rest.push(ms.last())
        }
    }
}

/// The value of the first label that matches the metric name, or empty.
pub open spec fn column_value(labels: Seq<(Seq<char>, Seq<char>)>, m: Seq<char>) -> Seq<char>
    decreases labels.len(),
{
    if labels.len() == 0 {
        Seq::empty()
    } else if has_infix(lower_of(labels[0].0), lower_of(m)) {
        labels[0].1
    } else {
        column_value(labels.drop_first(), m)
    }
}

pub open spec fn exit_error(code: Option<int>) -> Seq<char> {
    "Command failed with exit code: "@ + match code {
        Some(c) => "Some("@ + int_text(c) + seq![')'],
        None => "None"@,
    }
}

pub open spec fn missing_error(missing: Seq<Seq<char>>) -> Seq<char> {
    "Missing metrics in output: "@ + join(missing, ", "@)
}

/// The labelled values extracted from a finished run, or why it does not
/// count: a non-zero exit, or a requested metric that no label matches.
pub open spec fn run_verdict(
    success: bool,
    code: Option<int>,
    stdout: Seq<char>,
    stderr: Seq<char>,
    ms: Seq<Seq<char>>,
    stdout_only: bool,
    stderr_only: bool,
) -> Result<Seq<(Seq<char>, Seq<char>)>, Seq<char>> {
    if !success {
        Err(exit_error(code))
    } else {
        let labels = record(
            Seq::empty(),
            output_pairs(captured_text(stdout, stderr, stdout_only, stderr_only)),
            ms,
        );
        let missing = missing_of(labels, ms);
        if missing.len() > 0 {
            Err(missing_error(missing))
        } else {
            Ok(labels)
        }
    }
}

fn find_column_value(labels: &TextMap, m: &[char]) -> (r: Vec<char>)
    ensures
        r@ == column_value(labels@, m@),
{
    let lm = to_lower(m);
    let mut i: usize = 0;
    assert(labels@.skip(0) =~= labels@);
    while i < labels.len()
        invariant
            i <= labels@.len(),
            lm@ == lower_of(m@),
            column_value(labels@, m@) == column_value(labels@.skip(i as int), m@),
        decreases labels@.len() - i,
    {
        let (k, v) = labels.entry(i);
        assert(labels@.skip(i as int).drop_first() =~= labels@.skip(i + 1));
        let lk = to_lower(&chars_of(k.as_str()));
        if contains_infix(&lk, &lm) {
            return chars_of(v.as_str());
        }
        i += 1;
    }
    Vec::new()
}

fn found_label(labels: &TextMap, m: &[char]) -> (r: bool)
    ensures
        r == label_found(labels@, m@),
{
    let lm = to_lower(m);
    let mut i: usize = 0;
    while i < labels.len()
        invariant
            i <= labels@.len(),
            lm@ == lower_of(m@),
            forall|j: int| 0 <= j < i ==> !has_infix(lower_of((#[trigger] labels@[j]).0), lower_of(m@)),
        decreases labels@.len() - i,
    {
        let (k, _v) = labels.entry(i);
        let lk = to_lower(&chars_of(k.as_str()));
        if contains_infix(&lk, &lm) {
            return true;
        }
        i += 1;
    }
    false
}

/// The requested metrics that no extracted label matches.
pub fn missing_metrics(labels: &TextMap, metrics: &[String]) -> (r: Vec<String>)
    ensures
        strings_view(r@) == missing_of(labels@, strings_view(metrics@)),
{
    let ghost ms = strings_view(metrics@);
    let mut out: Vec<String> = Vec::new();
    let mut i: usize = 0;
    assert(ms.take(0) =~= Seq::<Seq<char>>::empty());
    while i < metrics.len()
        invariant
            i <= metrics@.len(),
            ms == strings_view(metrics@),
            strings_view(out@) == missing_of(labels@, ms.take(i as int)),
        decreases metrics@.len() - i,
    {
        assert(ms.take(i + 1).drop_last() =~= ms.take(i as int));
        assert(ms.take(i + 1).last() == metrics@[i as int]@);
        let m = chars_of(metrics[i].as_str());
        if !found_label(labels, &m) {
            let c = metrics[i].clone();
            let ghost before = out@;
            out.push(c);
            assert(strings_view(out@) =~= strings_view(before).push(c@));
        }
        i += 1;
    }
    assert(ms.take(metrics@.len() as int) =~= ms);
    out
}

fn join_strings(v: &Vec<String>, sep: &[char]) -> (r: Vec<char>)
    ensures
        r@ == join(strings_view(v@), sep@),
{
    let ghost sv = strings_view(v@);
    let mut out: Vec<char> = Vec::new();
    let mut i: usize = 0;
    assert(sv.take(0) =~= Seq::<Seq<char>>::empty());
    while i < v.len()
        invariant
            i <= v@.len(),
            sv == strings_view(v@),
            out@ == join(sv.take(i as int), sep@),
        decreases v@.len() - i,
    {
        assert(sv.take(i + 1).drop_last() =~= sv.take(i as int));
        assert(sv.take(i + 1).last() == v@[i as int]@);
        if i > 0 {
            append_chars(&mut out, sep);
        } else {
            assert(sv.take(1) =~= seq![sv[0]]);
            assert(out@ =~= Seq::<char>::empty());
        }
        append_chars(&mut out, &chars_of(v[i].as_str()));
        if i == 0 {
            assert(out@ =~= join(sv.take(1), sep@));
        } else {
            assert(out@ =~= join(sv.take(i + 1), sep@));
        }
        i += 1;
    }
    assert(sv.take(v@.len() as int) =~= sv);
    out
}

/// Judges a finished run of `combo`: on success, its result with the
/// labelled values extracted as `options` asks; otherwise why it does not
/// count.
pub fn evaluate_run(
    combo: &Combination,
    success: bool,
    code: Option<i32>,
    stdout: String,
    stderr: String,
    options: &Options,
) -> (r: Result<ExperimentResult, String>)
    ensures
        match (
            r,
            run_verdict(
                success,
                match code {
                    Some(c) => Some(c as int),
                    None => None,
                },
                stdout@,
                stderr@,
                strings_view(options.metrics@),
                options.stdout_only,
                options.stderr_only,
            ),
        ) {
            (Ok(res), Ok(labels)) => res.params@ == combo.params@ && res.metrics@ == labels
                && res.stdout@ == stdout@ && res.stderr@ == stderr@,
            (Err(m), Err(em)) => m@ == em,
            _ => false,
        },
{
    if !success {
        let mut m = chars_of("Command failed with exit code: ");
        match code {
            Some(c) => {
                append_chars(&mut m, &chars_of("Some("));
                append_chars(&mut m, &format_int(c as i64));
                m.push(')');
            },
            None => {
                append_chars(&mut m, &chars_of("None"));
            },
        }
        let ghost want = exit_error(
            match code {
                Some(c) => Some(c as int),
                None => None,
            },
        );
        assert(m@ =~= want);
        return Err(string_of(&m));
    }
    let mut labels = TextMap::new();
    if options.stdout_only {
        parse_output(stdout.as_str(), &mut labels, &options.metrics);
    } else if options.stderr_only {
        parse_output(stderr.as_str(), &mut labels, &options.metrics);
    } else {
        let mut both = chars_of(stdout.as_str());
        both.push('\n');
        append_chars(&mut both, &chars_of(stderr.as_str()));
        let text = string_of(&both);
        assert(text@ =~= stdout@ + seq!['\n'] + stderr@);
        parse_output(text.as_str(), &mut labels, &options.metrics);
    }
    let missing = missing_metrics(&labels, &options.metrics);
    if missing.len() > 0 {
        let mut m = chars_of("Missing metrics in output: ");
        append_chars(&mut m, &join_strings(&missing, &chars_of(", ")));
        return Err(string_of(&m));
    }
    Ok(ExperimentResult { params: combo.params.copy(), metrics: labels, stdout, stderr })
}

// ---------------------------------------------------------------------------
// Writing and reading the result file
pub open spec fn value_or_empty(o: Option<Seq<char>>) -> Seq<char> {
    match o {
        Some(v) => v,
        None => Seq::empty(),
    }
}

/// The captured-output columns of a result.
pub open spec fn output_columns(
    r: ExperimentResult,
    preserve: bool,
    stdout_only: bool,
    stderr_only: bool,
) -> Seq<Seq<char>> {
    if !preserve {
        Seq::empty()
    } else if stdout_only {
        seq![r.stdout@]
    } else if stderr_only {
        seq![r.stderr@]
    } else {
        seq![r.stdout@, r.stderr@]
    }
}

/// The fields of one result's row: parameter values by name, for each
/// metric the value of the first label that contains its name ignoring case
/// (empty when none does), then the captured output.
pub open spec fn result_row(
    r: ExperimentResult,
    names: Seq<Seq<char>>,
    ms: Seq<Seq<char>>,
    preserve: bool,
    stdout_only: bool,
    stderr_only: bool,
) -> Seq<Seq<char>> {
    names.map_values(|n: Seq<char>| value_or_empty(lookup(r.params@, n))) + ms.map_values(
        |m: Seq<char>| column_value(r.metrics@, m),
    ) + output_columns(r, preserve, stdout_only, stderr_only)
}

/// The whole result file: nothing for no results, otherwise the header and
/// one row per result, in order.
pub open spec fn results_text(
    rs: Seq<ExperimentResult>,
    names: Seq<Seq<char>>,
    ms: Seq<Seq<char>>,
    preserve: bool,
    stdout_only: bool,
    stderr_only: bool,
) -> Seq<char> {
    if rs.len() == 0 {
        Seq::empty()
    } else {
        csv_text(
            seq![header_columns(names, ms, preserve, stdout_only, stderr_only)] + rs.map_values(
                |r: ExperimentResult| result_row(r, names, ms, preserve, stdout_only, stderr_only),
            ),
        )
    }
}

fn row_fields(r: &ExperimentResult, param_names: &[String], options: &Options) -> (f: Vec<Vec<char>>)
    ensures
        views(f@) == result_row(
            *r,
            strings_view(param_names@),
            strings_view(options.metrics@),
            options.preserve_output,
            options.stdout_only,
            options.stderr_only,
        ),
{
    let ghost names = strings_view(param_names@);
    let ghost ms = strings_view(options.metrics@);
    let ghost want = result_row(
        *r,
        names,
        ms,
        options.preserve_output,
        options.stdout_only,
        options.stderr_only,
    );
    let mut f: Vec<Vec<char>> = Vec::new();
    let mut i: usize = 0;
    while i < param_names.len()
        invariant
            i <= param_names@.len(),
            names == strings_view(param_names@),
            views(f@) == names.take(i as int).map_values(
                |n: Seq<char>| value_or_empty(lookup(r.params@, n)),
            ),
        decreases param_names@.len() - i,
    {
        let v = match r.params.get(param_names[i].as_str()) {
            Some(s) => chars_of(s.as_str()),
            None => Vec::new(),
        };
        let ghost before = views(f@);
        f.push(v);
        assert(views(f@) =~= before.push(v@));
        assert(names.take(i + 1).map_values(|n: Seq<char>| value_or_empty(lookup(r.params@, n)))
            =~= names.take(i as int).map_values(
            |n: Seq<char>| value_or_empty(lookup(r.params@, n)),
        ).push(value_or_empty(lookup(r.params@, names[i as int]))));
        i += 1;
    }
    assert(names.take(param_names@.len() as int) =~= names);
    let ghost base = views(f@);
    let mut j: usize = 0;
    while j < options.metrics.len()
        invariant
            j <= options.metrics@.len(),
            ms == strings_view(options.metrics@),
            views(f@) == base + ms.take(j as int).map_values(
                |m: Seq<char>| column_value(r.metrics@, m),
            ),
        decreases options.metrics@.len() - j,
    {
        let v = find_column_value(&r.metrics, &chars_of(options.metrics[j].as_str()));
        let ghost before = views(f@);
        f.push(v);
        assert(views(f@) =~= before.push(v@));
        assert(base + ms.take(j + 1).map_values(|m: Seq<char>| column_value(r.metrics@, m))
            =~= (base + ms.take(j as int).map_values(
            |m: Seq<char>| column_value(r.metrics@, m),
        )).push(column_value(r.metrics@, ms[j as int])));
        j += 1;
    }
    assert(ms.take(options.metrics@.len() as int) =~= ms);
    let ghost mid = views(f@);
    if options.preserve_output {
        if options.stdout_only {
            f.push(chars_of(r.stdout.as_str()));
        } else if options.stderr_only {
            f.push(chars_of(r.stderr.as_str()));
        } else {
            f.push(chars_of(r.stdout.as_str()));
            f.push(chars_of(r.stderr.as_str()));
        }
    }
    assert(views(f@) =~= mid + output_columns(
        *r,
        options.preserve_output,
        options.stdout_only,
        options.stderr_only,
    ));
    assert(views(f@) =~= want);
    f
}

/// The text of the result file for `results`, columns as the schema says.
pub fn render_results(results: &[ExperimentResult], param_names: &[String], options: &Options) -> (r:
    String)
    ensures
        r@ == results_text(
            results@,
            strings_view(param_names@),
            strings_view(options.metrics@),
            options.preserve_output,
            options.stdout_only,
            options.stderr_only,
        ),
{
    let ghost names = strings_view(param_names@);
    let ghost ms = strings_view(options.metrics@);
    let ghost rowf = |r: ExperimentResult|
        result_row(r, names, ms, options.preserve_output, options.stdout_only, options.stderr_only);
    if results.len() == 0 {
        return string_of(&Vec::new());
    }
    let headers = build_csv_headers(
        param_names,
        &options.metrics,
        options.preserve_output,
        options.stdout_only,
        options.stderr_only,
    );
    let mut hf: Vec<Vec<char>> = Vec::new();
    let mut k: usize = 0;
    while k < headers.len()
        invariant
            k <= headers@.len(),
            views(hf@) == strings_view(headers@).take(k as int),
        decreases headers@.len() - k,
    {
        let v = chars_of(headers[k].as_str());
        let ghost before = views(hf@);
        hf.push(v);
        assert(views(hf@) =~= before.push(v@));
        assert(views(hf@) =~= strings_view(headers@).take(k + 1));
        k += 1;
    }
    assert(strings_view(headers@).take(headers@.len() as int) =~= strings_view(headers@));
    let ghost all = seq![header_columns(
        names,
        ms,
        options.preserve_output,
        options.stdout_only,
        options.stderr_only,
    )] + results@.map_values(rowf);
    let mut out: Vec<char> = Vec::new();
    write_csv_line(&mut out, &hf);
    assert(all.take(1).drop_last() =~= Seq::<Seq<Seq<char>>>::empty());
    assert(all.take(1).last() == views(hf@));
    assert(csv_text(Seq::<Seq<Seq<char>>>::empty()) =~= Seq::<char>::empty());
    assert(out@ =~= csv_text(all.take(1)));
    let mut i: usize = 0;
    while i < results.len()
        invariant
            i <= results@.len(),
            names == strings_view(param_names@),
            ms == strings_view(options.metrics@),
            all == seq![header_columns(
                names,
                ms,
                options.preserve_output,
                options.stdout_only,
                options.stderr_only,
            )] + results@.map_values(rowf),
            rowf == (|r: ExperimentResult|
                result_row(
                    r,
                    names,
                    ms,
                    options.preserve_output,
                    options.stdout_only,
                    options.stderr_only,
                )),
            out@ == csv_text(all.take(i + 1)),
        decreases results@.len() - i,
    {
        let row = row_fields(&results[i], param_names, options);
        assert(all.take(i + 2).drop_last() =~= all.take(i + 1));
        assert(all.take(i + 2).last() == views(row@));
        write_csv_line(&mut out, &row);
        i += 1;
    }
    assert(all.take(results@.len() + 1int) =~= all);
    string_of(&out)
}

/// Persisted columns follow the declaration order: written with the names a
/// combination carries (the declared names, in the order given, whatever
/// order the parameters were evaluated in), the header starts with those
/// names and every row starts with those parameters' values.
pub proof fn law_columns_in_declaration_order(
    ps: Seq<(Seq<char>, Seq<char>)>,
    c: Combination,
    r: ExperimentResult,
    ms: Seq<Seq<char>>,
    preserve: bool,
    stdout_only: bool,
    stderr_only: bool,
)
    requires
        strings_view(c.param_order@) == names_of(ps),
    ensures
        forall|k: int|
            0 <= k < ps.len() ==> #[trigger] header_columns(
                strings_view(c.param_order@),
                ms,
                preserve,
                stdout_only,
                stderr_only,
            )[k] == ps[k].0,
        forall|k: int|
            0 <= k < ps.len() ==> #[trigger] result_row(
                r,
                strings_view(c.param_order@),
                ms,
                preserve,
                stdout_only,
                stderr_only,
            )[k] == value_or_empty(lookup(r.params@, ps[k].0)),
{
    let names = strings_view(c.param_order@);
    assert forall|k: int| 0 <= k < ps.len() implies names[k] == ps[k].0 by {
        assert(names_of(ps)[k] == ps[k].0);
    }
}

/// The parameters, metric values (labelled by their column names) and
/// output of one data row, read by column: `stdout` and `stderr` columns by
/// name, then parameters, then metrics, by position.
pub open spec fn row_fold(
    header: Seq<Seq<char>>,
    row: Seq<Seq<char>>,
    np: int,
    nm: int,
    k: int,
) -> (Seq<(Seq<char>, Seq<char>)>, Seq<(Seq<char>, Seq<char>)>, Seq<char>, Seq<char>)
    decreases k,
{
    if k <= 0 {
        (Seq::empty(), Seq::empty(), Seq::empty(), Seq::empty())
    } else {
        let acc = row_fold(header, row, np, nm, k - 1);
        let name = header[k - 1];
        let value = row[k - 1];
        if name == "stdout"@ {
            (acc.0, acc.1, value, acc.3)
        } else if name == "stderr"@ {
            (acc.0, acc.1, acc.2, value)
        } else if k - 1 < np {
            (put(acc.0, name, value), acc.1, acc.2, acc.3)
        } else if k - 1 < np + nm {
            (acc.0, put(acc.1, name, value), acc.2, acc.3)
        } else {
            acc
        }
    }
}

/// No column of the schema but the output columns is called `stdout` or
/// `stderr`, names and metrics are each listed once, and no metric name
/// contains a later one, ignoring case (so each metric column is the first
/// label that matches its own name).
pub open spec fn plain_schema(names: Seq<Seq<char>>, ms: Seq<Seq<char>>) -> bool {
    &&& names.no_duplicates()
    &&& ms.no_duplicates()
    &&& forall|i: int, j: int|
        0 <= i < j < ms.len() ==> !has_infix(lower_of(#[trigger] ms[i]), lower_of(#[trigger] ms[j]))
    &&& forall|a: int| 0 <= a < names.len() ==> names[a] != "stdout"@ && names[a] != "stderr"@
    &&& forall|j: int| 0 <= j < ms.len() ==> ms[j] != "stdout"@ && ms[j] != "stderr"@
}

proof fn lemma_fold_prefix(
    h: Seq<Seq<char>>,
    row: Seq<Seq<char>>,
    names: Seq<Seq<char>>,
    ms: Seq<Seq<char>>,
    k: int,
)
    requires
        plain_schema(names, ms),
        names.len() + ms.len() <= h.len(),
        h.take(names.len() + ms.len() as int) == names + ms,
        row.len() == h.len(),
        0 <= k <= names.len() + ms.len(),
    ensures
        forall|a: int|
            0 <= a < names.len() ==> lookup(
                row_fold(h, row, names.len() as int, ms.len() as int, k).0,
                #[trigger] names[a],
            ) == (if a < k {
                Some(row[a])
            } else {
                None
            }),
        row_fold(h, row, names.len() as int, ms.len() as int, k).1 == Seq::new(
            (if k > names.len() {
                k - names.len()
            } else {
                0
            }) as nat,
            |j: int| (ms[j], row[names.len() + j]),
        ),
        row_fold(h, row, names.len() as int, ms.len() as int, k).2 == Seq::<char>::empty(),
        row_fold(h, row, names.len() as int, ms.len() as int, k).3 == Seq::<char>::empty(),
    decreases k,
{
    let np = names.len() as int;
    let nm = ms.len() as int;
    if k > 0 {
        lemma_fold_prefix(h, row, names, ms, k - 1);
        let acc = row_fold(h, row, np, nm, k - 1);
        let name = h[k - 1];
        assert(name == h.take(np + nm)[k - 1]);
        if k - 1 < np {
            assert(name == names[k - 1]);
            assert forall|a: int| 0 <= a < names.len() implies lookup(
                row_fold(h, row, np, nm, k).0,
                #[trigger] names[a],
            ) == (if a < k {
                Some(row[a])
            } else {
                None
            }) by {
                lemma_put_lookup(acc.0, name, row[k - 1], names[a]);
            }
        } else {
            assert(name == ms[k - 1 - np]);
            let prev = acc.1;
            assert forall|j: int| 0 <= j < prev.len() implies (#[trigger] prev[j]).0 != name by {
                assert(ms[j] != ms[k - 1 - np]);
            }
            lemma_put_at(prev, name, row[k - 1], prev.len() as int);
            assert(row_fold(h, row, np, nm, k).1 =~= Seq::new(
                (k - np) as nat,
                |j: int| (ms[j], row[np + j]),
            ));
        }
    }
}

/// The value for `m` is that of the first label that contains it.
proof fn lemma_column_at(labels: Seq<(Seq<char>, Seq<char>)>, m: Seq<char>, j: int)
    requires
        0 <= j < labels.len(),
        has_infix(lower_of(labels[j].0), lower_of(m)),
        forall|i: int| 0 <= i < j ==> !has_infix(lower_of((#[trigger] labels[i]).0), lower_of(m)),
    ensures
        column_value(labels, m) == labels[j].1,
    decreases j,
{
    if j > 0 {
        let t = labels.drop_first();
        assert forall|i: int| 0 <= i < j - 1 implies !has_infix(
            lower_of((#[trigger] t[i]).0),
            lower_of(m),
        ) by {
            assert(t[i] == labels[i + 1]);
        }
        assert(!has_infix(lower_of(labels[0].0), lower_of(m)));
        lemma_column_at(t, m, j - 1);
    }
}

/// A data row of a file in this run's schema, read and written out again,
/// keeps every field: a resumed sweep rewrites its loaded rows unchanged.
pub proof fn law_row_round_trip(
    names: Seq<Seq<char>>,
    ms: Seq<Seq<char>>,
    preserve: bool,
    stdout_only: bool,
    stderr_only: bool,
    row: Seq<Seq<char>>,
    r: ExperimentResult,
)
    requires
        plain_schema(names, ms),
        row.len() == header_columns(names, ms, preserve, stdout_only, stderr_only).len(),
        result_view(r) == row_fold(
            header_columns(names, ms, preserve, stdout_only, stderr_only),
            row,
            names.len() as int,
            ms.len() as int,
            row.len() as int,
        ),
    ensures
        result_row(r, names, ms, preserve, stdout_only, stderr_only) == row,
{
    reveal_strlit("stdout");
    reveal_strlit("stderr");
    let h = header_columns(names, ms, preserve, stdout_only, stderr_only);
    let np = names.len() as int;
    let nm = ms.len() as int;
    assert(h.take(np + nm) =~= names + ms);
    lemma_fold_prefix(h, row, names, ms, np + nm);
    let base = row_fold(h, row, np, nm, np + nm);
    let rr = result_row(r, names, ms, preserve, stdout_only, stderr_only);
    assert("stdout"@ != "stderr"@) by {
        assert("stdout"@[3] != "stderr"@[3]);
    }
    if preserve && !stdout_only && !stderr_only {
        let one = row_fold(h, row, np, nm, np + nm + 1);
        assert(h[np + nm] == "stdout"@);
        assert(h[np + nm + 1] == "stderr"@);
        assert(one == (base.0, base.1, row[np + nm], base.3));
    }
    assert forall|a: int| 0 <= a < np implies rr[a] == row[a] by {
        assert(rr[a] == value_or_empty(lookup(r.params@, names[a])));
    }
    let cols = Seq::new(nm as nat, |j: int| (ms[j], row[np + j]));
    assert(r.metrics@ == cols);
    assert forall|j: int| 0 <= j < nm implies #[trigger] rr[np + j] == row[np + j] by {
        assert(rr[np + j] == column_value(r.metrics@, ms[j]));
        let lm = lower_of(ms[j]);
        assert(cols[j].0 == ms[j]);
        assert(lm.subrange(0int, 0int + lm.len()) =~= lm);
        assert(has_infix(lower_of(cols[j].0), lm));
        assert forall|i: int| 0 <= i < j implies !has_infix(lower_of((#[trigger] cols[i]).0), lm) by {
            assert(!has_infix(lower_of(ms[i]), lower_of(ms[j])));
        }
        lemma_column_at(cols, ms[j], j);
    }
    assert forall|x: int| np <= x < np + nm implies rr[x] == row[x] by {
        assert(rr[np + (x - np)] == row[np + (x - np)]);
    }
    let outs = output_columns(r, preserve, stdout_only, stderr_only);
    assert(rr.len() == np + nm + outs.len());
    assert forall|x: int| np + nm <= x < rr.len() implies rr[x] == row[x] by {
        assert(rr[x] == outs[x - np - nm]);
    }
    assert(rr =~= row);
}

/// The results of the data rows that have one field per column.
pub open spec fn loaded_rows(
    header: Seq<Seq<char>>,
    recs: Seq<Seq<Seq<char>>>,
    np: int,
    nm: int,
) -> Seq<(Seq<(Seq<char>, Seq<char>)>, Seq<(Seq<char>, Seq<char>)>, Seq<char>, Seq<char>)>
    decreases recs.len(),
{
    if recs.len() == 0 {
        Seq::empty()
    } else {
        let rest = loaded_rows(header, recs.drop_last(), np, nm);
        if recs.last().len() == header.len() {
            rest.push(row_fold(header, recs.last(), np, nm, header.len() as int))
        } else {
            rest
        }
    }
}

pub open spec fn mismatch_error(expected: Seq<Seq<char>>, found: Seq<Seq<char>>) -> Seq<char> {
    "Header mismatch.\nExpected: "@ + join(expected, seq![',']) + "\nFound:    "@ + join(
        found,
        seq![','],
    )
}

/// What an existing result file holds for this run: its rows, when its
/// header is exactly the run's schema; otherwise the error that stops the run.
pub open spec fn load_spec(
    content: Seq<char>,
    names: Seq<Seq<char>>,
    ms: Seq<Seq<char>>,
    preserve: bool,
    stdout_only: bool,
    stderr_only: bool,
) -> Result<
    Seq<(Seq<(Seq<char>, Seq<char>)>, Seq<(Seq<char>, Seq<char>)>, Seq<char>, Seq<char>)>,
    Seq<char>,
> {
    let recs = csv_records(content);
    let h = header_columns(names, ms, preserve, stdout_only, stderr_only);
    if recs.len() == 0 {
        Err("Empty results file"@)
    } else if recs[0] != h {
        Err(mismatch_error(h, recs[0]))
    } else {
        Ok(loaded_rows(h, recs.skip(1), names.len() as int, ms.len() as int))
    }
}

fn same_strings(a: &Vec<String>, b: &Vec<String>) -> (r: bool)
    ensures
        r == (strings_view(a@) == strings_view(b@)),
{
    if a.len() != b.len() {
        assert(strings_view(a@).len() != strings_view(b@).len());
        return false;
    }
    let mut i: usize = 0;
    while i < a.len()
        invariant
            a@.len() == b@.len(),
            i <= a@.len(),
            forall|k: int| 0 <= k < i ==> a@[k]@ == b@[k]@,
        decreases a@.len() - i,
    {
        if a[i] != b[i] {
            assert(strings_view(a@)[i as int] != strings_view(b@)[i as int]);
            return false;
        }
        i += 1;
    }
    assert(strings_view(a@) =~= strings_view(b@));
    true
}

fn load_row(header: &Vec<String>, row: &Vec<String>, np: usize, nm: usize) -> (r: ExperimentResult)
    requires
        row@.len() == header@.len(),
        np + nm <= usize::MAX,
    ensures
        result_view(r) == row_fold(
            strings_view(header@),
            strings_view(row@),
            np as int,
            nm as int,
            header@.len() as int,
        ),
{
    let ghost hv = strings_view(header@);
    let ghost rv = strings_view(row@);
    let out_key = string_of(&chars_of("stdout"));
    let err_key = string_of(&chars_of("stderr"));
    let mut params = TextMap::new();
    let mut metrics = TextMap::new();
    let mut stdout = String::new();
    let mut stderr = String::new();
    let mut k: usize = 0;
    while k < header.len()
        invariant
            k <= header@.len(),
            row@.len() == header@.len(),
            hv == strings_view(header@),
            rv == strings_view(row@),
            out_key@ == "stdout"@,
            err_key@ == "stderr"@,
            np + nm <= usize::MAX,
            (params@, metrics@, stdout@, stderr@) == row_fold(hv, rv, np as int, nm as int, k as int),
        decreases header@.len() - k,
    {
        assert(hv[k as int] == header@[k as int]@);
        assert(rv[k as int] == row@[k as int]@);
        if header[k] == out_key {
            stdout = row[k].clone();
        } else if header[k] == err_key {
            stderr = row[k].clone();
        } else if k < np {
            params.insert(header[k].clone(), row[k].clone());
        } else if k < np + nm {
            metrics.insert(header[k].clone(), row[k].clone());
        }
        k += 1;
    }
    ExperimentResult { params, metrics, stdout, stderr }
}

/// Reads the results of an existing result file, given its text, after
/// checking that its header is exactly the schema of this run.
pub fn load_existing_results(
    contents: &str,
    expected_params: &[String],
    expected_metrics: &[String],
    preserve_output: bool,
    stdout_only: bool,
    stderr_only: bool,
) -> (r: Result<Vec<ExperimentResult>, String>)
    ensures
        match (
            r,
            load_spec(
                contents@,
                strings_view(expected_params@),
                strings_view(expected_metrics@),
                preserve_output,
                stdout_only,
                stderr_only,
            ),
        ) {
            (Ok(v), Ok(rows)) => v@.map_values(|x: ExperimentResult| result_view(x)) == rows,
            (Err(m), Err(em)) => m@ == em,
            _ => false,
        },
{
    let records = parse_csv(contents);
    if records.len() == 0 {
        return Err(string_of(&chars_of("Empty results file")));
    }
    let expected = build_csv_headers(
        expected_params,
        expected_metrics,
        preserve_output,
        stdout_only,
        stderr_only,
    );
    let ghost recs = rows_view(records@);
    assert(recs[0] == strings_view(records@[0]@));
    if !same_strings(&records[0], &expected) {
        let mut comma: Vec<char> = Vec::new();
        comma.push(',');
        assert(comma@ =~= seq![',']);
        let mut m = chars_of("Header mismatch.\nExpected: ");
        append_chars(&mut m, &join_strings(&expected, &comma));
        append_chars(&mut m, &chars_of("\nFound:    "));
        append_chars(&mut m, &join_strings(&records[0], &comma));
        assert(m@ =~= mismatch_error(strings_view(expected@), recs[0]));
        return Err(string_of(&m));
    }
    let header = &records[0];
    let np = expected_params.len();
    let nm = expected_metrics.len();
    let ghost hv = strings_view(header@);
    let ghost tail = recs.skip(1);
    let mut results: Vec<ExperimentResult> = Vec::new();
    let mut i: usize = 1;
    assert(tail.take(0) =~= Seq::<Seq<Seq<char>>>::empty());
    assert(results@.map_values(|x: ExperimentResult| result_view(x)) =~= Seq::<
        (Seq<(Seq<char>, Seq<char>)>, Seq<(Seq<char>, Seq<char>)>, Seq<char>, Seq<char>),
    >::empty());
    while i < records.len()
        invariant
            1 <= i <= records@.len(),
            recs == rows_view(records@),
            tail == recs.skip(1),
            hv == strings_view(header@),
            header == &records@[0],
            np == expected_params@.len(),
            nm == expected_metrics@.len(),
            hv.len() == np + nm + (if !preserve_output {
                0int
            } else if stdout_only || stderr_only {
                1int
            } else {
                2int
            }),
            results@.map_values(|x: ExperimentResult| result_view(x)) == loaded_rows(
                hv,
                tail.take(i - 1),
                np as int,
                nm as int,
            ),
        decreases records@.len() - i,
    {
        assert(tail.take(i as int).drop_last() =~= tail.take(i - 1));
        assert(tail.take(i as int).last() == strings_view(records@[i as int]@));
        let ghost before = results@.map_values(|x: ExperimentResult| result_view(x));
        if records[i].len() == header.len() {
            let res = load_row(header, &records[i], np, nm);
            results.push(res);
            assert(results@.map_values(|x: ExperimentResult| result_view(x)) =~= before.push(
                result_view(res),
            ));
        }
        i += 1;
    }
    assert(tail.take(records@.len() - 1) =~= tail);
    Ok(results)
}

// ---------------------------------------------------------------------------
// Resuming a sweep
/// Indices of the combinations that the rows do not hold, in order.
pub open spec fn pending(rows: Seq<ExperimentResult>, combos: Seq<Combination>) -> Seq<int>
    decreases combos.len(),
{
    if combos.len() == 0 {
        Seq::empty()
    } else {
        let p = pending(rows, combos.drop_last());
        if present(rows, combos.last()) {
            p
        } else {
            p.push(combos.len() - 1)
        }
    }
}

/// How many of the combinations the rows hold.
pub open spec fn held(rows: Seq<ExperimentResult>, combos: Seq<Combination>) -> nat
    decreases combos.len(),
{
    if combos.len() == 0 {
        0
    } else {
        held(rows, combos.drop_last()) + if present(rows, combos.last()) {
            1nat
        } else {
            0nat
        }
    }
}

/// Resuming: the combinations left to run are exactly those that the loaded
/// rows do not hold, in order, and when the rows hold `n` of the `m`
/// combinations there are `m - n` of them.
pub proof fn law_resume(rows: Seq<ExperimentResult>, combos: Seq<Combination>)
    ensures
        forall|i: int|
            pending(rows, combos).contains(i) <==> 0 <= i < combos.len() && !present(
                rows,
                combos[i],
            ),
        forall|a: int, b: int|
            0 <= a < b < pending(rows, combos).len() ==> pending(rows, combos)[a] < pending(
                rows,
                combos,
            )[b],
        pending(rows, combos).len() == combos.len() - held(rows, combos),
    decreases combos.len(),
{
    if combos.len() > 0 {
        let init = combos.drop_last();
        law_resume(rows, init);
        let p = pending(rows, init);
        let n = combos.len() - 1;
        assert forall|i: int| 0 <= i < n implies combos[i] == init[i] by {}
        assert forall|i: int|
            pending(rows, combos).contains(i) <==> 0 <= i < combos.len() && !present(
                rows,
                combos[i],
            ) by {
            if pending(rows, combos).contains(i) {
                let k = choose|k: int|
                    0 <= k < pending(rows, combos).len() && pending(rows, combos)[k] == i;
                if k < p.len() {
                    assert(p[k] == i);
                    assert(p.contains(i));
                }
            }
            if 0 <= i < n && !present(rows, combos[i]) {
                assert(p.contains(i));
                let k = choose|k: int| 0 <= k < p.len() && p[k] == i;
                assert(pending(rows, combos)[k] == i);
            }
            if i == n && !present(rows, combos[i]) {
                assert(pending(rows, combos)[p.len() as int] == i);
            }
        }
        assert forall|a: int, b: int|
            0 <= a < b < pending(rows, combos).len() implies pending(rows, combos)[a] < pending(
                rows,
                combos,
            )[b] by {
            if b == p.len() {
                assert(p.contains(p[a]));
            }
        }
    }
}

/// A sweep in progress: the combinations, the rows loaded from an earlier
/// run, and the results so far (the loaded rows first, then each new one).
pub struct Sweep {
    combos: Vec<Combination>,
    loaded: usize,
    results: Vec<ExperimentResult>,
    next: usize,
    rows: Ghost<Seq<ExperimentResult>>,
    ran: Ghost<Seq<int>>,
}

impl Sweep {
    pub closed spec fn combinations(&self) -> Seq<Combination> {
        self.combos@
    }

    /// The rows loaded when the sweep started.
    pub closed spec fn loaded_rows(&self) -> Seq<ExperimentResult> {
        self.rows@
    }

    pub closed spec fn results_so_far(&self) -> Seq<ExperimentResult> {
        self.results@
    }

    /// The combinations handed out to run so far.
    pub closed spec fn runs(&self) -> Seq<int> {
        self.ran@
    }

    /// Index of the first combination not yet considered.
    pub closed spec fn position(&self) -> int {
        self.next as int
    }

    /// The loaded rows stay first and unchanged, and the runs handed out are
    /// the pending combinations before the position.
    pub closed spec fn wf(&self) -> bool {
        &&& self.next <= self.combos@.len()
        &&& self.loaded == self.rows@.len()
        &&& self.loaded <= self.results@.len()
        &&& self.results@.take(self.loaded as int) == self.rows@
        &&& self.ran@ == pending(self.rows@, self.combos@.take(self.next as int))
    }

    pub fn new(combos: Vec<Combination>, existing: Vec<ExperimentResult>) -> (s: Sweep)
        ensures
            s.wf(),
            s.combinations() == combos@,
            s.loaded_rows() == existing@,
            s.results_so_far() == existing@,
            s.runs() == Seq::<int>::empty(),
            s.position() == 0,
    {
        let ghost rows = existing@;
        let loaded = existing.len();
        let s = Sweep {
            combos,
            loaded,
            results: existing,
            next: 0,
            rows: Ghost(rows),
            ran: Ghost(Seq::empty()),
        };
        assert(s.results@.take(loaded as int) =~= rows);
        assert(s.combos@.take(0) =~= Seq::<Combination>::empty());
        s
    }

    pub fn len(&self) -> (n: usize)
        ensures
            n == self.combinations().len(),
    {
        self.combos.len()
    }

    pub fn combination(&self, i: usize) -> (c: &Combination)
        requires
            i < self.combinations().len(),
        ensures
            *c == self.combinations()[i as int],
    {
        &self.combos[i]
    }

    pub fn results(&self) -> (r: &Vec<ExperimentResult>)
        ensures
            r@ == self.results_so_far(),
    {
        &self.results
    }

    /// The next combination to run: the first from the current position on
    /// that the loaded rows do not hold. `None` when none is left.
    pub fn next_pending(&mut self) -> (r: Option<usize>)
        requires
            old(self).wf(),
        ensures
            final(self).wf(),
            final(self).combinations() == old(self).combinations(),
            final(self).loaded_rows() == old(self).loaded_rows(),
            final(self).results_so_far() == old(self).results_so_far(),
            forall|j: int|
                old(self).position() <= j < final(self).position() && (r matches Some(i) ==> j
                    != i) ==> present(
                    old(self).loaded_rows(),
                    #[trigger] old(self).combinations()[j],
                ),
            match r {
                Some(i) => {
                    &&& old(self).position() <= i < old(self).combinations().len()
                    &&& !present(old(self).loaded_rows(), old(self).combinations()[i as int])
                    &&& final(self).position() == i + 1
                    &&& final(self).runs() == old(self).runs().push(i as int)
                },
                None => {
                    &&& final(self).position() == old(self).combinations().len()
                    &&& final(self).runs() == old(self).runs()
                    &&& final(self).runs() == pending(
                        old(self).loaded_rows(),
                        old(self).combinations(),
                    )
                },
            },
    {
        let ghost start = self.next as int;
        while self.next < self.combos.len()
            invariant
                self.wf(),
                self.combos == old(self).combos,
                self.rows == old(self).rows,
                self.results == old(self).results,
                self.loaded == old(self).loaded,
                self.ran == old(self).ran,
                start == old(self).next,
                start <= self.next,
                forall|j: int|
                    start <= j < self.next ==> present(self.rows@, #[trigger] self.combos@[j]),
            decreases self.combos@.len() - self.next,
        {
            let i = self.next;
            let ghost taken = self.combos@.take(i + 1);
            assert(taken.drop_last() =~= self.combos@.take(i as int));
            assert(taken.last() == self.combos@[i as int]);
            if !held_in_first(&self.results, self.loaded, &self.combos[i]) {
                self.next = i + 1;
                self.ran = Ghost(self.ran@.push(i as int));
                return Some(i);
            }
            self.next = i + 1;
        }
        assert(self.combos@.take(self.next as int) =~= self.combos@);
        None
    }

    /// Adds the result of a successful run after the results so far.
    pub fn record(&mut self, result: ExperimentResult)
        requires
            old(self).wf(),
        ensures
            final(self).wf(),
            final(self).combinations() == old(self).combinations(),
            final(self).loaded_rows() == old(self).loaded_rows(),
            final(self).runs() == old(self).runs(),
            final(self).position() == old(self).position(),
            final(self).results_so_far() == old(self).results_so_far().push(result),
    {
        let ghost before = self.results@;
        self.results.push(result);
        assert(self.results@.take(self.loaded as int) =~= before.take(self.loaded as int));
    }
}

} // verus!
