//! CSV text in the RFC 4180 style: quoting of fields, a reader built as a
//! small state machine, and the column schema of the result store.
use vstd::prelude::*;
use crate::evaluator::strings_view;
use crate::text::{chars_of, slice_chars, string_of, views};

verus! {

/// A field is quoted when it holds a comma, a quote or a line break.
pub open spec fn needs_quotes(f: Seq<char>) -> bool {
    f.contains(',') || f.contains('"') || f.contains('\n') || f.contains('\r')
}

/// The field with every quote doubled.
pub open spec fn double_quotes(f: Seq<char>) -> Seq<char>
    decreases f.len(),
{
    if f.len() == 0 {
        Seq::empty()
    } else {
        double_quotes(f.drop_last()) + (if f.last() == '"' {
            seq!['"', '"']
        } else {
            seq![f.last()]
        })
    }
}

pub open spec fn escaped(f: Seq<char>) -> Seq<char> {
    if needs_quotes(f) {
        seq!['"'] + double_quotes(f) + seq!['"']
    } else {
        f
    }
}

/// The texts joined with `sep` between them.
pub open spec fn join(fs: Seq<Seq<char>>, sep: Seq<char>) -> Seq<char>
    decreases fs.len(),
{
    if fs.len() == 0 {
        Seq::empty()
    } else if fs.len() == 1 {
        fs[0]
    } else {
        join(fs.drop_last(), sep) + sep + fs.last()
    }
}

/// One record as a line of CSV text.
pub open spec fn csv_line(row: Seq<Seq<char>>) -> Seq<char> {
    join(row.map_values(|f: Seq<char>| escaped(f)), seq![',']) + seq!['\n']
}

/// Records as CSV text, one line each.
pub open spec fn csv_text(rows: Seq<Seq<Seq<char>>>) -> Seq<char>
    decreases rows.len(),
{
    if rows.len() == 0 {
        Seq::empty()
    } else {
        csv_text(rows.drop_last()) + csv_line(rows.last())
    }
}

/// The columns of the result store: parameters in declaration order, the
/// requested metrics in the order asked, then the captured output.
pub open spec fn header_columns(
    names: Seq<Seq<char>>,
    ms: Seq<Seq<char>>,
    preserve: bool,
    stdout_only: bool,
    stderr_only: bool,
) -> Seq<Seq<char>> {
    names + ms + if !preserve {
        Seq::empty()
    } else if stdout_only {
        seq!["stdout"@]
    } else if stderr_only {
        seq!["stderr"@]
    } else {
        seq!["stdout"@, "stderr"@]
    }
}

/// Builds the column names of the result store.
pub fn build_csv_headers(
    param_names: &[String],
    metrics: &[String],
    preserve_output: bool,
    stdout_only: bool,
    stderr_only: bool,
) -> (r: Vec<String>)
    ensures
        strings_view(r@) == header_columns(
            strings_view(param_names@),
            strings_view(metrics@),
            preserve_output,
            stdout_only,
            stderr_only,
        ),
{
    let mut headers: Vec<String> = Vec::new();
    let ghost pn = strings_view(param_names@);
    let ghost mv = strings_view(metrics@);
    let mut i: usize = 0;
    while i < param_names.len()
        invariant
            pn == strings_view(param_names@),
            i <= pn.len(),
            headers@.len() == i,
            strings_view(headers@) == pn.take(i as int),
        decreases pn.len() - i,
    {
        let h = param_names[i].clone();
        let ghost before = headers@;
        headers.push(h);
        assert(headers@ == before.push(h));
        assert(strings_view(headers@) =~= pn.take(i + 1));
        i += 1;
    }
    assert(pn.take(pn.len() as int) =~= pn);
    let mut j: usize = 0;
    while j < metrics.len()
        invariant
            pn == strings_view(param_names@),
            mv == strings_view(metrics@),
            j <= mv.len(),
            headers@.len() == pn.len() + j,
            strings_view(headers@) == pn + mv.take(j as int),
        decreases mv.len() - j,
    {
        let h = metrics[j].clone();
        let ghost before = headers@;
        headers.push(h);
        assert(headers@ == before.push(h));
        assert(strings_view(headers@) =~= strings_view(before).push(h@));
        assert(pn + mv.take(j + 1) =~= (pn + mv.take(j as int)).push(mv[j as int]));
        j += 1;
    }
    assert(mv.take(mv.len() as int) =~= mv);
    if preserve_output {
        if stdout_only {
            headers.push(string_of(&chars_of("stdout")));
        } else if stderr_only {
            headers.push(string_of(&chars_of("stderr")));
        } else {
            headers.push(string_of(&chars_of("stdout")));
            headers.push(string_of(&chars_of("stderr")));
        }
    }
    assert(strings_view(headers@) =~= header_columns(
        strings_view(param_names@),
        strings_view(metrics@),
        preserve_output,
        stdout_only,
        stderr_only,
    ));
    headers
}

/// Quotes a field when it needs it, doubling the quotes inside.
pub fn escape_csv_field(field: &[char]) -> (r: Vec<char>)
    ensures
        r@ == escaped(field@),
{
    let mut quote = false;
    let mut i: usize = 0;
    while i < field.len()
        invariant
            i <= field@.len(),
            quote == exists|k: int|
                0 <= k < i && (field@[k] == ',' || field@[k] == '"' || field@[k] == '\n'
                    || field@[k] == '\r'),
        decreases field@.len() - i,
    {
        let c = field[i];
        if c == ',' || c == '"' || c == '\n' || c == '\r' {
            quote = true;
        }
        i += 1;
    }
    proof {
        if quote {
            let k = choose|k: int|
                0 <= k < i && (field@[k] == ',' || field@[k] == '"' || field@[k] == '\n'
                    || field@[k] == '\r');
            assert(field@.contains(field@[k]));
        } else {
            assert(!field@.contains(','));
            assert(!field@.contains('"'));
            assert(!field@.contains('\n'));
            assert(!field@.contains('\r'));
        }
    }
    if !quote {
        let copy = slice_chars(field, 0, field.len());
        assert(copy@ =~= field@);
        return copy;
    }
    let mut out: Vec<char> = Vec::new();
    out.push('"');
    let mut j: usize = 0;
    while j < field.len()
        invariant
            j <= field@.len(),
            out@ == seq!['"'] + double_quotes(field@.take(j as int)),
        decreases field@.len() - j,
    {
        let c = field[j];
        assert(field@.take(j + 1).drop_last() =~= field@.take(j as int));
        if c == '"' {
            out.push('"');
            out.push('"');
        } else {
            out.push(c);
        }
        assert(out@ =~= seq!['"'] + double_quotes(field@.take(j + 1)));
        j += 1;
    }
    out.push('"');
    assert(field@.take(field@.len() as int) =~= field@);
    assert(out@ =~= seq!['"'] + double_quotes(field@) + seq!['"']);
    out
}

/// Appends one record, as a CSV line, to `out`.
pub fn write_csv_line(out: &mut Vec<char>, row: &Vec<Vec<char>>)
    ensures
        final(out)@ == old(out)@ + csv_line(views(row@)),
{
    let ghost rv = views(row@);
    let ghost ev = rv.map_values(|f: Seq<char>| escaped(f));
    let mut i: usize = 0;
    assert(ev.take(0) =~= Seq::<Seq<char>>::empty());
    while i < row.len()
        invariant
            i <= row@.len(),
            rv == views(row@),
            ev == rv.map_values(|f: Seq<char>| escaped(f)),
            out@ == old(out)@ + join(ev.take(i as int), seq![',']),
        decreases row@.len() - i,
    {
        let e = escape_csv_field(&row[i]);
        assert(e@ == ev[i as int]);
        assert(ev.take(i + 1).drop_last() =~= ev.take(i as int));
        if i > 0 {
            out.push(',');
        }
        let mut k: usize = 0;
        let ghost base = out@;
        while k < e.len()
            invariant
                k <= e@.len(),
                out@ == base + e@.take(k as int),
            decreases e@.len() - k,
        {
            out.push(e[k]);
            k += 1;
            assert(out@ =~= base + e@.take(k as int));
        }
        assert(e@.take(e@.len() as int) =~= e@);
        if i == 0 {
            assert(ev.take(1) =~= seq![ev[0]]);
            assert(out@ =~= old(out)@ + join(ev.take(i + 1), seq![',']));
        } else {
            assert(out@ =~= old(out)@ + join(ev.take(i + 1), seq![',']));
        }
        i += 1;
    }
    assert(ev.take(row@.len() as int) =~= ev);
    out.push('\n');
    assert(out@ =~= old(out)@ + csv_line(rv));
}

/// Where the reader stands: outside quotes, inside quotes, or inside quotes
/// just after a quote (which either closes them or, doubled, is a quote).
pub enum QuoteState {
    Unquoted,
    Quoted,
    QuoteSeen,
}

/// The reader's state: records so far, fields of the open record, the open
/// field, and the quote state.
pub ghost struct CsvScan {
    pub records: Seq<Seq<Seq<char>>>,
    pub record: Seq<Seq<char>>,
    pub field: Seq<char>,
    pub mode: QuoteState,
}

pub open spec fn any_filled(rec: Seq<Seq<char>>) -> bool {
    exists|i: int| 0 <= i < rec.len() && (#[trigger] rec[i]).len() > 0
}

/// The records with the open record closed: it is kept when a field of it
/// is not empty.
pub open spec fn closed_records(st: CsvScan) -> Seq<Seq<Seq<char>>> {
    let rec = st.record.push(st.field);
    if any_filled(rec) {
        st.records.push(rec)
    } else {
        st.records
    }
}

/// One character outside quotes.
pub open spec fn unquoted_step(st: CsvScan, c: char) -> CsvScan {
    if c == '"' {
        CsvScan { mode: QuoteState::Quoted, ..st }
    } else if c == ',' {
        CsvScan { record: st.record.push(st.field), field: Seq::empty(), ..st }
    } else if c == '\n' {
        CsvScan {
            records: closed_records(st),
            record: Seq::empty(),
            field: Seq::empty(),
            mode: QuoteState::Unquoted,
        }
    } else if c == '\r' {
        st
    } else {
        CsvScan { field: st.field.push(c), ..st }
    }
}

pub open spec fn csv_step(st: CsvScan, c: char) -> CsvScan {
    match st.mode {
        QuoteState::Unquoted => unquoted_step(st, c),
        QuoteState::Quoted => if c == '"' {
            CsvScan { mode: QuoteState::QuoteSeen, ..st }
        } else {
            CsvScan { field: st.field.push(c), ..st }
        },
        QuoteState::QuoteSeen => if c == '"' {
            CsvScan { field: st.field.push('"'), mode: QuoteState::Quoted, ..st }
        } else {
            unquoted_step(CsvScan { mode: QuoteState::Unquoted, ..st }, c)
        },
    }
}

pub open spec fn csv_run(s: Seq<char>) -> CsvScan
    decreases s.len(),
{
    if s.len() == 0 {
        CsvScan {
            records: Seq::empty(),
            record: Seq::empty(),
            field: Seq::empty(),
            mode: QuoteState::Unquoted,
        }
    } else {
        csv_step(csv_run(s.drop_last()), s.last())
    }
}

/// The records of a CSV text. Records whose fields are all empty (blank
/// lines) are dropped; a quoted field may span lines.
pub open spec fn csv_records(s: Seq<char>) -> Seq<Seq<Seq<char>>> {
    closed_records(csv_run(s))
}

pub open spec fn rows_view(v: Seq<Vec<String>>) -> Seq<Seq<Seq<char>>> {
    v.map_values(|r: Vec<String>| strings_view(r@))
}

fn has_filled(rec: &Vec<String>) -> (r: bool)
    ensures
        r == any_filled(strings_view(rec@)),
{
    let mut i: usize = 0;
    while i < rec.len()
        invariant
            i <= rec@.len(),
            forall|k: int| 0 <= k < i ==> rec@[k]@.len() == 0,
        decreases rec@.len() - i,
    {
        if rec[i].as_str().unicode_len() > 0 {
            assert(strings_view(rec@)[i as int].len() > 0);
            return true;
        }
        i += 1;
    }
    assert forall|k: int| 0 <= k < strings_view(rec@).len() implies (#[trigger] strings_view(
        rec@,
    )[k]).len() == 0 by {
        assert(strings_view(rec@)[k] == rec@[k]@);
    }
    false
}

/// Reads CSV text into records of fields.
pub fn parse_csv(content: &str) -> (r: Vec<Vec<String>>)
    ensures
        rows_view(r@) == csv_records(content@),
{
    let chars = chars_of(content);
    let mut records: Vec<Vec<String>> = Vec::new();
    let mut record: Vec<String> = Vec::new();
    let mut field: Vec<char> = Vec::new();
    // 0: outside quotes, 1: inside quotes, 2: inside quotes after a quote
    let mut mode: u8 = 0;
    let mut i: usize = 0;
    assert(chars@.take(0) =~= Seq::<char>::empty());
    assert(rows_view(records@) =~= Seq::<Seq<Seq<char>>>::empty());
    assert(strings_view(record@) =~= Seq::<Seq<char>>::empty());
    while i < chars.len()
        invariant
            i <= chars@.len(),
            chars@ == content@,
            mode <= 2,
            csv_run(chars@.take(i as int)) == (CsvScan {
                records: rows_view(records@),
                record: strings_view(record@),
                field: field@,
                mode: if mode == 0 {
                    QuoteState::Unquoted
                } else if mode == 1 {
                    QuoteState::Quoted
                } else {
                    QuoteState::QuoteSeen
                },
            }),
        decreases chars@.len() - i,
    {
        let c = chars[i];
        assert(chars@.take(i + 1).drop_last() =~= chars@.take(i as int));
        assert(chars@.take(i + 1).last() == c);
        let ghost st = csv_run(chars@.take(i as int));
        if mode == 1 {
            if c == '"' {
                mode = 2;
            } else {
                field.push(c);
            }
        } else if mode == 2 && c == '"' {
            field.push('"');
            mode = 1;
        } else {
            // outside quotes, or a closing quote followed by `c`
            mode = 0;
            if c == '"' {
                mode = 1;
            } else if c == ',' {
                let ghost before = strings_view(record@);
                record.push(string_of(&field));
                assert(strings_view(record@) =~= before.push(field@));
                field = Vec::new();
            } else if c == '\n' {
                let ghost before = strings_view(record@);
                record.push(string_of(&field));
                assert(strings_view(record@) =~= before.push(field@));
                let ghost rb = rows_view(records@);
                if has_filled(&record) {
                    let done = record;
                    records.push(done);
                    assert(rows_view(records@) =~= rb.push(strings_view(done@)));
                }
                record = Vec::new();
                field = Vec::new();
                assert(strings_view(record@) =~= Seq::<Seq<char>>::empty());
            } else if c != '\r' {
                field.push(c);
            }
        }
        assert(field@ =~= csv_run(chars@.take(i + 1)).field);
        assert(strings_view(record@) =~= csv_run(chars@.take(i + 1)).record);
        assert(rows_view(records@) =~= csv_run(chars@.take(i + 1)).records);
        i += 1;
    }
    assert(chars@.take(chars@.len() as int) =~= chars@);
    let ghost before = strings_view(record@);
    record.push(string_of(&field));
    assert(strings_view(record@) =~= before.push(field@));
    let ghost rb = rows_view(records@);
    if has_filled(&record) {
        let done = record;
        records.push(done);
        assert(rows_view(records@) =~= rb.push(strings_view(done@)));
    }
    records
}

/// The reader's state after `t`, starting from `st`.
pub open spec fn run_from(st: CsvScan, t: Seq<char>) -> CsvScan
    decreases t.len(),
{
    if t.len() == 0 {
        st
    } else {
        csv_step(run_from(st, t.drop_last()), t.last())
    }
}

proof fn lemma_run_from_concat(st: CsvScan, a: Seq<char>, b: Seq<char>)
    ensures
        run_from(st, a + b) == run_from(run_from(st, a), b),
    decreases b.len(),
{
    if b.len() == 0 {
        assert(a + b =~= a);
    } else {
        assert((a + b).drop_last() =~= a + b.drop_last());
        lemma_run_from_concat(st, a, b.drop_last());
    }
}

proof fn lemma_run_one(st: CsvScan, c: char)
    ensures
        run_from(st, seq![c]) == csv_step(st, c),
{
    assert(seq![c].drop_last() =~= Seq::<char>::empty());
    assert(run_from(st, Seq::<char>::empty()) == st);
}

proof fn lemma_run_is_run_from(s: Seq<char>)
    ensures
        csv_run(s) == run_from(csv_run(Seq::empty()), s),
    decreases s.len(),
{
    if s.len() > 0 {
        lemma_run_is_run_from(s.drop_last());
    }
}

/// Outside quotes, or just after a closing quote: the next character that
/// is not a quote is read as outside quotes.
pub open spec fn settled(st: CsvScan) -> bool {
    st.mode == QuoteState::Unquoted || st.mode == QuoteState::QuoteSeen
}

/// Reading a written field from the start of a field leaves exactly that
/// field open.
proof fn lemma_read_field(st: CsvScan, f: Seq<char>)
    requires
        st.mode == QuoteState::Unquoted,
        st.field == Seq::<char>::empty(),
    ensures
        run_from(st, escaped(f)).records == st.records,
        run_from(st, escaped(f)).record == st.record,
        run_from(st, escaped(f)).field == f,
        settled(run_from(st, escaped(f))),
{
    if needs_quotes(f) {
        let open = run_from(st, seq!['"']);
        lemma_run_one(st, '"');
        assert(open == CsvScan { mode: QuoteState::Quoted, ..st });
        lemma_read_quoted(open, f);
        lemma_run_from_concat(st, seq!['"'], double_quotes(f));
        lemma_run_from_concat(st, seq!['"'] + double_quotes(f), seq!['"']);
        let inner = run_from(st, seq!['"'] + double_quotes(f));
        lemma_run_one(inner, '"');
    } else {
        lemma_read_plain(st, f);
    }
}

proof fn lemma_read_plain(st: CsvScan, f: Seq<char>)
    requires
        st.mode == QuoteState::Unquoted,
        st.field == Seq::<char>::empty(),
        !needs_quotes(f),
    ensures
        run_from(st, f) == (CsvScan { field: f, ..st }),
    decreases f.len(),
{
    if f.len() > 0 {
        let g = f.drop_last();
        assert(!g.contains(',') && !g.contains('"') && !g.contains('\n') && !g.contains('\r')) by {
            if g.contains(',') || g.contains('"') || g.contains('\n') || g.contains('\r') {
                let i = choose|i: int|
                    0 <= i < g.len() && (g[i] == ',' || g[i] == '"' || g[i] == '\n' || g[i] == '\r');
                assert(f[i] == g[i]);
            }
        }
        lemma_read_plain(st, g);
        assert(f =~= g + seq![f.last()]);
        lemma_run_from_concat(st, g, seq![f.last()]);
        lemma_run_one(run_from(st, g), f.last());
        let c = f.last();
        assert(f[f.len() - 1] == c);
        assert(c != ',' && c != '"' && c != '\n' && c != '\r');
        assert(g.push(c) =~= f);
    } else {
        assert(f =~= Seq::<char>::empty());
    }
}

proof fn lemma_read_quoted(st: CsvScan, f: Seq<char>)
    requires
        st.mode == QuoteState::Quoted,
        st.field == Seq::<char>::empty(),
    ensures
        run_from(st, double_quotes(f)) == (CsvScan { field: f, ..st }),
    decreases f.len(),
{
    if f.len() > 0 {
        let g = f.drop_last();
        let c = f.last();
        lemma_read_quoted(st, g);
        let piece = if c == '"' {
            seq!['"', '"']
        } else {
            seq![c]
        };
        assert(double_quotes(f) == double_quotes(g) + piece);
        lemma_run_from_concat(st, double_quotes(g), piece);
        let mid = run_from(st, double_quotes(g));
        if c == '"' {
            assert(seq!['"', '"'] =~= seq!['"'] + seq!['"']);
            lemma_run_from_concat(mid, seq!['"'], seq!['"']);
            lemma_run_one(mid, '"');
            lemma_run_one(run_from(mid, seq!['"']), '"');
        } else {
            lemma_run_one(mid, c);
        }
        assert(g.push(c) =~= f);
    } else {
        assert(double_quotes(f) =~= Seq::<char>::empty());
        assert(f =~= Seq::<char>::empty());
    }
}

/// Reading the first `k` written fields of a line (joined by commas) leaves
/// the first `k - 1` in the record and the last one open.
proof fn lemma_read_fields(st: CsvScan, fs: Seq<Seq<char>>, k: int)
    requires
        st.mode == QuoteState::Unquoted,
        st.field == Seq::<char>::empty(),
        st.record == Seq::<Seq<char>>::empty(),
        1 <= k <= fs.len(),
    ensures
        run_from(st, join(fs.take(k).map_values(|f: Seq<char>| escaped(f)), seq![','])).records
            == st.records,
        run_from(st, join(fs.take(k).map_values(|f: Seq<char>| escaped(f)), seq![','])).record
            == fs.take(k - 1),
        run_from(st, join(fs.take(k).map_values(|f: Seq<char>| escaped(f)), seq![','])).field
            == fs[k - 1],
        settled(run_from(st, join(fs.take(k).map_values(|f: Seq<char>| escaped(f)), seq![',']))),
    decreases k,
{
    let ev = fs.take(k).map_values(|f: Seq<char>| escaped(f));
    if k == 1 {
        assert(join(ev, seq![',']) == ev[0]);
        lemma_read_field(st, fs[0]);
        assert(fs.take(0) =~= Seq::<Seq<char>>::empty());
    } else {
        lemma_read_fields(st, fs, k - 1);
        let prev = fs.take(k - 1).map_values(|f: Seq<char>| escaped(f));
        assert(ev.drop_last() =~= prev);
        assert(join(ev, seq![',']) == join(prev, seq![',']) + seq![','] + ev.last());
        let a = run_from(st, join(prev, seq![',']));
        lemma_run_from_concat(st, join(prev, seq![',']), seq![',']);
        lemma_run_from_concat(st, join(prev, seq![',']) + seq![','], ev.last());
        lemma_run_one(a, ',');
        let b = run_from(a, seq![',']);
        assert(b == CsvScan {
            records: st.records,
            record: fs.take(k - 2).push(fs[k - 2]),
            field: Seq::empty(),
            mode: QuoteState::Unquoted,
        });
        assert(fs.take(k - 2).push(fs[k - 2]) =~= fs.take(k - 1));
        lemma_read_field(b, fs[k - 1]);
    }
}

/// Reading a written line closes its record: kept when a field is not empty.
proof fn lemma_read_line(st: CsvScan, fs: Seq<Seq<char>>)
    requires
        st.mode == QuoteState::Unquoted,
        st.field == Seq::<char>::empty(),
        st.record == Seq::<Seq<char>>::empty(),
        fs.len() >= 1,
        any_filled(fs),
    ensures
        run_from(st, csv_line(fs)) == (CsvScan {
            records: st.records.push(fs),
            record: Seq::empty(),
            field: Seq::empty(),
            mode: QuoteState::Unquoted,
        }),
{
    let n = fs.len() as int;
    assert(fs.take(n) =~= fs);
    lemma_read_fields(st, fs, n);
    let body = join(fs.map_values(|f: Seq<char>| escaped(f)), seq![',']);
    lemma_run_from_concat(st, body, seq!['\n']);
    let a = run_from(st, body);
    lemma_run_one(a, '\n');
    assert(a.record.push(a.field) =~= fs);
}

/// Records written as CSV text read back as they were, when each record has
/// a field and not all of its fields are empty.
pub proof fn law_csv_round_trip(rows: Seq<Seq<Seq<char>>>)
    requires
        forall|i: int| 0 <= i < rows.len() ==> (#[trigger] rows[i]).len() >= 1 && any_filled(rows[i]),
    ensures
        csv_records(csv_text(rows)) == rows,
{
    lemma_text_state(rows);
    lemma_run_is_run_from(csv_text(rows));
    let st = csv_run(csv_text(rows));
    assert(!any_filled(st.record.push(st.field))) by {
        assert(st.record.push(st.field) =~= seq![Seq::<char>::empty()]);
    }
}

proof fn lemma_text_state(rows: Seq<Seq<Seq<char>>>)
    requires
        forall|i: int| 0 <= i < rows.len() ==> (#[trigger] rows[i]).len() >= 1 && any_filled(rows[i]),
    ensures
        run_from(csv_run(Seq::empty()), csv_text(rows)) == (CsvScan {
            records: rows,
            record: Seq::empty(),
            field: Seq::empty(),
            mode: QuoteState::Unquoted,
        }),
    decreases rows.len(),
{
    let st0 = csv_run(Seq::<char>::empty());
    if rows.len() == 0 {
        assert(csv_text(rows) =~= Seq::<char>::empty());
        assert(run_from(st0, Seq::<char>::empty()) == st0);
        assert(rows =~= Seq::<Seq<Seq<char>>>::empty());
    } else {
        let init = rows.drop_last();
        assert(csv_text(rows) == csv_text(init) + csv_line(rows.last()));
        assert forall|i: int| 0 <= i < init.len() implies (#[trigger] init[i]).len() >= 1
            && any_filled(init[i]) by {
            assert(init[i] == rows[i]);
        }
        lemma_text_state(init);
        lemma_run_from_concat(st0, csv_text(init), csv_line(rows.last()));
        assert(rows.last() == rows[rows.len() - 1]);
        lemma_read_line(run_from(st0, csv_text(init)), rows.last());
        assert(init.push(rows.last()) =~= rows);
    }
}

} // verus!
