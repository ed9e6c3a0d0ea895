//! Run options and the command line that sets them.
use vstd::prelude::*;
use crate::evaluator::{string_pairs, strings_view};
use crate::expr::append_chars;
use crate::text::{
    chars_eq, chars_of, slice_chars, split, split_seq, string_of, to_upper, trim, trimmed, upper_of,
    views,
};

verus! {

/// What to capture, which metrics to keep, and where results go.
#[derive(Debug, Clone)]
pub struct Options {
    pub stdout_only: bool,
    pub stderr_only: bool,
    pub metrics: Vec<String>,
    pub output_file: String,
    pub preserve_output: bool,
}

impl Default for Options {
    fn default() -> (r: Options)
        ensures
            !r.stdout_only,
            !r.stderr_only,
            r.metrics@.len() == 0,
            r.output_file@ == "results.csv"@,
            !r.preserve_output,
    {
        Options {
            stdout_only: false,
            stderr_only: false,
            metrics: Vec::new(),
            output_file: string_of(&chars_of("results.csv")),
            preserve_output: false,
        }
    }
}

/// What the command line has set so far.
pub ghost struct ArgState {
    pub params: Seq<(Seq<char>, Seq<char>)>,
    pub stdout_only: bool,
    pub stderr_only: bool,
    pub metrics: Seq<Seq<char>>,
    pub output: Seq<char>,
    pub preserve: bool,
}

pub open spec fn starts_with(a: Seq<char>, p: Seq<char>) -> bool {
    p.len() <= a.len() && a.take(p.len() as int) == p
}

/// Index of the first `=`, or -1.
pub open spec fn first_eq(s: Seq<char>) -> int
    decreases s.len(),
{
    if s.len() == 0 {
        -1
    } else if s[0] == '=' {
        0
    } else if first_eq(s.drop_first()) < 0 {
        -1
    } else {
        first_eq(s.drop_first()) + 1
    }
}

/// One ASCII character (one byte).
pub open spec fn single_ascii(s: Seq<char>) -> bool {
    s.len() == 1 && (s[0] as u32) < 128
}

/// A comma-separated metric list, each name trimmed.
pub open spec fn metric_list(v: Seq<char>) -> Seq<Seq<char>> {
    split_seq(v, seq![',']).map_values(|m: Seq<char>| trimmed(m))
}

/// A parameter name as an environment variable: upper case, `-` as `_`.
pub open spec fn param_name(s: Seq<char>) -> Seq<char> {
    upper_of(s).map_values(|c: char| if c == '-' { '_' } else { c })
}

pub open spec fn unknown_option(a: Seq<char>) -> Seq<char> {
    "Unknown option: "@ + a
}

/// Reads the options and parameters from position `i` on; the command
/// starts at the first argument that is neither.
pub open spec fn parse_from(args: Seq<Seq<char>>, i: int, st: ArgState) -> Result<
    (ArgState, int),
    Seq<char>,
>
    decreases args.len() - i,
{
    if i < 0 || i >= args.len() {
        Ok((st, i))
    } else {
        let a = args[i];
        let has_next = i + 1 < args.len();
        if a == "--stdout"@ {
            parse_from(args, i + 1, ArgState { stdout_only: true, ..st })
        } else if a == "--stderr"@ {
            parse_from(args, i + 1, ArgState { stderr_only: true, ..st })
        } else if starts_with(a, "--metrics="@) {
            parse_from(
                args,
                i + 1,
                ArgState { metrics: metric_list(a.skip("--metrics="@.len() as int)), ..st },
            )
        } else if starts_with(a, "-m="@) {
            parse_from(args, i + 1, ArgState { metrics: metric_list(a.skip("-m="@.len() as int)), ..st })
        } else if a == "--metrics"@ || a == "-m"@ {
            if has_next {
                parse_from(args, i + 2, ArgState { metrics: metric_list(args[i + 1]), ..st })
            } else {
                Err("--metrics/-m requires an argument"@)
            }
        } else if starts_with(a, "--output="@) {
            parse_from(args, i + 1, ArgState { output: a.skip("--output="@.len() as int), ..st })
        } else if a == "--output"@ {
            if has_next {
                parse_from(args, i + 2, ArgState { output: args[i + 1], ..st })
            } else {
                Err("--output requires an argument"@)
            }
        } else if a == "--preserve-output"@ || a == "-p"@ {
            parse_from(args, i + 1, ArgState { preserve: true, ..st })
        } else if a == "-h"@ || a == "--help"@ {
            Err("HELP_REQUESTED"@)
        } else if starts_with(a, "--"@) {
            let s = a.skip("--"@.len() as int);
            let e = first_eq(s);
            if e >= 0 {
                parse_from(
                    args,
                    i + 1,
                    ArgState { params: st.params.push((param_name(s.take(e)), s.skip(e + 1))), ..st },
                )
            } else if has_next {
                parse_from(
                    args,
                    i + 2,
                    ArgState { params: st.params.push((param_name(s), args[i + 1])), ..st },
                )
            } else {
                Err("Parameter --"@ + s + " requires a value"@)
            }
        } else if starts_with(a, "-"@) {
            let s = a.skip("-"@.len() as int);
            let e = first_eq(s);
            if single_ascii(s) {
                if s[0] == 'm' || s[0] == 'p' || s[0] == 'h' {
                    Err(unknown_option(a))
                } else if has_next {
                    parse_from(
                        args,
                        i + 2,
                        ArgState { params: st.params.push((upper_of(s), args[i + 1])), ..st },
                    )
                } else {
                    Err("Parameter "@ + a + " requires a value"@)
                }
            } else if e >= 0 && single_ascii(s.take(e)) {
                parse_from(
                    args,
                    i + 1,
                    ArgState { params: st.params.push((upper_of(s.take(e)), s.skip(e + 1))), ..st },
                )
            } else {
                Err(unknown_option(a))
            }
        } else {
            Ok((st, i))
        }
    }
}

pub open spec fn initial_args() -> ArgState {
    ArgState {
        params: Seq::empty(),
        stdout_only: false,
        stderr_only: false,
        metrics: Seq::empty(),
        output: "results.csv"@,
        preserve: false,
    }
}

/// The parameters, options and where the command starts, or why the command
/// line is refused.
pub open spec fn command_line(args: Seq<Seq<char>>) -> Result<(ArgState, int), Seq<char>> {
    match parse_from(args, 0, initial_args()) {
        Err(m) => Err(m),
        Ok((st, i)) => if st.stdout_only && st.stderr_only {
            Err("Cannot specify both --stdout and --stderr"@)
        } else {
            Ok((st, i))
        },
    }
}

pub open spec fn state_of(
    params: Seq<(String, String)>,
    o: Options,
) -> ArgState {
    ArgState {
        params: string_pairs(params),
        stdout_only: o.stdout_only,
        stderr_only: o.stderr_only,
        metrics: strings_view(o.metrics@),
        output: o.output_file@,
        preserve: o.preserve_output,
    }
}

fn starts_with_chars(a: &[char], p: &[char]) -> (r: bool)
    ensures
        r == starts_with(a@, p@),
{
    if p.len() > a.len() {
        return false;
    }
    let head = slice_chars(a, 0, p.len());
    assert(head@ =~= a@.take(p@.len() as int));
    chars_eq(&head, p)
}

fn is_literal(a: &[char], lit: &str) -> (r: bool)
    ensures
        r == (a@ == lit@),
{
    chars_eq(a, &chars_of(lit))
}

fn find_eq(s: &[char]) -> (r: Option<usize>)
    ensures
        r matches Some(e) ==> first_eq(s@) == e && e < s@.len(),
        r is None ==> first_eq(s@) < 0,
{
    let mut i: usize = 0;
    assert(s@.skip(0) =~= s@);
    while i < s.len()
        invariant
            i <= s@.len(),
            first_eq(s@) == (if first_eq(s@.skip(i as int)) < 0 {
                -1
            } else {
                first_eq(s@.skip(i as int)) + i
            }),
        decreases s@.len() - i,
    {
        assert(s@.skip(i as int).drop_first() =~= s@.skip(i + 1));
        if s[i] == '=' {
            return Some(i);
        }
        i += 1;
    }
    None
}

fn param_name_of(s: &[char]) -> (r: String)
    ensures
        r@ == param_name(s@),
{
    let u = to_upper(s);
    let mut out: Vec<char> = Vec::new();
    let mut i: usize = 0;
    while i < u.len()
        invariant
            i <= u@.len(),
            out@ == u@.take(i as int).map_values(|c: char| if c == '-' { '_' } else { c }),
        decreases u@.len() - i,
    {
        let c = u[i];
        out.push(if c == '-' { '_' } else { c });
        assert(out@ =~= u@.take(i + 1).map_values(|c: char| if c == '-' { '_' } else { c }));
        i += 1;
    }
    assert(u@.take(u@.len() as int) =~= u@);
    string_of(&out)
}

fn metric_list_of(v: &[char]) -> (r: Vec<String>)
    ensures
        strings_view(r@) == metric_list(v@),
{
    let comma: [char; 1] = [','];
    assert(comma@ =~= seq![',']);
    let parts = split(v, comma.as_slice());
    let ghost pv = views(parts@);
    let mut out: Vec<String> = Vec::new();
    let mut i: usize = 0;
    while i < parts.len()
        invariant
            i <= parts@.len(),
            pv == views(parts@),
            pv == split_seq(v@, seq![',']),
            strings_view(out@) == pv.take(i as int).map_values(|m: Seq<char>| trimmed(m)),
        decreases parts@.len() - i,
    {
        let t = string_of(&trim(&parts[i]));
        let ghost before = strings_view(out@);
        out.push(t);
        assert(strings_view(out@) =~= before.push(t@));
        assert(pv.take(i + 1).map_values(|m: Seq<char>| trimmed(m)) =~= pv.take(i as int).map_values(
            |m: Seq<char>| trimmed(m),
        ).push(trimmed(pv[i as int])));
        i += 1;
    }
    assert(pv.take(parts@.len() as int) =~= pv);
    out
}

fn requires_value(prefix: &str, name: &[char]) -> (m: String)
    ensures
        m@ == prefix@ + name@ + " requires a value"@,
{
    let mut v = chars_of(prefix);
    append_chars(&mut v, name);
    append_chars(&mut v, &chars_of(" requires a value"));
    string_of(&v)
}

/// Reads parameters (`--name value`, `--name=value`, `-n value`, `-n=value`)
/// and options from the command line, up to the first argument that is
/// neither; the rest, possibly empty, is the command.
pub fn parse_args(args: &[String]) -> (r: Result<(Vec<(String, String)>, Vec<String>, Options), String>)
    ensures
        match (r, command_line(strings_view(args@))) {
            (Ok((ps, cmd, o)), Ok((st, i))) => state_of(ps@, o) == st && strings_view(cmd@)
                == strings_view(args@).skip(i),
            (Err(m), Err(em)) => m@ == em,
            _ => false,
        },
{
    let ghost av = strings_view(args@);
    let mut params: Vec<(String, String)> = Vec::new();
    let mut options = Options::default();
    let mut i: usize = 0;
    assert(string_pairs(params@) =~= Seq::<(Seq<char>, Seq<char>)>::empty());
    assert(strings_view(options.metrics@) =~= Seq::<Seq<char>>::empty());
    while i < args.len()
        invariant
            av == strings_view(args@),
            i <= args@.len(),
            parse_from(av, 0, initial_args()) == parse_from(av, i as int, state_of(params@, options)),
        ensures
            i <= args@.len(),
            parse_from(av, 0, initial_args()) == Ok::<(ArgState, int), Seq<char>>(
                (state_of(params@, options), i as int),
            ),
        decreases args@.len() - i,
    {
        let a = chars_of(args[i].as_str());
        assert(a@ == av[i as int]);
        let has_next = i + 1 < args.len();
        let ghost st = state_of(params@, options);
        if is_literal(&a, "--stdout") {
            options.stdout_only = true;
            i += 1;
        } else if is_literal(&a, "--stderr") {
            options.stderr_only = true;
            i += 1;
        } else if starts_with_chars(&a, &chars_of("--metrics=")) {
            let p = chars_of("--metrics=");
            options.metrics = metric_list_of(&slice_chars(&a, p.len(), a.len()));
            assert(a@.subrange(p@.len() as int, a@.len() as int) =~= a@.skip(p@.len() as int));
            i += 1;
        } else if starts_with_chars(&a, &chars_of("-m=")) {
            let p = chars_of("-m=");
            options.metrics = metric_list_of(&slice_chars(&a, p.len(), a.len()));
            assert(a@.subrange(p@.len() as int, a@.len() as int) =~= a@.skip(p@.len() as int));
            i += 1;
        } else if is_literal(&a, "--metrics") || is_literal(&a, "-m") {
            if !has_next {
                return Err(string_of(&chars_of("--metrics/-m requires an argument")));
            }
            assert(args@[i + 1]@ == av[i + 1]);
            options.metrics = metric_list_of(&chars_of(args[i + 1].as_str()));
            i += 2;
        } else if starts_with_chars(&a, &chars_of("--output=")) {
            let p = chars_of("--output=");
            options.output_file = string_of(&slice_chars(&a, p.len(), a.len()));
            assert(a@.subrange(p@.len() as int, a@.len() as int) =~= a@.skip(p@.len() as int));
            i += 1;
        } else if is_literal(&a, "--output") {
            if !has_next {
                return Err(string_of(&chars_of("--output requires an argument")));
            }
            assert(args@[i + 1]@ == av[i + 1]);
            options.output_file = args[i + 1].clone();
            i += 2;
        } else if is_literal(&a, "--preserve-output") || is_literal(&a, "-p") {
            options.preserve_output = true;
            i += 1;
        } else if is_literal(&a, "-h") || is_literal(&a, "--help") {
            return Err(string_of(&chars_of("HELP_REQUESTED")));
        } else if starts_with_chars(&a, &chars_of("--")) {
            let p = chars_of("--");
            let s = slice_chars(&a, p.len(), a.len());
            assert(s@ =~= a@.skip(p@.len() as int));
            match find_eq(&s) {
                Some(e) => {
                    let name = slice_chars(&s, 0, e);
                    let value = slice_chars(&s, e + 1, s.len());
                    assert(name@ =~= s@.take(e as int));
                    assert(value@ =~= s@.skip(e + 1));
                    let entry = (param_name_of(&name), string_of(&value));
                    let ghost before = string_pairs(params@);
                    params.push(entry);
                    assert(string_pairs(params@) =~= before.push((entry.0@, entry.1@)));
                    i += 1;
                },
                None => {
                    if !has_next {
                        return Err(requires_value("Parameter --", &s));
                    }
                    assert(args@[i + 1]@ == av[i + 1]);
                    let entry = (param_name_of(&s), args[i + 1].clone());
                    let ghost before = string_pairs(params@);
                    params.push(entry);
                    assert(string_pairs(params@) =~= before.push((entry.0@, entry.1@)));
                    i += 2;
                },
            }
        } else if starts_with_chars(&a, &chars_of("-")) {
            let p = chars_of("-");
            let s = slice_chars(&a, p.len(), a.len());
            assert(s@ =~= a@.skip(p@.len() as int));
            let eq = find_eq(&s);
            if s.len() == 1 && (s[0] as u32) < 128 {
                let c = s[0];
                if c == 'm' || c == 'p' || c == 'h' {
                    let mut m = chars_of("Unknown option: ");
                    append_chars(&mut m, &a);
                    return Err(string_of(&m));
                }
                if !has_next {
                    return Err(requires_value("Parameter ", &a));
                }
                assert(args@[i + 1]@ == av[i + 1]);
                let entry = (string_of(&to_upper(&s)), args[i + 1].clone());
                let ghost before = string_pairs(params@);
                params.push(entry);
                assert(string_pairs(params@) =~= before.push((entry.0@, entry.1@)));
                i += 2;
            } else {
                match eq {
                    Some(e) => {
                        if e == 1 && (s[0] as u32) < 128 {
                            let short = slice_chars(&s, 0, e);
                            let value = slice_chars(&s, e + 1, s.len());
                            assert(short@ =~= s@.take(e as int));
                            assert(value@ =~= s@.skip(e + 1));
                            let entry = (string_of(&to_upper(&short)), string_of(&value));
                            let ghost before = string_pairs(params@);
                            params.push(entry);
                            assert(string_pairs(params@) =~= before.push((entry.0@, entry.1@)));
                            i += 1;
                        } else {
                            proof {
                                if e == 1 {
                                    assert(s@.take(1)[0] == s@[0]);
                                }
                            }
                            let mut m = chars_of("Unknown option: ");
                            append_chars(&mut m, &a);
                            return Err(string_of(&m));
                        }
                    },
                    None => {
                        let mut m = chars_of("Unknown option: ");
                        append_chars(&mut m, &a);
                        return Err(string_of(&m));
                    },
                }
            }
        } else {
            break;
        }
    }
    if options.stdout_only && options.stderr_only {
        return Err(string_of(&chars_of("Cannot specify both --stdout and --stderr")));
    }
    let mut command: Vec<String> = Vec::new();
    let start = i;
    let mut k: usize = i;
    while k < args.len()
        invariant
            av == strings_view(args@),
            start <= k <= args@.len(),
            strings_view(command@) == av.subrange(start as int, k as int),
        decreases args@.len() - k,
    {
        let c = args[k].clone();
        let ghost before = strings_view(command@);
        command.push(c);
        assert(strings_view(command@) =~= before.push(c@));
        assert(av.subrange(start as int, k + 1) =~= av.subrange(start as int, k as int).push(av[k as int]));
        k += 1;
    }
    assert(av.subrange(start as int, args@.len() as int) =~= av.skip(start as int));
    Ok((params, command, options))
}

/// The command that runs a script read from standard input through bash,
/// refused when the script is blank.
pub fn script_command(script: String) -> (r: Result<Vec<String>, String>)
    ensures
        trimmed(script@).len() == 0 ==> r == Err::<Vec<String>, String>(r->Err_0) && r->Err_0@
            == "No command specified and no input from stdin"@,
        trimmed(script@).len() > 0 ==> r is Ok && strings_view(r->Ok_0@) == seq![
            "bash"@,
            "-c"@,
            script@,
        ],
{
    if trim(&chars_of(script.as_str())).len() == 0 {
        return Err(string_of(&chars_of("No command specified and no input from stdin")));
    }
    let mut cmd: Vec<String> = Vec::new();
    cmd.push(string_of(&chars_of("bash")));
    cmd.push(string_of(&chars_of("-c")));
    cmd.push(script);
    assert(strings_view(cmd@) =~= seq!["bash"@, "-c"@, cmd@[2]@]);
    Ok(cmd)
}

} // verus!
