//! The parameter expression language: comma lists, ranges and integer
//! arithmetic over the values of parameters that are already resolved.
use vstd::prelude::*;
use vstd::math::abs;
use crate::csv::join;
use crate::text::{
    all_digits, chars_eq, chars_of, digit_char, digit_value, digits_value, format_int,
    int_literal, int_text, is_ascii_digit, is_digit, lemma_split_nonempty, literal_body, nat_text,
    parse_int, signed, slice_chars, split, split_seq, to_upper, trim, trimmed, upper_of, views,
    whitespace,
};

verus! {

/// Evaluation context: upper-cased parameter names paired with their values.
pub open spec fn pairs_view(s: Seq<(Vec<char>, Vec<char>)>) -> Seq<(Seq<char>, Seq<char>)> {
    s.map_values(|p: (Vec<char>, Vec<char>)| (p.0@, p.1@))
}

/// The value bound to `key`: the first entry with that name.
pub open spec fn lookup(ctx: Seq<(Seq<char>, Seq<char>)>, key: Seq<char>) -> Option<Seq<char>>
    decreases ctx.len(),
{
    if ctx.len() == 0 {
        None
    } else if ctx[0].0 == key {
        Some(ctx[0].1)
    } else {
        lookup(ctx.drop_first(), key)
    }
}

pub open spec fn in_i64(x: int) -> Option<int> {
    if i64::MIN <= x <= i64::MAX {
        Some(x)
    } else {
        None
    }
}

/// `b` raised to the power `e`.
pub open spec fn power(b: int, e: nat) -> int
    decreases e,
{
    if e == 0 {
        1
    } else {
        b * power(b, (e - 1) as nat)
    }
}

/// Number of ASCII digits at the start of `s`.
pub open spec fn lead_digits(s: Seq<char>) -> nat
    decreases s.len(),
{
    if s.len() > 0 && is_digit(s[0]) {
        1 + lead_digits(s.drop_first())
    } else {
        0
    }
}

/// The integer value of a variable's text, if it is an integer literal.
pub open spec fn variable_value(ctx: Seq<(Seq<char>, Seq<char>)>, name: Seq<char>) -> Option<int> {
    match lookup(ctx, upper_of(name)) {
        Some(v) => int_literal(v),
        None => None,
    }
}

/// An atom: `<digits><name>` (implicit multiplication), a parameter name, or
/// an integer literal. Surrounding white space is ignored.
pub open spec fn atom_value(e: Seq<char>, ctx: Seq<(Seq<char>, Seq<char>)>) -> Option<int> {
    let t = trimmed(e);
    let d = lead_digits(t) as int;
    if 0 < d < t.len() {
        match (int_literal(t.take(d)), variable_value(ctx, t.skip(d))) {
            (Some(n), Some(x)) => in_i64(n * x),
            _ => None,
        }
    } else {
        match lookup(ctx, upper_of(t)) {
            Some(v) => int_literal(v),
            None => int_literal(t),
        }
    }
}

/// `b ^ x` for a non-negative exponent, when the result fits in `i64`.
pub open spec fn power_value(b: int, x: int) -> Option<int> {
    if x < 0 {
        None
    } else {
        in_i64(power(b, x as nat))
    }
}

/// `a0 ^ (a1 ^ (... ^ an))`: exponentiation groups to the right.
pub open spec fn power_chain(ps: Seq<Seq<char>>, ctx: Seq<(Seq<char>, Seq<char>)>) -> Option<int>
    decreases ps.len(),
{
    if ps.len() == 0 {
        None
    } else if ps.len() == 1 {
        atom_value(ps[0], ctx)
    } else {
        match (atom_value(ps[0], ctx), power_chain(ps.drop_first(), ctx)) {
            (Some(b), Some(x)) => power_value(b, x),
            _ => None,
        }
    }
}

pub open spec fn factor_value(e: Seq<char>, ctx: Seq<(Seq<char>, Seq<char>)>) -> Option<int> {
    power_chain(split_seq(e, seq!['^']), ctx)
}

/// Product of the factors, left to right; every partial product must fit in `i64`.
pub open spec fn product_of(ps: Seq<Seq<char>>, ctx: Seq<(Seq<char>, Seq<char>)>) -> Option<int>
    decreases ps.len(),
{
    if ps.len() == 0 {
        Some(1)
    } else {
        match (product_of(ps.drop_last(), ctx), factor_value(ps.last(), ctx)) {
            (Some(a), Some(b)) => in_i64(a * b),
            _ => None,
        }
    }
}

pub open spec fn term_value(e: Seq<char>, ctx: Seq<(Seq<char>, Seq<char>)>) -> Option<int> {
    product_of(split_seq(e, seq!['*']), ctx)
}

/// Sum of the terms, left to right; every partial sum must fit in `i64`.
pub open spec fn sum_of(ps: Seq<Seq<char>>, ctx: Seq<(Seq<char>, Seq<char>)>) -> Option<int>
    decreases ps.len(),
{
    if ps.len() == 0 {
        Some(0)
    } else {
        match (sum_of(ps.drop_last(), ctx), term_value(ps.last(), ctx)) {
            (Some(a), Some(b)) => in_i64(a + b),
            _ => None,
        }
    }
}

/// The integer value of an arithmetic expression, or `None` when it is not one.
pub open spec fn int_value(e: Seq<char>, ctx: Seq<(Seq<char>, Seq<char>)>) -> Option<int> {
    sum_of(split_seq(e, seq!['+']), ctx)
}

pub proof fn lemma_power_one(e: nat)
    ensures
        power(1, e) == 1,
    decreases e,
{
    if e > 0 {
        lemma_power_one((e - 1) as nat);
    }
}

pub proof fn lemma_power_minus_one(e: nat)
    ensures
        power(-1, e) == (if e % 2 == 0 {
            1int
        } else {
            -1int
        }),
    decreases e,
{
    if e > 0 {
        lemma_power_minus_one((e - 1) as nat);
    }
}

pub proof fn lemma_power_grows(b: int, k: nat, m: nat)
    requires
        b <= -2 || b >= 2,
        k <= m,
    ensures
        abs(power(b, k)) <= abs(power(b, m)),
    decreases m,
{
    if k < m {
        lemma_power_grows(b, k, (m - 1) as nat);
        let p = power(b, (m - 1) as nat);
        assert(abs(b * p) >= abs(p)) by (nonlinear_arith)
            requires
                b <= -2 || b >= 2,
        ;
    }
}

/// Raises `b` to `x` by repeated multiplication.
fn checked_power(b: i64, x: i64) -> (r: Option<i64>)
    ensures
        r matches Some(v) ==> power_value(b as int, x as int) == Some(v as int),
        r is None ==> power_value(b as int, x as int) is None,
{
    if x < 0 {
        return None;
    }
    if b == 1 {
        proof {
            lemma_power_one(x as nat);
        }
        return Some(1);
    }
    if b == -1 {
        proof {
            lemma_power_minus_one(x as nat);
        }
        return if x % 2 == 0 {
            Some(1)
        } else {
            Some(-1)
        };
    }
    if b == 0 {
        return if x == 0 {
            Some(1)
        } else {
            Some(0)
        };
    }
    let mut acc: i64 = 1;
    let mut k: i64 = 0;
    while k < x
        invariant
            0 <= k <= x,
            b <= -2 || b >= 2,
            acc as int == power(b as int, k as nat),
        decreases x - k,
    {
        match acc.checked_mul(b) {
            Some(v) => {
                acc = v;
            },
            None => {
                proof {
                    let q = power(b as int, (k + 1) as nat);
                    assert(q == b * acc);
                    assert(abs(q) > i64::MAX);
                    if k + 1 < x {
                        lemma_power_grows(b as int, (k + 2) as nat, x as nat);
                        assert(power(b as int, (k + 2) as nat) == b * q);
                        assert(abs(b * q) >= 2 * abs(q)) by (nonlinear_arith)
                            requires
                                b <= -2 || b >= 2,
                        ;
                    }
                }
                return None;
            },
        }
        k += 1;
    }
    Some(acc)
}

/// Index of the entry named `key`: the first one.
fn find_key(ctx: &[(Vec<char>, Vec<char>)], key: &[char]) -> (r: Option<usize>)
    ensures
        r matches Some(i) ==> i < ctx@.len() && lookup(pairs_view(ctx@), key@) == Some(
            ctx@[i as int].1@,
        ),
        r is None ==> lookup(pairs_view(ctx@), key@) is None,
{
    let mut i: usize = 0;
    assert(pairs_view(ctx@).skip(0) =~= pairs_view(ctx@));
    while i < ctx.len()
        invariant
            i <= ctx@.len(),
            lookup(pairs_view(ctx@), key@) == lookup(pairs_view(ctx@).skip(i as int), key@),
        decreases ctx@.len() - i,
    {
        assert(pairs_view(ctx@).skip(i as int).drop_first() =~= pairs_view(ctx@).skip(i + 1));
        if chars_eq(&ctx[i].0, key) {
            return Some(i);
        }
        i += 1;
    }
    None
}

fn count_lead_digits(t: &[char]) -> (d: usize)
    ensures
        d == lead_digits(t@),
        d <= t@.len(),
{
    let mut d: usize = 0;
    assert(t@.subrange(0, t@.len() as int) =~= t@);
    while d < t.len() && is_ascii_digit(t[d])
        invariant
            d <= t@.len(),
            lead_digits(t@) == d + lead_digits(t@.subrange(d as int, t@.len() as int)),
        decreases t@.len() - d,
    {
        assert(t@.subrange(d as int, t@.len() as int).drop_first() =~= t@.subrange(
            d + 1,
            t@.len() as int,
        ));
        d += 1;
    }
    d
}

/// The value of an atom, as `atom_value` states it.
pub fn parse_atom_expr(e: &[char], ctx: &[(Vec<char>, Vec<char>)]) -> (r: Option<i64>)
    ensures
        r matches Some(v) ==> atom_value(e@, pairs_view(ctx@)) == Some(v as int),
        r is None ==> atom_value(e@, pairs_view(ctx@)) is None,
{
    let t = trim(e);
    let d = count_lead_digits(&t);
    if 0 < d && d < t.len() {
        let digits = slice_chars(&t, 0, d);
        let name = slice_chars(&t, d, t.len());
        assert(digits@ =~= t@.take(d as int));
        assert(name@ =~= t@.skip(d as int));
        let key = to_upper(&name);
        let n = parse_int(&digits);
        match find_key(ctx, &key) {
            Some(i) => match (n, parse_int(&ctx[i].1)) {
                (Some(n), Some(x)) => n.checked_mul(x),
                _ => None,
            },
            None => None,
        }
    } else {
        let key = to_upper(&t);
        match find_key(ctx, &key) {
            Some(i) => parse_int(&ctx[i].1),
            None => parse_int(&t),
        }
    }
}

/// The value of a factor, as `factor_value` states it.
pub fn parse_exp_expr(e: &[char], ctx: &[(Vec<char>, Vec<char>)]) -> (r: Option<i64>)
    ensures
        r matches Some(v) ==> factor_value(e@, pairs_view(ctx@)) == Some(v as int),
        r is None ==> factor_value(e@, pairs_view(ctx@)) is None,
{
    let caret: [char; 1] = ['^'];
    let ps = split(e, caret.as_slice());
    assert(caret@ =~= seq!['^']);
    let ghost ctxv = pairs_view(ctx@);
    let ghost pv = views(ps@);
    let n = ps.len();
    let mut k: usize = n - 1;
    let mut acc: Option<i64> = parse_atom_expr(&ps[k], ctx);
    assert(pv.subrange(k as int, n as int) =~= seq![pv[k as int]]);
    while k > 0
        invariant
            1 <= n == ps@.len(),
            pv == views(ps@),
            ctxv == pairs_view(ctx@),
            k < n,
            acc matches Some(v) ==> power_chain(pv.subrange(k as int, n as int), ctxv) == Some(
                v as int,
            ),
            acc is None ==> power_chain(pv.subrange(k as int, n as int), ctxv) is None,
        decreases k,
    {
        k -= 1;
        let b = parse_atom_expr(&ps[k], ctx);
        assert(pv.subrange(k as int, n as int).drop_first() =~= pv.subrange(k + 1, n as int));
        acc = match (b, acc) {
            (Some(b), Some(x)) => checked_power(b, x),
            _ => None,
        };
    }
    assert(pv.subrange(0, n as int) =~= pv);
    acc
}

/// The value of a term, as `term_value` states it.
pub fn parse_mult_expr(e: &[char], ctx: &[(Vec<char>, Vec<char>)]) -> (r: Option<i64>)
    ensures
        r matches Some(v) ==> term_value(e@, pairs_view(ctx@)) == Some(v as int),
        r is None ==> term_value(e@, pairs_view(ctx@)) is None,
{
    let star: [char; 1] = ['*'];
    let ps = split(e, star.as_slice());
    assert(star@ =~= seq!['*']);
    let ghost ctxv = pairs_view(ctx@);
    let ghost pv = views(ps@);
    let mut product: i64 = 1;
    let mut k: usize = 0;
    assert(pv.take(0) =~= Seq::<Seq<char>>::empty());
    while k < ps.len()
        invariant
            k <= ps@.len(),
            pv == views(ps@),
            pv == split_seq(e@, seq!['*']),
            ctxv == pairs_view(ctx@),
            product_of(pv.take(k as int), ctxv) == Some(product as int),
        decreases ps@.len() - k,
    {
        assert(pv.take(k + 1).drop_last() =~= pv.take(k as int));
        assert(pv.take(k + 1).last() == ps@[k as int]@);
        match parse_exp_expr(&ps[k], ctx) {
            Some(f) => match product.checked_mul(f) {
                Some(p) => {
                    product = p;
                },
                None => {
                    proof {
                        lemma_product_stays_none(pv, (k + 1) as int, ctxv);
                    }
                    return None;
                },
            },
            None => {
                proof {
                    lemma_product_stays_none(pv, (k + 1) as int, ctxv);
                }
                return None;
            },
        }
        k += 1;
    }
    assert(pv.take(ps@.len() as int) =~= pv);
    Some(product)
}

proof fn lemma_product_stays_none(pv: Seq<Seq<char>>, k: int, ctx: Seq<(Seq<char>, Seq<char>)>)
    requires
        0 <= k <= pv.len(),
        product_of(pv.take(k), ctx) is None,
    ensures
        product_of(pv, ctx) is None,
    decreases pv.len() - k,
{
    if k < pv.len() {
        assert(pv.take(k + 1).drop_last() =~= pv.take(k));
        lemma_product_stays_none(pv, k + 1, ctx);
    } else {
        assert(pv.take(k) =~= pv);
    }
}

proof fn lemma_sum_stays_none(pv: Seq<Seq<char>>, k: int, ctx: Seq<(Seq<char>, Seq<char>)>)
    requires
        0 <= k <= pv.len(),
        sum_of(pv.take(k), ctx) is None,
    ensures
        sum_of(pv, ctx) is None,
    decreases pv.len() - k,
{
    if k < pv.len() {
        assert(pv.take(k + 1).drop_last() =~= pv.take(k));
        lemma_sum_stays_none(pv, k + 1, ctx);
    } else {
        assert(pv.take(k) =~= pv);
    }
}

/// The value of an arithmetic expression, as `int_value` states it.
pub fn parse_int_expr(e: &[char], ctx: &[(Vec<char>, Vec<char>)]) -> (r: Option<i64>)
    ensures
        r matches Some(v) ==> int_value(e@, pairs_view(ctx@)) == Some(v as int),
        r is None ==> int_value(e@, pairs_view(ctx@)) is None,
{
    let plus: [char; 1] = ['+'];
    let ps = split(e, plus.as_slice());
    assert(plus@ =~= seq!['+']);
    let ghost ctxv = pairs_view(ctx@);
    let ghost pv = views(ps@);
    let mut sum: i64 = 0;
    let mut k: usize = 0;
    assert(pv.take(0) =~= Seq::<Seq<char>>::empty());
    while k < ps.len()
        invariant
            k <= ps@.len(),
            pv == views(ps@),
            pv == split_seq(e@, seq!['+']),
            ctxv == pairs_view(ctx@),
            sum_of(pv.take(k as int), ctxv) == Some(sum as int),
        decreases ps@.len() - k,
    {
        assert(pv.take(k + 1).drop_last() =~= pv.take(k as int));
        assert(pv.take(k + 1).last() == ps@[k as int]@);
        match parse_mult_expr(&ps[k], ctx) {
            Some(t) => match sum.checked_add(t) {
                Some(s) => {
                    sum = s;
                },
                None => {
                    proof {
                        lemma_sum_stays_none(pv, (k + 1) as int, ctxv);
                    }
                    return None;
                },
            },
            None => {
                proof {
                    lemma_sum_stays_none(pv, (k + 1) as int, ctxv);
                }
                return None;
            },
        }
        k += 1;
    }
    assert(pv.take(ps@.len() as int) =~= pv);
    Some(sum)
}

/// `a, a + s, a + 2s, ...` while strictly below `b` (for `s > 0`).
pub open spec fn range_up(a: int, b: int, s: int) -> Seq<int>
    decreases (if a < b {
        b - a
    } else {
        0
    }),
{
    if s > 0 && a < b {
        seq![a] + range_up(a + s, b, s)
    } else {
        Seq::empty()
    }
}

/// `a, a + s, a + 2s, ...` while strictly above `b` (for `s < 0`).
pub open spec fn range_down(a: int, b: int, s: int) -> Seq<int>
    decreases (if a > b {
        a - b
    } else {
        0
    }),
{
    if s < 0 && a > b {
        seq![a] + range_down(a + s, b, s)
    } else {
        Seq::empty()
    }
}

/// The integers of the range `a:b:s`, the end excluded.
pub open spec fn range_items(a: int, b: int, s: int) -> Seq<int> {
    if s > 0 {
        range_up(a, b, s)
    } else {
        range_down(a, b, s)
    }
}

pub open spec fn texts(v: Seq<int>) -> Seq<Seq<char>> {
    v.map_values(|x: int| int_text(x))
}

/// A single value: the decimal value of an arithmetic expression, otherwise
/// the text itself.
pub open spec fn value_text(t: Seq<char>, ctx: Seq<(Seq<char>, Seq<char>)>) -> Seq<char> {
    match int_value(t, ctx) {
        Some(v) => int_text(v),
        None => t,
    }
}

pub open spec fn bound_error(b: Seq<char>) -> Seq<char> {
    "Range bound is not an integer expression: "@ + trimmed(b)
}

pub open spec fn empty_range_error(a: int, b: int) -> Seq<char> {
    "Empty range "@ + int_text(a) + seq![':'] + int_text(b)
}

pub open spec fn zero_step_error() -> Seq<char> {
    "Range step cannot be zero"@
}

pub open spec fn invalid_range_error(a: int, b: int, s: int) -> Seq<char> {
    "Invalid range "@ + int_text(a) + seq![':'] + int_text(b) + seq![':'] + int_text(s)
}

/// The values of one comma-separated part: a range `a:b` (counting up or
/// down toward `b`), a stepped range `a:b:s`, or a single value.
pub open spec fn part_values(p: Seq<char>, ctx: Seq<(Seq<char>, Seq<char>)>) -> Result<
    Seq<Seq<char>>,
    Seq<char>,
> {
    let t = trimmed(p);
    let rp = split_seq(t, seq![':']);
    if rp.len() == 2 {
        match (int_value(rp[0], ctx), int_value(rp[1], ctx)) {
            (None, _) => Err(bound_error(rp[0])),
            (Some(_), None) => Err(bound_error(rp[1])),
            (Some(a), Some(b)) => if a == b {
                Err(empty_range_error(a, b))
            } else {
                Ok(texts(range_items(a, b, if a < b { 1 } else { -1 })))
            },
        }
    } else if rp.len() == 3 {
        match (int_value(rp[0], ctx), int_value(rp[1], ctx), int_value(rp[2], ctx)) {
            (None, _, _) => Err(bound_error(rp[0])),
            (Some(_), None, _) => Err(bound_error(rp[1])),
            (Some(_), Some(_), None) => Err(bound_error(rp[2])),
            (Some(a), Some(b), Some(s)) => if s == 0 {
                Err(zero_step_error())
            } else if (s > 0 && a >= b) || (s < 0 && a <= b) {
                Err(invalid_range_error(a, b, s))
            } else {
                Ok(texts(range_items(a, b, s)))
            },
        }
    } else {
        Ok(seq![value_text(t, ctx)])
    }
}

/// The values of the parts, in order; the first failing part decides the error.
pub open spec fn values_of(ps: Seq<Seq<char>>, ctx: Seq<(Seq<char>, Seq<char>)>) -> Result<
    Seq<Seq<char>>,
    Seq<char>,
>
    decreases ps.len(),
{
    if ps.len() == 0 {
        Ok(Seq::empty())
    } else {
        match values_of(ps.drop_last(), ctx) {
            Err(m) => Err(m),
            Ok(vs) => match part_values(ps.last(), ctx) {
                Err(m) => Err(m),
                Ok(ws) => Ok(vs + ws),
            },
        }
    }
}

/// The values of a parameter expression: its comma-separated parts in order.
pub open spec fn expression_values(e: Seq<char>, ctx: Seq<(Seq<char>, Seq<char>)>) -> Result<
    Seq<Seq<char>>,
    Seq<char>,
> {
    values_of(split_seq(e, seq![',']), ctx)
}

pub fn append_chars(a: &mut Vec<char>, b: &[char])
    ensures
        final(a)@ == old(a)@ + b@,
{
    let mut i: usize = 0;
    while i < b.len()
        invariant
            i <= b@.len(),
            a@ == old(a)@ + b@.take(i as int),
        decreases b@.len() - i,
    {
        a.push(b[i]);
        i += 1;
        assert(a@ =~= old(a)@ + b@.take(i as int));
    }
    assert(b@.take(b@.len() as int) =~= b@);
}

fn bound_message(b: &[char]) -> (m: Vec<char>)
    ensures
        m@ == bound_error(b@),
{
    let mut m = chars_of("Range bound is not an integer expression: ");
    append_chars(&mut m, &trim(b));
    m
}

fn empty_range_message(a: i64, b: i64) -> (m: Vec<char>)
    ensures
        m@ == empty_range_error(a as int, b as int),
{
    let mut m = chars_of("Empty range ");
    append_chars(&mut m, &format_int(a));
    m.push(':');
    append_chars(&mut m, &format_int(b));
    assert(m@ =~= empty_range_error(a as int, b as int));
    m
}

fn invalid_range_message(a: i64, b: i64, s: i64) -> (m: Vec<char>)
    ensures
        m@ == invalid_range_error(a as int, b as int, s as int),
{
    let mut m = chars_of("Invalid range ");
    append_chars(&mut m, &format_int(a));
    m.push(':');
    append_chars(&mut m, &format_int(b));
    m.push(':');
    append_chars(&mut m, &format_int(s));
    assert(m@ =~= invalid_range_error(a as int, b as int, s as int));
    m
}

/// Appends the decimal texts of the range `a:b:s`.
fn push_range(out: &mut Vec<Vec<char>>, a: i64, b: i64, s: i64)
    requires
        s != 0,
    ensures
        views(final(out)@) == views(old(out)@) + texts(range_items(a as int, b as int, s as int)),
{
    let mut i: i64 = a;
    assert(texts(range_items(a as int, b as int, s as int)).len() >= 0);
    while (s > 0 && i < b) || (s < 0 && i > b)
        invariant
            s != 0,
            views(out@) + texts(range_items(i as int, b as int, s as int)) == views(old(out)@)
                + texts(range_items(a as int, b as int, s as int)),
        decreases (if s > 0 && i < b {
            b - i
        } else if s < 0 && i > b {
            i - b
        } else {
            0
        }),
    {
        let ghost before = views(out@);
        let t = format_int(i);
        out.push(t);
        assert(views(out@) =~= before.push(int_text(i as int)));
        let ghost rest = range_items(i as int, b as int, s as int);
        assert(rest == seq![i as int] + range_items(i + s, b as int, s as int));
        assert(texts(rest) =~= seq![int_text(i as int)] + texts(
            range_items(i + s, b as int, s as int),
        ));
        match i.checked_add(s) {
            Some(n) => {
                i = n;
                assert(views(out@) + texts(range_items(i as int, b as int, s as int)) =~= before
                    + texts(rest));
            },
            None => {
                assert(range_items(i + s, b as int, s as int) =~= Seq::<int>::empty());
                assert(views(out@) =~= before + texts(rest));
                return;
            },
        }
    }
    assert(range_items(i as int, b as int, s as int) =~= Seq::<int>::empty());
    assert(views(out@) =~= views(out@) + texts(range_items(i as int, b as int, s as int)));
}

/// A single value: the decimal text of an arithmetic expression, otherwise
/// the text itself.
pub fn parse_expr(t: &[char], ctx: &[(Vec<char>, Vec<char>)]) -> (r: Vec<char>)
    ensures
        r@ == value_text(t@, pairs_view(ctx@)),
{
    match parse_int_expr(t, ctx) {
        Some(v) => format_int(v),
        None => slice_chars(t, 0, t.len()),
    }
}

/// The values of one comma-separated part, as `part_values` states them.
fn evaluate_part(p: &[char], ctx: &[(Vec<char>, Vec<char>)], out: &mut Vec<Vec<char>>) -> (r:
    Result<(), Vec<char>>)
    ensures
        match (r, part_values(p@, pairs_view(ctx@))) {
            (Ok(_), Ok(ws)) => views(final(out)@) == views(old(out)@) + ws,
            (Err(m), Err(em)) => m@ == em,
            _ => false,
        },
{
    let t = trim(p);
    let colon: [char; 1] = [':'];
    let rp = split(&t, colon.as_slice());
    assert(colon@ =~= seq![':']);
    let ghost rv = views(rp@);
    assert(rv =~= split_seq(t@, seq![':']));
    if rp.len() == 2 {
        assert(rv[0] == rp@[0]@ && rv[1] == rp@[1]@);
        let a = match parse_int_expr(&rp[0], ctx) {
            Some(a) => a,
            None => {
                return Err(bound_message(&rp[0]));
            },
        };
        let b = match parse_int_expr(&rp[1], ctx) {
            Some(b) => b,
            None => {
                return Err(bound_message(&rp[1]));
            },
        };
        if a == b {
            return Err(empty_range_message(a, b));
        }
        push_range(out, a, b, if a < b { 1 } else { -1 });
        Ok(())
    } else if rp.len() == 3 {
        assert(rv[0] == rp@[0]@ && rv[1] == rp@[1]@ && rv[2] == rp@[2]@);
        let a = match parse_int_expr(&rp[0], ctx) {
            Some(a) => a,
            None => {
                return Err(bound_message(&rp[0]));
            },
        };
        let b = match parse_int_expr(&rp[1], ctx) {
            Some(b) => b,
            None => {
                return Err(bound_message(&rp[1]));
            },
        };
        let s = match parse_int_expr(&rp[2], ctx) {
            Some(s) => s,
            None => {
                return Err(bound_message(&rp[2]));
            },
        };
        if s == 0 {
            return Err(chars_of("Range step cannot be zero"));
        }
        if (s > 0 && a >= b) || (s < 0 && a <= b) {
            return Err(invalid_range_message(a, b, s));
        }
        push_range(out, a, b, s);
        Ok(())
    } else {
        let v = parse_expr(&t, ctx);
        let ghost before = views(out@);
        out.push(v);
        assert(views(out@) =~= before + seq![value_text(trimmed(p@), pairs_view(ctx@))]);
        Ok(())
    }
}

/// Expands a parameter expression into its list of values, given the values
/// of the parameters it may refer to (names upper-cased).
pub fn evaluate_expression(e: &[char], ctx: &[(Vec<char>, Vec<char>)]) -> (r: Result<
    Vec<Vec<char>>,
    Vec<char>,
>)
    ensures
        match (r, expression_values(e@, pairs_view(ctx@))) {
            (Ok(v), Ok(ws)) => views(v@) == ws,
            (Err(m), Err(em)) => m@ == em,
            _ => false,
        },
{
    let comma: [char; 1] = [','];
    let ps = split(e, comma.as_slice());
    assert(comma@ =~= seq![',']);
    let ghost pv = views(ps@);
    let ghost ctxv = pairs_view(ctx@);
    let mut out: Vec<Vec<char>> = Vec::new();
    let mut k: usize = 0;
    assert(pv.take(0) =~= Seq::<Seq<char>>::empty());
    assert(views(out@) =~= Seq::<Seq<char>>::empty());
    while k < ps.len()
        invariant
            k <= ps@.len(),
            pv == views(ps@),
            pv == split_seq(e@, seq![',']),
            ctxv == pairs_view(ctx@),
            values_of(pv.take(k as int), ctxv) == Ok::<Seq<Seq<char>>, Seq<char>>(views(out@)),
        decreases ps@.len() - k,
    {
        assert(pv.take(k + 1).drop_last() =~= pv.take(k as int));
        assert(pv.take(k + 1).last() == ps@[k as int]@);
        match evaluate_part(&ps[k], ctx, &mut out) {
            Ok(_) => {},
            Err(m) => {
                proof {
                    lemma_values_stay_err(pv, (k + 1) as int, ctxv);
                }
                return Err(m);
            },
        }
        k += 1;
    }
    assert(pv.take(ps@.len() as int) =~= pv);
    Ok(out)
}

proof fn lemma_values_stay_err(pv: Seq<Seq<char>>, k: int, ctx: Seq<(Seq<char>, Seq<char>)>)
    requires
        0 <= k <= pv.len(),
        values_of(pv.take(k), ctx) is Err,
    ensures
        values_of(pv, ctx) == values_of(pv.take(k), ctx),
    decreases pv.len() - k,
{
    if k < pv.len() {
        assert(pv.take(k + 1).drop_last() =~= pv.take(k));
        lemma_values_stay_err(pv, k + 1, ctx);
    } else {
        assert(pv.take(k) =~= pv);
    }
}

proof fn lemma_range_up(a: int, b: int, s: int)
    requires
        s > 0,
    ensures
        forall|k: int|
            0 <= k < range_up(a, b, s).len() ==> #[trigger] range_up(a, b, s)[k] == a + k * s
                && range_up(a, b, s)[k] < b,
        a + range_up(a, b, s).len() * s >= b,
    decreases (if a < b {
        b - a
    } else {
        0
    }),
{
    if a < b {
        lemma_range_up(a + s, b, s);
        let r = range_up(a, b, s);
        let r2 = range_up(a + s, b, s);
        assert forall|k: int| 0 <= k < r.len() implies #[trigger] r[k] == a + k * s && r[k] < b by {
            if k > 0 {
                assert(r[k] == r2[k - 1]);
                assert(a + s + (k - 1) * s == a + k * s) by (nonlinear_arith);
            }
        }
        assert(a + s + r2.len() * s == a + r.len() * s) by (nonlinear_arith)
            requires
                r.len() == r2.len() + 1,
        ;
    }
}

proof fn lemma_range_down(a: int, b: int, s: int)
    requires
        s < 0,
    ensures
        forall|k: int|
            0 <= k < range_down(a, b, s).len() ==> #[trigger] range_down(a, b, s)[k] == a + k * s
                && range_down(a, b, s)[k] > b,
        a + range_down(a, b, s).len() * s <= b,
    decreases (if a > b {
        a - b
    } else {
        0
    }),
{
    if a > b {
        lemma_range_down(a + s, b, s);
        let r = range_down(a, b, s);
        let r2 = range_down(a + s, b, s);
        assert forall|k: int| 0 <= k < r.len() implies #[trigger] r[k] == a + k * s && r[k] > b by {
            if k > 0 {
                assert(r[k] == r2[k - 1]);
                assert(a + s + (k - 1) * s == a + k * s) by (nonlinear_arith);
            }
        }
        assert(a + s + r2.len() * s == a + r.len() * s) by (nonlinear_arith)
            requires
                r.len() == r2.len() + 1,
        ;
    } else {
        assert(range_down(a, b, s).len() == 0);
        assert(a + 0 * s == a);
    }
}

/// A stepped range `a:b:s` holds `a, a + s, a + 2s, ...`: every item lies
/// strictly before `b` (strictly after `b` for a negative step), and the
/// next one would not.
pub proof fn law_stepped_range(a: int, b: int, s: int)
    requires
        s != 0,
    ensures
        forall|k: int|
            0 <= k < range_items(a, b, s).len() ==> #[trigger] range_items(a, b, s)[k] == a + k * s,
        forall|k: int|
            0 <= k < range_items(a, b, s).len() ==> (if s > 0 {
                #[trigger] range_items(a, b, s)[k] < b
            } else {
                range_items(a, b, s)[k] > b
            }),
        s > 0 ==> a + range_items(a, b, s).len() * s >= b,
        s < 0 ==> a + range_items(a, b, s).len() * s <= b,
{
    if s > 0 {
        lemma_range_up(a, b, s);
    } else {
        lemma_range_down(a, b, s);
    }
}

/// A range `a:b` with `a < b` holds exactly the integers of `[a, b)`, ascending.
pub proof fn law_unit_range(a: int, b: int)
    requires
        a < b,
    ensures
        range_items(a, b, 1) == Seq::new((b - a) as nat, |i: int| a + i),
{
    law_stepped_range(a, b, 1);
    let r = range_items(a, b, 1);
    assert(r.len() >= b - a);
    if r.len() > b - a {
        assert(r[b - a] == a + (b - a));
    }
    assert(r =~= Seq::new((b - a) as nat, |i: int| a + i));
}

/// A stepped range whose step evaluates to zero is always an error.
pub proof fn law_zero_step(p: Seq<char>, ctx: Seq<(Seq<char>, Seq<char>)>)
    requires
        split_seq(trimmed(p), seq![':']).len() == 3,
        int_value(split_seq(trimmed(p), seq![':'])[0], ctx) is Some,
        int_value(split_seq(trimmed(p), seq![':'])[1], ctx) is Some,
        int_value(split_seq(trimmed(p), seq![':'])[2], ctx) == Some(0int),
    ensures
        part_values(p, ctx) == Err::<Seq<Seq<char>>, Seq<char>>(zero_step_error()),
{
}

// ---------------------------------------------------------------------------
// Range texts
proof fn lemma_digit_char(d: int)
    requires
        0 <= d < 10,
    ensures
        is_digit(digit_char(d)),
        digit_value(digit_char(d)) == d,
{
    if d == 0 {
    } else if d == 1 {
    } else if d == 2 {
    } else if d == 3 {
    } else if d == 4 {
    } else if d == 5 {
    } else if d == 6 {
    } else if d == 7 {
    } else if d == 8 {
    } else {
        assert(d == 9);
    }
}

proof fn lemma_nat_text(n: nat)
    ensures
        nat_text(n).len() > 0,
        all_digits(nat_text(n)),
        digits_value(nat_text(n)) == n,
    decreases n,
{
    if n < 10 {
        lemma_digit_char(n as int);
        assert(seq![digit_char(n as int)].drop_last() =~= Seq::<char>::empty());
        assert(digits_value(Seq::<char>::empty()) == 0);
    } else {
        lemma_nat_text(n / 10);
        lemma_digit_char((n % 10) as int);
        let t = nat_text(n);
        assert(t.drop_last() =~= nat_text(n / 10));
        assert(t.last() == digit_char((n % 10) as int));
        assert(digits_value(t) == digits_value(nat_text(n / 10)) * 10 + digit_value(t.last()));
        assert((n / 10) * 10 + n % 10 == n) by (nonlinear_arith);
        assert forall|i: int| 0 <= i < t.len() implies is_digit(#[trigger] t[i]) by {
            if i < t.len() - 1 {
                assert(t[i] == nat_text(n / 10)[i]);
            }
        }
    }
}

/// Decimal text reads back as the integer it was written from.
pub proof fn lemma_int_text_reads_back(v: int)
    requires
        i64::MIN <= v <= i64::MAX,
    ensures
        int_literal(int_text(v)) == Some(v),
        int_text(v).len() > 0,
        forall|i: int|
            0 <= i < int_text(v).len() ==> is_digit(#[trigger] int_text(v)[i]) || (i == 0
                && int_text(v)[i] == '-'),
{
    let t = int_text(v);
    if v < 0 {
        lemma_nat_text((-v) as nat);
        assert(literal_body(t) =~= nat_text((-v) as nat));
        assert forall|i: int| 0 <= i < t.len() implies is_digit(#[trigger] t[i]) || (i == 0 && t[i]
            == '-') by {
            if i > 0 {
                assert(t[i] == nat_text((-v) as nat)[i - 1]);
            }
        }
    } else {
        lemma_nat_text(v as nat);
        assert(is_digit(t[0]));
        assert(!signed(t));
    }
}

proof fn lemma_lead_digits_all(s: Seq<char>)
    requires
        all_digits(s),
    ensures
        lead_digits(s) == s.len(),
    decreases s.len(),
{
    if s.len() > 0 {
        assert(is_digit(s[0]));
        assert(all_digits(s.drop_first())) by {
            assert forall|i: int| 0 <= i < s.drop_first().len() implies is_digit(
                #[trigger] s.drop_first()[i],
            ) by {
                assert(s.drop_first()[i] == s[i + 1]);
            }
        }
        lemma_lead_digits_all(s.drop_first());
    }
}

/// A text with no separator character is a single piece.
proof fn lemma_split_none(t: Seq<char>, seps: Seq<char>)
    requires
        forall|i: int| 0 <= i < t.len() ==> !seps.contains(#[trigger] t[i]),
    ensures
        split_seq(t, seps) == seq![t],
    decreases t.len(),
{
    if t.len() > 0 {
        let g = t.drop_last();
        assert forall|i: int| 0 <= i < g.len() implies !seps.contains(#[trigger] g[i]) by {
            assert(g[i] == t[i]);
        }
        lemma_split_none(g, seps);
        assert(!seps.contains(t[t.len() - 1]));
        assert(split_seq(t, seps) == split_seq(g, seps).update(0, g.push(t.last())));
        assert(g.push(t.last()) =~= t);
        assert(seq![g].update(0, g.push(t.last())) =~= seq![t]);
    } else {
        assert(t =~= Seq::<char>::empty());
    }
}

/// Text without separators extends the last piece.
proof fn lemma_split_extend(s: Seq<char>, y: Seq<char>, seps: Seq<char>)
    requires
        forall|i: int| 0 <= i < y.len() ==> !seps.contains(#[trigger] y[i]),
    ensures
        split_seq(s + y, seps) == split_seq(s, seps).update(
            split_seq(s, seps).len() - 1,
            split_seq(s, seps).last() + y,
        ),
    decreases y.len(),
{
    lemma_split_nonempty(s, seps);
    if y.len() == 0 {
        assert(s + y =~= s);
        assert(split_seq(s, seps).last() + y =~= split_seq(s, seps).last());
        assert(split_seq(s, seps).update(split_seq(s, seps).len() - 1, split_seq(s, seps).last())
            =~= split_seq(s, seps));
    } else {
        let g = y.drop_last();
        assert forall|i: int| 0 <= i < g.len() implies !seps.contains(#[trigger] g[i]) by {
            assert(g[i] == y[i]);
        }
        lemma_split_extend(s, g, seps);
        assert((s + y).drop_last() =~= s + g);
        assert((s + y).last() == y[y.len() - 1]);
        let ps = split_seq(s, seps);
        let before = ps.update(ps.len() - 1, ps.last() + g);
        assert(split_seq(s + y, seps) == before.update(before.len() - 1, before.last().push(y.last())));
        assert((ps.last() + g).push(y.last()) =~= ps.last() + y);
        assert(before.update(before.len() - 1, before.last().push(y.last())) =~= ps.update(
            ps.len() - 1,
            ps.last() + y,
        ));
    }
}

/// Decimal texts joined by one separator split back into those texts.
proof fn lemma_split_numbers(xs: Seq<Seq<char>>, c: char)
    requires
        xs.len() >= 1,
        c == ':' || c == ',',
        forall|k: int, i: int|
            0 <= k < xs.len() && 0 <= i < xs[k].len() ==> is_digit(#[trigger] xs[k][i]) || xs[k][i]
                == '-',
    ensures
        split_seq(join(xs, seq![c]), seq![c]) == xs,
    decreases xs.len(),
{
    if xs.len() == 1 {
        assert forall|i: int| 0 <= i < xs[0].len() implies !seq![c].contains(#[trigger] xs[0][i]) by {
            assert(is_digit(xs[0][i]) || xs[0][i] == '-');
        }
        lemma_split_none(xs[0], seq![c]);
        assert(seq![xs[0]] =~= xs);
    } else {
        let init = xs.drop_last();
        lemma_split_numbers(init, c);
        let j = join(init, seq![c]);
        let y = xs.last();
        assert(split_seq(j + seq![c], seq![c]) == split_seq(j, seq![c]).push(Seq::empty())) by {
            assert((j + seq![c]).drop_last() =~= j);
            assert(seq![c][0] == c);
            assert(seq![c].contains(c));
        }
        assert forall|i: int| 0 <= i < y.len() implies !seq![c].contains(#[trigger] y[i]) by {
            assert(is_digit(xs[xs.len() - 1][i]) || xs[xs.len() - 1][i] == '-');
        }
        lemma_split_extend(j + seq![c], y, seq![c]);
        let p = init.push(Seq::<char>::empty());
        assert(p.update(p.len() - 1, p.last() + y) =~= xs);
    }
}

/// The value of a decimal text is that integer, unless a parameter of the
/// context is named like it.
proof fn lemma_int_value_of_text(v: int, ctx: Seq<(Seq<char>, Seq<char>)>)
    requires
        i64::MIN <= v <= i64::MAX,
        lookup(ctx, upper_of(int_text(v))) is None,
    ensures
        int_value(int_text(v), ctx) == Some(v),
{
    let t = int_text(v);
    lemma_int_text_reads_back(v);
    assert forall|i: int| 0 <= i < t.len() implies !seq!['+'].contains(#[trigger] t[i]) by {
        assert(is_digit(t[i]) || t[i] == '-');
    }
    assert forall|i: int| 0 <= i < t.len() implies !seq!['*'].contains(#[trigger] t[i]) by {
        assert(is_digit(t[i]) || t[i] == '-');
    }
    assert forall|i: int| 0 <= i < t.len() implies !seq!['^'].contains(#[trigger] t[i]) by {
        assert(is_digit(t[i]) || t[i] == '-');
    }
    lemma_split_none(t, seq!['+']);
    lemma_split_none(t, seq!['*']);
    lemma_split_none(t, seq!['^']);
    assert(!whitespace(t[0])) by {
        assert(is_digit(t[0]) || t[0] == '-');
    }
    assert(!whitespace(t.last())) by {
        assert(is_digit(t[t.len() - 1]) || t[t.len() - 1] == '-');
    }
    assert(trimmed(t) == t);
    if v >= 0 {
        assert(all_digits(t)) by {
            assert forall|i: int| 0 <= i < t.len() implies is_digit(#[trigger] t[i]) by {
                lemma_nat_text(v as nat);
                assert(is_digit(nat_text(v as nat)[i]));
            }
        }
        lemma_lead_digits_all(t);
    } else {
        assert(lead_digits(t) == 0);
    }
    assert(atom_value(t, ctx) == Some(v));
    assert(power_chain(seq![t], ctx) == Some(v));
    assert(factor_value(t, ctx) == Some(v));
    assert(seq![t].drop_last() =~= Seq::<Seq<char>>::empty());
    assert(seq![t].last() == t);
    assert(product_of(Seq::<Seq<char>>::empty(), ctx) == Some(1int));
    assert(1 * v == v);
    assert(in_i64(1 * v) == Some(v));
    assert(product_of(seq![t], ctx) == Some(v));
    assert(term_value(t, ctx) == Some(v));
    assert(sum_of(Seq::<Seq<char>>::empty(), ctx) == Some(0int));
    assert(sum_of(seq![t], ctx) == Some(v));
}

/// A range written as decimal texts `a:b` or `a:b:s` (the step not zero)
/// expands to the decimal texts of the range, provided no parameter of the
/// context is named like one of the numbers (such a name would stand for
/// its value).
pub proof fn law_range_text(xs: Seq<int>, ctx: Seq<(Seq<char>, Seq<char>)>)
    requires
        xs.len() == 2 || xs.len() == 3,
        forall|k: int| 0 <= k < xs.len() ==> i64::MIN <= #[trigger] xs[k] <= i64::MAX,
        forall|k: int| 0 <= k < xs.len() ==> lookup(ctx, upper_of(int_text(#[trigger] xs[k]))) is None,
        xs[0] != xs[1],
        xs.len() == 3 ==> (xs[2] > 0 && xs[0] < xs[1]) || (xs[2] < 0 && xs[0] > xs[1]),
    ensures
        expression_values(join(xs.map_values(|x: int| int_text(x)), seq![':']), ctx)
            == Ok::<Seq<Seq<char>>, Seq<char>>(
            texts(
                range_items(
                    xs[0],
                    xs[1],
                    if xs.len() == 3 {
                        xs[2]
                    } else if xs[0] < xs[1] {
                        1
                    } else {
                        -1
                    },
                ),
            ),
        ),
{
    let ts = xs.map_values(|x: int| int_text(x));
    let e = join(ts, seq![':']);
    assert forall|k: int| 0 <= k < ts.len() implies #[trigger] ts[k] == int_text(xs[k]) by {}
    assert forall|k: int, i: int| 0 <= k < ts.len() && 0 <= i < ts[k].len() implies is_digit(
        #[trigger] ts[k][i],
    ) || ts[k][i] == '-' by {
        lemma_int_text_reads_back(xs[k]);
        assert(ts[k] == int_text(xs[k]));
    }
    lemma_split_numbers(ts, ':');
    assert forall|k: int| 0 <= k < xs.len() implies int_value(#[trigger] ts[k], ctx) == Some(xs[k]) by {
        lemma_int_value_of_text(xs[k], ctx);
    }
    // the whole text: no comma, and no white space at either end
    lemma_join_chars(ts, ':');
    lemma_int_text_reads_back(xs[0]);
    lemma_int_text_reads_back(xs[xs.len() - 1]);
    assert(e.len() > 0 && e[0] == ts[0][0]);
    assert(e[e.len() - 1] == ts[ts.len() - 1][ts[ts.len() - 1].len() - 1]);
    assert(!whitespace(e[0])) by {
        assert(is_digit(ts[0][0]) || ts[0][0] == '-');
    }
    assert(!whitespace(e.last())) by {
        let l = ts[ts.len() - 1];
        assert(is_digit(l[l.len() - 1]) || l[l.len() - 1] == '-');
    }
    assert(trimmed(e) == e);
    assert forall|i: int| 0 <= i < e.len() implies !seq![','].contains(#[trigger] e[i]) by {
        assert(joined_char(e[i], ':'));
    }
    lemma_split_none(e, seq![',']);
    assert(seq![e].drop_last() =~= Seq::<Seq<char>>::empty());
    let step = if xs.len() == 3 {
        xs[2]
    } else if xs[0] < xs[1] {
        1
    } else {
        -1
    };
    let want = texts(range_items(xs[0], xs[1], step));
    assert(split_seq(trimmed(e), seq![':']) == ts);
    assert(int_value(ts[0], ctx) == Some(xs[0]));
    assert(int_value(ts[1], ctx) == Some(xs[1]));
    if xs.len() == 3 {
        assert(int_value(ts[2], ctx) == Some(xs[2]));
    }
    assert(part_values(e, ctx) == Ok::<Seq<Seq<char>>, Seq<char>>(want));
    assert(values_of(Seq::<Seq<char>>::empty(), ctx) == Ok::<Seq<Seq<char>>, Seq<char>>(
        Seq::empty(),
    ));
    assert(seq![e].last() == e);
    assert(Seq::<Seq<char>>::empty() + want =~= want);
    assert(values_of(seq![e], ctx) == Ok::<Seq<Seq<char>>, Seq<char>>(want));
}

/// A character of decimal texts joined by `c`.
pub open spec fn joined_char(ch: char, c: char) -> bool {
    is_digit(ch) || ch == '-' || ch == c
}

/// The characters of decimal texts joined by `c`: digits, `-`, and `c`;
/// the first and last come from the first and last texts.
#[verifier::rlimit(40)]
proof fn lemma_join_chars(ts: Seq<Seq<char>>, c: char)
    requires
        ts.len() >= 1,
        forall|k: int| 0 <= k < ts.len() ==> (#[trigger] ts[k]).len() > 0,
        forall|k: int, i: int|
            0 <= k < ts.len() && 0 <= i < ts[k].len() ==> is_digit(#[trigger] ts[k][i]) || ts[k][i]
                == '-',
    ensures
        forall|i: int|
            0 <= i < join(ts, seq![c]).len() ==> joined_char(
                #[trigger] join(ts, seq![c])[i],
                c,
            ),
        join(ts, seq![c]).len() > 0,
        join(ts, seq![c])[0] == ts[0][0],
        join(ts, seq![c]).last() == ts.last().last(),
    decreases ts.len(),
{
    let j = join(ts, seq![c]);
    if ts.len() == 1 {
        assert forall|i: int| 0 <= i < j.len() implies joined_char(#[trigger] j[i], c) by {
            assert(is_digit(ts[0][i]) || ts[0][i] == '-');
        }
    } else {
        let init = ts.drop_last();
        assert forall|k: int| 0 <= k < init.len() implies (#[trigger] init[k]).len() > 0 by {
            assert(init[k] == ts[k]);
        }
        assert forall|k: int, i: int| 0 <= k < init.len() && 0 <= i < init[k].len() implies is_digit(
            #[trigger] init[k][i],
        ) || init[k][i] == '-' by {
            assert(init[k] == ts[k]);
        }
        lemma_join_chars(init, c);
        let a = join(init, seq![c]);
        let y = ts.last();
        assert(j == a + seq![c] + y);
        assert(y.len() > 0) by {
            assert(ts[ts.len() - 1].len() > 0);
        }
        assert forall|i: int| 0 <= i < j.len() implies joined_char(#[trigger] j[i], c) by {
            if i < a.len() {
                assert(j[i] == a[i]);
            } else if i == a.len() {
            } else {
                assert(j[i] == y[i - a.len() - 1]);
                assert(is_digit(ts[ts.len() - 1][i - a.len() - 1]) || ts[ts.len() - 1][i - a.len() - 1] == '-');
            }
        }
        assert(j[0] == a[0]);
    }
}

} // verus!
