//! Expansion of a declared parameter set into the sequence of combinations.
use vstd::prelude::*;
use crate::deps::{
    depends, has_cycle, is_resolution, lemma_resolution_acyclic, lemma_resolution_unique,
    lemma_two_cycle, ready, resolution, topological_sort,
};
use crate::expr::{evaluate_expression, expression_values, lookup, pairs_view};
use crate::text::{chars_of, slice_chars, string_of, to_upper, upper_of, views};

verus! {

pub open spec fn string_pairs(s: Seq<(String, String)>) -> Seq<(Seq<char>, Seq<char>)> {
    s.map_values(|p: (String, String)| (p.0@, p.1@))
}

pub open spec fn strings_view(s: Seq<String>) -> Seq<Seq<char>> {
    s.map_values(|x: String| x@)
}

/// The names of a parameter set, in declaration order.
pub open spec fn names_of(ps: Seq<(Seq<char>, Seq<char>)>) -> Seq<Seq<char>> {
    ps.map_values(|p: (Seq<char>, Seq<char>)| p.0)
}

/// `m` with `k` bound to `v`: the entry for `k` replaced in place, or a new
/// entry at the end.
pub open spec fn put(m: Seq<(Seq<char>, Seq<char>)>, k: Seq<char>, v: Seq<char>) -> Seq<
    (Seq<char>, Seq<char>),
>
    decreases m.len(),
{
    if m.len() == 0 {
        seq![(k, v)]
    } else if m[0].0 == k {
        m.update(0, (k, v))
    } else {
        seq![m[0]] + put(m.drop_first(), k, v)
    }
}

pub proof fn lemma_put_at(m: Seq<(Seq<char>, Seq<char>)>, k: Seq<char>, v: Seq<char>, i: int)
    requires
        0 <= i <= m.len(),
        forall|j: int| 0 <= j < i ==> (#[trigger] m[j]).0 != k,
        i < m.len() ==> m[i].0 == k,
    ensures
        put(m, k, v) == (if i < m.len() {
            m.update(i, (k, v))
        } else {
            m.push((k, v))
        }),
    decreases i,
{
    if i > 0 {
        let t = m.drop_first();
        assert forall|j: int| 0 <= j < i - 1 implies (#[trigger] t[j]).0 != k by {
            assert(t[j] == m[j + 1]);
        }
        lemma_put_at(t, k, v, i - 1);
        if i < m.len() {
            assert(seq![m[0]] + t.update(i - 1, (k, v)) =~= m.update(i, (k, v)));
        } else {
            assert(seq![m[0]] + t.push((k, v)) =~= m.push((k, v)));
        }
    } else if m.len() == 0 {
        assert(seq![(k, v)] =~= m.push((k, v)));
    }
}

/// After `put`, the key has the new value and every other key its old one.
pub proof fn lemma_put_lookup(
    m: Seq<(Seq<char>, Seq<char>)>,
    k: Seq<char>,
    v: Seq<char>,
    q: Seq<char>,
)
    ensures
        lookup(put(m, k, v), q) == (if q == k {
            Some(v)
        } else {
            lookup(m, q)
        }),
    decreases m.len(),
{
    let p = put(m, k, v);
    if m.len() == 0 {
        assert(p[0] == (k, v));
        assert(p.drop_first() =~= m);
        assert(lookup(p, q) == (if q == k {
            Some(v)
        } else {
            lookup(p.drop_first(), q)
        }));
    } else if m[0].0 == k {
        assert(p[0] == (k, v));
        assert(p.drop_first() =~= m.drop_first());
        assert(lookup(p, q) == (if q == k {
            Some(v)
        } else {
            lookup(p.drop_first(), q)
        }));
    } else {
        lemma_put_lookup(m.drop_first(), k, v, q);
        assert(p[0] == m[0]);
        assert(p.drop_first() =~= put(m.drop_first(), k, v));
    }
}

/// Two assignments give every name the same value.
pub open spec fn same_mapping(a: Seq<(Seq<char>, Seq<char>)>, b: Seq<(Seq<char>, Seq<char>)>) -> bool {
    forall|k: Seq<char>| #[trigger] lookup(a, k) == lookup(b, k)
}

/// An ordered map from names to texts: parameter values of a combination,
/// or metric values of a run.
#[derive(Debug)]
pub struct TextMap {
    entries: Vec<(String, String)>,
}

impl View for TextMap {
    type V = Seq<(Seq<char>, Seq<char>)>;

    closed spec fn view(&self) -> Seq<(Seq<char>, Seq<char>)> {
        string_pairs(self.entries@)
    }
}

/// A key has a value exactly when some entry carries it.
pub proof fn lemma_lookup_some(s: Seq<(Seq<char>, Seq<char>)>, k: Seq<char>)
    ensures
        lookup(s, k) is Some <==> exists|i: int| 0 <= i < s.len() && (#[trigger] s[i]).0 == k,
    decreases s.len(),
{
    if s.len() > 0 {
        lemma_lookup_some(s.drop_first(), k);
        if lookup(s.drop_first(), k) is Some {
            let i = choose|i: int| 0 <= i < s.drop_first().len() && (#[trigger] s.drop_first()[i]).0 == k;
            assert(s[i + 1] == s.drop_first()[i]);
        }
        if exists|i: int| 0 <= i < s.len() && (#[trigger] s[i]).0 == k {
            let i = choose|i: int| 0 <= i < s.len() && (#[trigger] s[i]).0 == k;
            if i > 0 {
                assert(s.drop_first()[i - 1] == s[i]);
            }
        }
    }
}

/// Every name occurs in one entry only.
pub open spec fn names_distinct(m: Seq<(Seq<char>, Seq<char>)>) -> bool {
    forall|i: int, j: int| 0 <= i < j < m.len() ==> (#[trigger] m[i]).0 != (#[trigger] m[j]).0
}

/// The pairs bound in order, a later value of a name replacing an earlier one.
pub open spec fn assign_all(p: Seq<(Seq<char>, Seq<char>)>) -> Seq<(Seq<char>, Seq<char>)>
    decreases p.len(),
{
    if p.len() == 0 {
        Seq::empty()
    } else {
        put(assign_all(p.drop_last()), p.last().0, p.last().1)
    }
}

impl TextMap {
    #[verifier::type_invariant]
    spec fn names_unique(self) -> bool {
        names_distinct(string_pairs(self.entries@))
    }

    pub fn new() -> (m: TextMap)
        ensures
            m@ == Seq::<(Seq<char>, Seq<char>)>::empty(),
            names_distinct(m@),
    {
        let m = TextMap { entries: Vec::new() };
        assert(m@ =~= Seq::<(Seq<char>, Seq<char>)>::empty());
        m
    }

    /// Adds a name that the map does not hold yet, with its value, after the
    /// existing ones.
    pub fn push(&mut self, name: String, value: String)
        requires
            forall|i: int| 0 <= i < old(self)@.len() ==> (#[trigger] old(self)@[i]).0 != name@,
        ensures
            final(self)@ == old(self)@.push((name@, value@)),
            names_distinct(final(self)@),
    {
        let mut entries = self.take_entries();
        entries.push((name, value));
        assert(string_pairs(entries@) =~= old(self)@.push((name@, value@)));
        *self = TextMap { entries };
    }

    /// Moves the entries out, leaving the map empty.
    fn take_entries(&mut self) -> (e: Vec<(String, String)>)
        ensures
            string_pairs(e@) == old(self)@,
            names_distinct(old(self)@),
            final(self)@.len() == 0,
    {
        let mut held = TextMap::new();
        std::mem::swap(self, &mut held);
        proof {
            use_type_invariant(&held);
        }
        let TextMap { entries } = held;
        entries
    }

    /// Binds `name` to `value`, replacing an earlier value of `name`.
    pub fn insert(&mut self, name: String, value: String)
        ensures
            final(self)@ == put(old(self)@, name@, value@),
            names_distinct(final(self)@),
    {
        let mut i: usize = 0;
        while i < self.entries.len()
            invariant
                i <= old(self)@.len(),
                self == old(self),
                forall|j: int| 0 <= j < i ==> (#[trigger] old(self)@[j]).0 != name@,
            decreases old(self)@.len() - i,
        {
            if self.entries[i].0 == name {
                proof {
                    lemma_put_at(old(self)@, name@, value@, i as int);
                }
                let mut entries = self.take_entries();
                entries.set(i, (name, value));
                let ghost now = string_pairs(entries@);
                assert(now =~= old(self)@.update(i as int, (name@, value@)));
                assert forall|a: int, b: int| 0 <= a < b < now.len() implies (#[trigger] now[a]).0
                    != (#[trigger] now[b]).0 by {
                    assert(now[a].0 == old(self)@[a].0 && now[b].0 == old(self)@[b].0);
                }
                *self = TextMap { entries };
                return;
            }
            assert(old(self)@[i as int].0 == self.entries@[i as int].0@);
            i += 1;
        }
        proof {
            lemma_put_at(old(self)@, name@, value@, i as int);
        }
        self.push(name, value);
    }

    /// A copy holding the same names and values.
    pub fn copy(&self) -> (r: TextMap)
        ensures
            r@ == self@,
            names_distinct(r@),
    {
        proof {
            use_type_invariant(self);
        }
        let mut r = TextMap::new();
        let mut i: usize = 0;
        while i < self.entries.len()
            invariant
                i <= self@.len(),
                names_distinct(self@),
                r@ == self@.take(i as int),
            decreases self@.len() - i,
        {
            assert(self@[i as int].0 == self.entries@[i as int].0@);
            assert forall|j: int| 0 <= j < r@.len() implies (#[trigger] r@[j]).0 != self@[i as int].0 by {
                assert(r@[j] == self@[j]);
            }
            r.push(self.entries[i].0.clone(), self.entries[i].1.clone());
            assert(r@ =~= self@.take(i + 1));
            i += 1;
        }
        assert(self@.take(self@.len() as int) =~= self@);
        r
    }

    pub fn len(&self) -> (n: usize)
        ensures
            n == self@.len(),
    {
        self.entries.len()
    }

    /// The `i`-th name and value.
    pub fn entry(&self, i: usize) -> (r: (&String, &String))
        requires
            i < self@.len(),
        ensures
            (r.0@, r.1@) == self@[i as int],
    {
        (&self.entries[i].0, &self.entries[i].1)
    }

    /// The value of `name`.
    pub fn get(&self, name: &str) -> (r: Option<&String>)
        ensures
            r matches Some(v) ==> lookup(self@, name@) == Some(v@),
            r is None ==> lookup(self@, name@) is None,
    {
        let key: String = name.to_owned();
        let mut i: usize = 0;
        assert(self@.skip(0) =~= self@);
        while i < self.entries.len()
            invariant
                i <= self@.len(),
                key@ == name@,
                lookup(self@, name@) == lookup(self@.skip(i as int), name@),
            decreases self@.len() - i,
        {
            assert(self@.skip(i as int).drop_first() =~= self@.skip(i + 1));
            if self.entries[i].0 == key {
                return Some(&self.entries[i].1);
            }
            i += 1;
        }
        None
    }

    /// Whether both maps give every name the same value.
    pub fn same_values(&self, other: &TextMap) -> (r: bool)
        ensures
            r == same_mapping(self@, other@),
    {
        let a = self.covered_by(other);
        let b = other.covered_by(self);
        proof {
            if a && b {
                assert forall|k: Seq<char>| #[trigger] lookup(self@, k) == lookup(other@, k) by {
                    lemma_lookup_some(self@, k);
                    lemma_lookup_some(other@, k);
                    if lookup(self@, k) is Some {
                        let i = choose|i: int| 0 <= i < self@.len() && (#[trigger] self@[i]).0 == k;
                    } else if lookup(other@, k) is Some {
                        let i = choose|i: int| 0 <= i < other@.len() && (#[trigger] other@[i]).0 == k;
                    }
                }
            }
        }
        a && b
    }

    /// Every name of `self` has the same value in `other`.
    fn covered_by(&self, other: &TextMap) -> (r: bool)
        ensures
            r == forall|i: int|
                0 <= i < self@.len() ==> lookup(self@, (#[trigger] self@[i]).0) == lookup(
                    other@,
                    self@[i].0,
                ),
            !r ==> !same_mapping(self@, other@),
    {
        let mut i: usize = 0;
        while i < self.entries.len()
            invariant
                i <= self@.len(),
                forall|j: int|
                    0 <= j < i ==> lookup(self@, (#[trigger] self@[j]).0) == lookup(
                        other@,
                        self@[j].0,
                    ),
            decreases self@.len() - i,
        {
            let ghost k = self@[i as int].0;
            let x = self.get(self.entries[i].0.as_str());
            let y = other.get(self.entries[i].0.as_str());
            let same = match (x, y) {
                (Some(u), Some(v)) => *u == *v,
                (None, None) => true,
                _ => false,
            };
            if !same {
                assert(lookup(self@, k) != lookup(other@, k));
                return false;
            }
            i += 1;
        }
        true
    }
}

/// One point of the sweep: a value for every parameter, and the declaration
/// order of the parameters for the columns of the output.
#[derive(Debug, Clone)]
pub struct Combination {
    pub params: TextMap,
    pub param_order: Vec<String>,
}

impl Clone for TextMap {
    fn clone(&self) -> (r: Self)
        ensures
            r@ == self@,
    {
        self.copy()
    }
}

/// The evaluation context of a partial combination: names upper-cased.
pub open spec fn context_of(p: Seq<(Seq<char>, Seq<char>)>) -> Seq<(Seq<char>, Seq<char>)> {
    p.map_values(|e: (Seq<char>, Seq<char>)| (upper_of(e.0), e.1))
}

/// Each partial combination extended by every value of expression `e` for
/// parameter `name`, in order: a cross product.
pub open spec fn extend_all(
    parts: Seq<Seq<(Seq<char>, Seq<char>)>>,
    name: Seq<char>,
    e: Seq<char>,
) -> Result<Seq<Seq<(Seq<char>, Seq<char>)>>, Seq<char>>
    decreases parts.len(),
{
    if parts.len() == 0 {
        Ok(Seq::empty())
    } else {
        match extend_all(parts.drop_last(), name, e) {
            Err(m) => Err(m),
            Ok(acc) => match expression_values(e, context_of(parts.last())) {
                Err(m) => Err(m),
                Ok(vs) => Ok(acc + vs.map_values(|v: Seq<char>| parts.last().push((name, v)))),
            },
        }
    }
}

/// The combinations built by taking the parameters in `order`, starting
/// from one empty combination; later parameters vary fastest.
pub open spec fn expand(ps: Seq<(Seq<char>, Seq<char>)>, order: Seq<int>) -> Result<
    Seq<Seq<(Seq<char>, Seq<char>)>>,
    Seq<char>,
>
    decreases order.len(),
{
    if order.len() == 0 {
        Ok(seq![Seq::empty()])
    } else {
        match expand(ps, order.drop_last()) {
            Err(m) => Err(m),
            Ok(parts) => extend_all(parts, ps[order.last()].0, ps[order.last()].1),
        }
    }
}

pub open spec fn cycle_error() -> Seq<char> {
    "Circular dependency detected in parameter definitions"@
}

/// The combinations of a parameter set, or the error that stops the sweep.
pub open spec fn sweep_values(ps: Seq<(Seq<char>, Seq<char>)>) -> Result<
    Seq<Seq<(Seq<char>, Seq<char>)>>,
    Seq<char>,
> {
    if has_cycle(ps) {
        Err(cycle_error())
    } else {
        expand(ps, resolution(ps))
    }
}

pub open spec fn partials_view(v: Seq<Vec<(Vec<char>, Vec<char>)>>) -> Seq<
    Seq<(Seq<char>, Seq<char>)>,
> {
    v.map_values(|p: Vec<(Vec<char>, Vec<char>)>| pairs_view(p@))
}

fn char_pairs(params: &[(String, String)]) -> (r: Vec<(Vec<char>, Vec<char>)>)
    ensures
        pairs_view(r@) == string_pairs(params@),
{
    let mut r: Vec<(Vec<char>, Vec<char>)> = Vec::new();
    let mut i: usize = 0;
    while i < params.len()
        invariant
            i <= params@.len(),
            r@.len() == i,
            pairs_view(r@) == string_pairs(params@).take(i as int),
        decreases params@.len() - i,
    {
        let a = chars_of(params[i].0.as_str());
        let b = chars_of(params[i].1.as_str());
        r.push((a, b));
        assert(pairs_view(r@)[i as int] == string_pairs(params@)[i as int]);
        assert(pairs_view(r@) =~= string_pairs(params@).take(i + 1));
        i += 1;
    }
    assert(string_pairs(params@).take(params@.len() as int) =~= string_pairs(params@));
    r
}

fn copy_pairs(p: &Vec<(Vec<char>, Vec<char>)>) -> (r: Vec<(Vec<char>, Vec<char>)>)
    ensures
        pairs_view(r@) == pairs_view(p@),
{
    let mut r: Vec<(Vec<char>, Vec<char>)> = Vec::new();
    let mut i: usize = 0;
    while i < p.len()
        invariant
            i <= p@.len(),
            r@.len() == i,
            pairs_view(r@) == pairs_view(p@).take(i as int),
        decreases p@.len() - i,
    {
        let a = slice_chars(&p[i].0, 0, p[i].0.len());
        let b = slice_chars(&p[i].1, 0, p[i].1.len());
        assert(a@ =~= p@[i as int].0@);
        assert(b@ =~= p@[i as int].1@);
        r.push((a, b));
        assert(pairs_view(r@)[i as int] == pairs_view(p@)[i as int]);
        assert(pairs_view(r@) =~= pairs_view(p@).take(i + 1));
        i += 1;
    }
    assert(pairs_view(p@).take(p@.len() as int) =~= pairs_view(p@));
    r
}

fn context_for(p: &Vec<(Vec<char>, Vec<char>)>) -> (r: Vec<(Vec<char>, Vec<char>)>)
    ensures
        pairs_view(r@) == context_of(pairs_view(p@)),
{
    let mut r: Vec<(Vec<char>, Vec<char>)> = Vec::new();
    let mut i: usize = 0;
    while i < p.len()
        invariant
            i <= p@.len(),
            r@.len() == i,
            pairs_view(r@) == context_of(pairs_view(p@)).take(i as int),
        decreases p@.len() - i,
    {
        let a = to_upper(&p[i].0);
        let b = slice_chars(&p[i].1, 0, p[i].1.len());
        assert(b@ =~= p@[i as int].1@);
        r.push((a, b));
        assert(pairs_view(r@)[i as int] == context_of(pairs_view(p@))[i as int]);
        assert(pairs_view(r@) =~= context_of(pairs_view(p@)).take(i + 1));
        i += 1;
    }
    assert(context_of(pairs_view(p@)).take(p@.len() as int) =~= context_of(pairs_view(p@)));
    r
}

proof fn lemma_extend_stays_err(
    parts: Seq<Seq<(Seq<char>, Seq<char>)>>,
    k: int,
    name: Seq<char>,
    e: Seq<char>,
)
    requires
        0 <= k <= parts.len(),
        extend_all(parts.take(k), name, e) is Err,
    ensures
        extend_all(parts, name, e) == extend_all(parts.take(k), name, e),
    decreases parts.len() - k,
{
    if k < parts.len() {
        assert(parts.take(k + 1).drop_last() =~= parts.take(k));
        lemma_extend_stays_err(parts, k + 1, name, e);
    } else {
        assert(parts.take(k) =~= parts);
    }
}

/// Extends every partial combination by each value of parameter `(name, e)`.
fn extend_partials(parts: &Vec<Vec<(Vec<char>, Vec<char>)>>, name: &[char], e: &[char]) -> (r:
    Result<Vec<Vec<(Vec<char>, Vec<char>)>>, Vec<char>>)
    ensures
        match (r, extend_all(partials_view(parts@), name@, e@)) {
            (Ok(v), Ok(w)) => partials_view(v@) == w,
            (Err(m), Err(em)) => m@ == em,
            _ => false,
        },
{
    let ghost pv = partials_view(parts@);
    let mut out: Vec<Vec<(Vec<char>, Vec<char>)>> = Vec::new();
    let mut k: usize = 0;
    assert(pv.take(0) =~= Seq::<Seq<(Seq<char>, Seq<char>)>>::empty());
    assert(partials_view(out@) =~= Seq::<Seq<(Seq<char>, Seq<char>)>>::empty());
    while k < parts.len()
        invariant
            k <= parts@.len(),
            pv == partials_view(parts@),
            extend_all(pv.take(k as int), name@, e@) == Ok::<
                Seq<Seq<(Seq<char>, Seq<char>)>>,
                Seq<char>,
            >(partials_view(out@)),
        decreases parts@.len() - k,
    {
        assert(pv.take(k + 1).drop_last() =~= pv.take(k as int));
        assert(pv.take(k + 1).last() == pairs_view(parts@[k as int]@));
        let ctx = context_for(&parts[k]);
        match evaluate_expression(e, &ctx) {
            Err(m) => {
                proof {
                    lemma_extend_stays_err(pv, (k + 1) as int, name@, e@);
                }
                return Err(m);
            },
            Ok(vals) => {
                let ghost base = partials_view(out@);
                let ghost p = pairs_view(parts@[k as int]@);
                let mut j: usize = 0;
                while j < vals.len()
                    invariant
                        j <= vals@.len(),
                        k < parts@.len(),
                        p == pairs_view(parts@[k as int]@),
                        partials_view(out@) == base + views(vals@).take(j as int).map_values(
                            |v: Seq<char>| p.push((name@, v)),
                        ),
                    decreases vals@.len() - j,
                {
                    let mut q = copy_pairs(&parts[k]);
                    let nm = slice_chars(name, 0, name.len());
                    let val = slice_chars(&vals[j], 0, vals[j].len());
                    assert(nm@ =~= name@);
                    assert(val@ =~= vals@[j as int]@);
                    q.push((nm, val));
                    assert(pairs_view(q@) =~= p.push((name@, vals@[j as int]@)));
                    let ghost old_out = partials_view(out@);
                    out.push(q);
                    assert(partials_view(out@) == old_out.push(pairs_view(q@)));
                    assert(partials_view(out@) =~= base + views(vals@).take(j + 1).map_values(
                        |v: Seq<char>| p.push((name@, v)),
                    ));
                    j += 1;
                }
                assert(views(vals@).take(vals@.len() as int) =~= views(vals@));
            },
        }
        k += 1;
    }
    assert(pv.take(parts@.len() as int) =~= pv);
    Ok(out)
}

proof fn lemma_expand_stays_err(ps: Seq<(Seq<char>, Seq<char>)>, order: Seq<int>, k: int)
    requires
        0 <= k <= order.len(),
        expand(ps, order.take(k)) is Err,
    ensures
        expand(ps, order) == expand(ps, order.take(k)),
    decreases order.len() - k,
{
    if k < order.len() {
        assert(order.take(k + 1).drop_last() =~= order.take(k));
        lemma_expand_stays_err(ps, order, k + 1);
    } else {
        assert(order.take(k) =~= order);
    }
}

fn to_param_map(p: &Vec<(Vec<char>, Vec<char>)>) -> (m: TextMap)
    ensures
        m@ == assign_all(pairs_view(p@)),
{
    let mut m = TextMap::new();
    let mut i: usize = 0;
    assert(pairs_view(p@).take(0) =~= Seq::<(Seq<char>, Seq<char>)>::empty());
    while i < p.len()
        invariant
            i <= p@.len(),
            m@ == assign_all(pairs_view(p@).take(i as int)),
        decreases p@.len() - i,
    {
        assert(pairs_view(p@).take(i + 1).drop_last() =~= pairs_view(p@).take(i as int));
        m.insert(string_of(&p[i].0), string_of(&p[i].1));
        i += 1;
    }
    assert(pairs_view(p@).take(p@.len() as int) =~= pairs_view(p@));
    m
}

/// Every combination of the declared parameters: dependencies are evaluated
/// first, and later-evaluated parameters vary fastest. Each combination
/// keeps the declaration order of the names for the output columns. Fails
/// with the cycle error when the parameters refer to each other in a cycle,
/// otherwise with the first range error met.
pub fn evaluate_params(params: &[(String, String)]) -> (r: Result<Vec<Combination>, String>)
    ensures
        match (r, sweep_values(string_pairs(params@))) {
            (Ok(cs), Ok(parts)) => {
                &&& cs@.len() == parts.len()
                &&& forall|i: int| 0 <= i < cs@.len() ==> (#[trigger] cs@[i]).params@ == assign_all(parts[i])
                &&& forall|i: int|
                    0 <= i < cs@.len() ==> strings_view((#[trigger] cs@[i]).param_order@)
                        == names_of(string_pairs(params@))
            },
            (Err(m), Err(em)) => m@ == em,
            _ => false,
        },
{
    let ghost ps = string_pairs(params@);
    let decl = char_pairs(params);
    let order = match topological_sort(&decl) {
        None => {
            return Err(string_of(&chars_of("Circular dependency detected in parameter definitions")));
        },
        Some(o) => o,
    };
    let ghost ord = order@.map_values(|x: usize| x as int);
    proof {
        lemma_resolution_unique(ps, ord, resolution(ps));
    }
    let mut parts: Vec<Vec<(Vec<char>, Vec<char>)>> = Vec::new();
    parts.push(Vec::new());
    assert(pairs_view(parts@[0]@) =~= Seq::<(Seq<char>, Seq<char>)>::empty());
    assert(partials_view(parts@) =~= seq![Seq::<(Seq<char>, Seq<char>)>::empty()]);
    assert(ord.take(0) =~= Seq::<int>::empty());
    let mut k: usize = 0;
    while k < order.len()
        invariant
            k <= order@.len(),
            ps == pairs_view(decl@),
            is_resolution(ps, ord),
            ord == resolution(ps),
            !has_cycle(ps),
            ps == string_pairs(params@),
            ord == order@.map_values(|x: usize| x as int),
            expand(ps, ord.take(k as int)) == Ok::<
                Seq<Seq<(Seq<char>, Seq<char>)>>,
                Seq<char>,
            >(partials_view(parts@)),
        decreases order@.len() - k,
    {
        let idx = order[k];
        assert(ord.take(k + 1).drop_last() =~= ord.take(k as int));
        assert(ord.take(k + 1).last() == idx as int);
        assert(0 <= ord[k as int] < ps.len());
        assert(ps[idx as int] == (decl@[idx as int].0@, decl@[idx as int].1@));
        match extend_partials(&parts, &decl[idx].0, &decl[idx].1) {
            Err(m) => {
                proof {
                    lemma_expand_stays_err(ps, ord, (k + 1) as int);
                }
                return Err(string_of(&m));
            },
            Ok(next) => {
                parts = next;
            },
        }
        k += 1;
    }
    assert(ord.take(order@.len() as int) =~= ord);
    let mut names: Vec<String> = Vec::new();
    let mut i: usize = 0;
    while i < params.len()
        invariant
            i <= params@.len(),
            names@.len() == i,
            strings_view(names@) == names_of(string_pairs(params@)).take(i as int),
        decreases params@.len() - i,
    {
        let c = params[i].0.clone();
        let ghost old_names = names@;
        names.push(c);
        assert(names@ == old_names.push(c));
        assert(strings_view(names@)[i as int] == names_of(string_pairs(params@))[i as int]);
        assert(strings_view(names@) =~= names_of(string_pairs(params@)).take(i + 1));
        i += 1;
    }
    assert(names_of(string_pairs(params@)).take(params@.len() as int) =~= names_of(
        string_pairs(params@),
    ));
    let mut combos: Vec<Combination> = Vec::new();
    let mut j: usize = 0;
    while j < parts.len()
        invariant
            j <= parts@.len(),
            combos@.len() == j,
            strings_view(names@) == names_of(string_pairs(params@)),
            forall|a: int|
                0 <= a < j ==> (#[trigger] combos@[a]).params@ == assign_all(partials_view(parts@)[a]),
            forall|a: int|
                0 <= a < j ==> strings_view((#[trigger] combos@[a]).param_order@)
                    == names_of(string_pairs(params@)),
        decreases parts@.len() - j,
    {
        let m = to_param_map(&parts[j]);
        let order_copy = copy_names(&names);
        combos.push(Combination { params: m, param_order: order_copy });
        j += 1;
    }
    Ok(combos)
}

fn copy_names(v: &Vec<String>) -> (r: Vec<String>)
    ensures
        strings_view(r@) == strings_view(v@),
{
    let mut r: Vec<String> = Vec::new();
    let mut i: usize = 0;
    while i < v.len()
        invariant
            i <= v@.len(),
            r@.len() == i,
            strings_view(r@) == strings_view(v@).take(i as int),
        decreases v@.len() - i,
    {
        let ghost old_r = r@;
        let c = v[i].clone();
        assert(c@ == v@[i as int]@);
        r.push(c);
        assert(r@ == old_r.push(c));
        assert(strings_view(r@).len() == i + 1);
        assert(strings_view(r@)[i as int] == v@[i as int]@);
        assert(strings_view(r@) =~= strings_view(v@).take(i + 1));
        i += 1;
    }
    assert(strings_view(v@).take(v@.len() as int) =~= strings_view(v@));
    r
}

/// Product of a sequence of counts.
pub open spec fn product(s: Seq<nat>) -> nat
    decreases s.len(),
{
    if s.len() == 0 {
        1
    } else {
        product(s.drop_last()) * s.last()
    }
}

proof fn lemma_extend_count(
    parts: Seq<Seq<(Seq<char>, Seq<char>)>>,
    name: Seq<char>,
    e: Seq<char>,
    k: nat,
)
    requires
        forall|ctx: Seq<(Seq<char>, Seq<char>)>|
            (#[trigger] expression_values(e, ctx)) is Ok && expression_values(e, ctx)->Ok_0.len()
                == k,
    ensures
        extend_all(parts, name, e) is Ok,
        extend_all(parts, name, e)->Ok_0.len() == parts.len() * k,
    decreases parts.len(),
{
    if parts.len() > 0 {
        lemma_extend_count(parts.drop_last(), name, e, k);
        let vs = expression_values(e, context_of(parts.last()))->Ok_0;
        assert(vs.len() == k);
        assert((parts.len() - 1) * k + k == parts.len() * k) by (nonlinear_arith);
    }
}

/// Cross product: when each parameter expands to the same number of values
/// whatever the values of the others, taking the parameters in any order
/// gives as many combinations as the product of those numbers.
pub proof fn law_combination_count(
    ps: Seq<(Seq<char>, Seq<char>)>,
    order: Seq<int>,
    counts: Seq<nat>,
)
    requires
        counts.len() == ps.len(),
        forall|j: int| 0 <= j < order.len() ==> 0 <= #[trigger] order[j] < ps.len(),
        forall|i: int, ctx: Seq<(Seq<char>, Seq<char>)>|
            0 <= i < ps.len() ==> (#[trigger] expression_values(ps[i].1, ctx)) is Ok
                && expression_values(ps[i].1, ctx)->Ok_0.len() == counts[i],
    ensures
        expand(ps, order) is Ok,
        expand(ps, order)->Ok_0.len() == product(order.map_values(|j: int| counts[j])),
    decreases order.len(),
{
    if order.len() > 0 {
        let init = order.drop_last();
        assert forall|j: int| 0 <= j < init.len() implies 0 <= #[trigger] init[j] < ps.len() by {
            assert(init[j] == order[j]);
        }
        law_combination_count(ps, init, counts);
        let i = order.last();
        assert(0 <= i < ps.len());
        lemma_extend_count(
            expand(ps, init)->Ok_0,
            ps[i].0,
            ps[i].1,
            counts[i],
        );
        assert(order.map_values(|j: int| counts[j]).drop_last() =~= init.map_values(
            |j: int| counts[j],
        ));
    }
}

/// Two parameters that refer to each other form a cycle, and the sweep
/// stops with the cycle error before any combination exists.
pub proof fn law_mutual_reference(ps: Seq<(Seq<char>, Seq<char>)>, a: int, b: int)
    requires
        0 <= a < ps.len(),
        0 <= b < ps.len(),
        depends(ps, a, b),
        depends(ps, b, a),
    ensures
        has_cycle(ps),
        sweep_values(ps) == Err::<Seq<Seq<(Seq<char>, Seq<char>)>>, Seq<char>>(cycle_error()),
{
    lemma_two_cycle(ps, a, b);
}

/// With parameters that refer to no other, each expanding to `counts[i]`
/// values, the sweep has as many combinations as the product of the counts.
pub proof fn law_independent_count(ps: Seq<(Seq<char>, Seq<char>)>, counts: Seq<nat>)
    requires
        counts.len() == ps.len(),
        forall|i: int, j: int| 0 <= i < ps.len() && 0 <= j < ps.len() ==> !depends(ps, i, j),
        forall|i: int, ctx: Seq<(Seq<char>, Seq<char>)>|
            0 <= i < ps.len() ==> (#[trigger] expression_values(ps[i].1, ctx)) is Ok
                && expression_values(ps[i].1, ctx)->Ok_0.len() == counts[i],
    ensures
        sweep_values(ps) is Ok,
        sweep_values(ps)->Ok_0.len() == product(counts),
{
    let n = ps.len();
    let order = Seq::new(n, |i: int| i);
    assert forall|j: int| 0 <= j < n implies order.contains(j) by {
        assert(order[j] == j);
    }
    assert forall|k: int| 0 <= k < order.len() implies {
        &&& 0 <= #[trigger] order[k] < ps.len()
        &&& !order.take(k).contains(order[k])
        &&& ready(ps, order.take(k), order[k])
        &&& forall|j: int|
            0 <= j < order[k] && !order.take(k).contains(j) ==> !ready(ps, order.take(k), j)
    } by {
        assert forall|j: int| 0 <= j < order[k] implies order.take(k).contains(j) by {
            assert(order.take(k)[j] == j);
        }
        if order.take(k).contains(order[k]) {
            let p = choose|p: int| 0 <= p < order.take(k).len() && order.take(k)[p] == order[k];
            assert(order.take(k)[p] == p);
        }
    }
    assert(is_resolution(ps, order));
    lemma_resolution_acyclic(ps, order);
    lemma_resolution_unique(ps, order, resolution(ps));
    law_combination_count(ps, order, counts);
    assert(order.map_values(|j: int| counts[j]) =~= counts);
}

} // verus!
