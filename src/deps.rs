//! Dependencies between parameters and the order in which they are evaluated.
use vstd::prelude::*;
use crate::expr::pairs_view;
use crate::text::{alphabetic, chars_eq, is_alphabetic, to_upper, upper_of, views};

verus! {

/// Characters that make up an identifier.
pub open spec fn ident_char(c: char) -> bool {
    alphabetic(c) || c == '_'
}

/// The maximal runs of identifier characters of `s`, the first one extended
/// from `cur`.
pub open spec fn runs_from(s: Seq<char>, cur: Seq<char>) -> Seq<Seq<char>>
    decreases s.len(),
{
    let flushed = if cur.len() > 0 {
        seq![cur]
    } else {
        Seq::empty()
    };
    if s.len() == 0 {
        flushed
    } else if ident_char(s[0]) {
        runs_from(s.drop_first(), cur.push(s[0]))
    } else {
        flushed + runs_from(s.drop_first(), Seq::empty())
    }
}

/// The identifiers of an expression, upper-cased, in order of appearance.
pub open spec fn referenced(e: Seq<char>) -> Seq<Seq<char>> {
    runs_from(e, Seq::empty()).map_values(|r: Seq<char>| upper_of(r))
}

/// Parameter `i` refers to parameter `j` by name.
#[verifier::opaque]
pub open spec fn depends(ps: Seq<(Seq<char>, Seq<char>)>, i: int, j: int) -> bool {
    referenced(ps[i].1).contains(ps[j].0)
}

/// Every dependency of parameter `j` is in `placed`.
pub open spec fn ready(ps: Seq<(Seq<char>, Seq<char>)>, placed: Seq<int>, j: int) -> bool {
    forall|d: int| 0 <= d < ps.len() && #[trigger] depends(ps, j, d) ==> placed.contains(d)
}

/// Evaluation order: each step takes the parameter of smallest declaration
/// index that is not yet placed and whose dependencies all are.
pub open spec fn is_resolution(ps: Seq<(Seq<char>, Seq<char>)>, order: Seq<int>) -> bool {
    &&& order.len() == ps.len()
    &&& forall|j: int| 0 <= j < ps.len() ==> order.contains(j)
    &&& forall|k: int|
        0 <= k < order.len() ==> {
            &&& 0 <= #[trigger] order[k] < ps.len()
            &&& !order.take(k).contains(order[k])
            &&& ready(ps, order.take(k), order[k])
            &&& forall|j: int|
                0 <= j < order[k] && !order.take(k).contains(j) ==> !ready(ps, order.take(k), j)
        }
}

/// A non-empty set of parameters each of which depends on a member of the set.
pub open spec fn self_dependent(ps: Seq<(Seq<char>, Seq<char>)>, s: Set<int>) -> bool {
    &&& exists|x: int| s.contains(x)
    &&& forall|j: int|
        #[trigger] s.contains(j) ==> 0 <= j < ps.len() && exists|d: int|
            s.contains(d) && depends(ps, j, d)
}

/// The dependencies run in a cycle.
pub open spec fn has_cycle(ps: Seq<(Seq<char>, Seq<char>)>) -> bool {
    exists|s: Set<int>| self_dependent(ps, s)
}

/// Appends the upper-cased identifiers of `term` to `vars`.
fn extract_variables_from_term(term: &[char], vars: &mut Vec<Vec<char>>)
    ensures
        views(final(vars)@) == views(old(vars)@) + referenced(term@),
{
    let ghost runs = runs_from(term@, Seq::empty());
    let mut found: Vec<Vec<char>> = Vec::new();
    let mut cur: Vec<char> = Vec::new();
    let mut i: usize = 0;
    assert(term@.skip(0) =~= term@);
    assert(views(found@) =~= Seq::<Seq<char>>::empty());
    while i < term.len()
        invariant
            i <= term@.len(),
            runs == runs_from(term@, Seq::empty()),
            views(found@) + runs_from(term@.skip(i as int), cur@) == runs,
        decreases term@.len() - i,
    {
        let c = term[i];
        assert(term@.skip(i as int).drop_first() =~= term@.skip(i + 1));
        assert(term@.skip(i as int)[0] == c);
        if is_alphabetic(c) || c == '_' {
            cur.push(c);
        } else {
            let ghost before = views(found@);
            if cur.len() > 0 {
                found.push(cur);
                assert(views(found@) =~= before + seq![cur@]);
            } else {
                assert(views(found@) =~= before + Seq::<Seq<char>>::empty());
            }
            cur = Vec::new();
            assert(cur@ =~= Seq::<char>::empty());
            assert(views(found@) + runs_from(term@.skip(i + 1), cur@) =~= runs);
        }
        i += 1;
    }
    if cur.len() > 0 {
        let ghost before = views(found@);
        found.push(cur);
        assert(views(found@) =~= before + seq![cur@]);
    } else {
        assert(views(found@) =~= views(found@) + Seq::<Seq<char>>::empty());
    }
    assert(term@.skip(i as int) =~= Seq::<char>::empty());
    assert(views(found@) == runs);
    let mut k: usize = 0;
    while k < found.len()
        invariant
            k <= found@.len(),
            views(found@) == runs,
            views(vars@) == views(old(vars)@) + runs.take(k as int).map_values(
                |r: Seq<char>| upper_of(r),
            ),
        decreases found@.len() - k,
    {
        let u = to_upper(&found[k]);
        let ghost before = views(vars@);
        vars.push(u);
        assert(views(vars@) =~= before.push(u@));
        assert(runs.take(k + 1).map_values(|r: Seq<char>| upper_of(r)) =~= runs.take(
            k as int,
        ).map_values(|r: Seq<char>| upper_of(r)).push(upper_of(runs[k as int])));
        k += 1;
    }
    assert(runs.take(found@.len() as int) =~= runs);
}

/// The upper-cased identifiers that an expression mentions.
fn extract_variables(e: &[char]) -> (r: Vec<Vec<char>>)
    ensures
        views(r@) == referenced(e@),
{
    let mut vars: Vec<Vec<char>> = Vec::new();
    assert(views(vars@) =~= Seq::<Seq<char>>::empty());
    extract_variables_from_term(e, &mut vars);
    assert(views(vars@) =~= referenced(e@));
    vars
}

fn contains_name(names: &Vec<Vec<char>>, name: &[char]) -> (r: bool)
    ensures
        r == views(names@).contains(name@),
{
    let mut i: usize = 0;
    while i < names.len()
        invariant
            i <= names@.len(),
            forall|k: int| 0 <= k < i ==> names@[k]@ != name@,
        decreases names@.len() - i,
    {
        if chars_eq(&names[i], name) {
            assert(views(names@)[i as int] == name@);
            return true;
        }
        i += 1;
    }
    assert forall|k: int| 0 <= k < views(names@).len() implies views(names@)[k] != name@ by {
        assert(views(names@)[k] == names@[k]@);
    }
    false
}

/// `n` entries, all set.
pub open spec fn every(n: nat) -> Seq<bool> {
    Seq::new(n, |d: int| true)
}

/// The number of `d < m` with `row[d]` and not `placed[d]`.
pub open spec fn unmet(row: Seq<bool>, placed: Seq<bool>, m: int) -> nat
    decreases m,
{
    if m <= 0 {
        0
    } else {
        unmet(row, placed, m - 1) + (if row[m - 1] && !placed[m - 1] {
            1nat
        } else {
            0nat
        })
    }
}

proof fn lemma_unmet_zero(row: Seq<bool>, placed: Seq<bool>, m: int)
    requires
        0 <= m,
    ensures
        unmet(row, placed, m) == 0 <==> forall|d: int| 0 <= d < m ==> (row[d] ==> placed[d]),
    decreases m,
{
    if m > 0 {
        lemma_unmet_zero(row, placed, m - 1);
    }
}

proof fn lemma_unmet_place(row: Seq<bool>, placed: Seq<bool>, v: int, m: int)
    requires
        0 <= v < placed.len(),
        !placed[v],
        0 <= m <= placed.len(),
    ensures
        unmet(row, placed.update(v, true), m) + (if v < m && row[v] {
            1int
        } else {
            0int
        }) == unmet(row, placed, m),
    decreases m,
{
    if m > 0 {
        lemma_unmet_place(row, placed, v, m - 1);
    }
}

proof fn lemma_unmet_bound(row: Seq<bool>, placed: Seq<bool>, m: int)
    requires
        0 <= m,
    ensures
        unmet(row, placed, m) <= m,
    decreases m,
{
    if m > 0 {
        lemma_unmet_bound(row, placed, m - 1);
    }
}

proof fn lemma_unmet_all(row: Seq<bool>, placed: Seq<bool>, m: int)
    requires
        0 <= m <= row.len(),
        m <= placed.len(),
        forall|d: int| 0 <= d < m ==> row[d] && !placed[d],
    ensures
        unmet(row, placed, m) == m,
    decreases m,
{
    if m > 0 {
        lemma_unmet_all(row, placed, m - 1);
    }
}

pub open spec fn dependency_rows(ps: Seq<(Seq<char>, Seq<char>)>, rows: Seq<Vec<bool>>) -> bool {
    &&& rows.len() == ps.len()
    &&& forall|i: int|
        0 <= i < ps.len() ==> (#[trigger] rows[i])@.len() == ps.len() && forall|j: int|
            0 <= j < ps.len() ==> rows[i]@[j] == depends(ps, i, j)
}

fn dependency_matrix(params: &[(Vec<char>, Vec<char>)]) -> (rows: Vec<Vec<bool>>)
    ensures
        dependency_rows(pairs_view(params@), rows@),
{
    let ghost ps = pairs_view(params@);
    let n = params.len();
    let mut rows: Vec<Vec<bool>> = Vec::new();
    let mut i: usize = 0;
    while i < n
        invariant
            n == params@.len(),
            ps == pairs_view(params@),
            i <= n,
            rows@.len() == i,
            forall|a: int|
                0 <= a < i ==> (#[trigger] rows@[a])@.len() == n && forall|j: int|
                    0 <= j < n ==> rows@[a]@[j] == depends(ps, a, j),
        decreases n - i,
    {
        let refs = extract_variables(&params[i].1);
        let mut row: Vec<bool> = Vec::new();
        let mut j: usize = 0;
        while j < n
            invariant
                n == params@.len(),
                ps == pairs_view(params@),
                i < n,
                j <= n,
                views(refs@) == referenced(params@[i as int].1@),
                row@.len() == j,
                forall|b: int| 0 <= b < j ==> row@[b] == depends(ps, i as int, b),
            decreases n - j,
        {
            let b = contains_name(&refs, &params[j].0);
            proof {
                reveal(depends);
            }
            row.push(b);
            j += 1;
        }
        rows.push(row);
        i += 1;
    }
    rows
}

proof fn lemma_stuck_is_cycle(ps: Seq<(Seq<char>, Seq<char>)>, placed: Seq<bool>, order: Seq<int>)
    requires
        placed.len() == ps.len(),
        forall|j: int| 0 <= j < ps.len() ==> (placed[j] <==> order.contains(j)),
        exists|j: int| 0 <= j < ps.len() && !placed[j],
        forall|j: int| 0 <= j < ps.len() && !placed[j] ==> !ready(ps, order, j),
    ensures
        has_cycle(ps),
{
    let s = Set::new(|j: int| 0 <= j < ps.len() && !placed[j]);
    assert forall|j: int| #[trigger] s.contains(j) implies 0 <= j < ps.len() && exists|d: int|
        s.contains(d) && depends(ps, j, d) by {
        assert(!ready(ps, order, j));
        let d = choose|d: int|
            !(0 <= d < ps.len() && #[trigger] depends(ps, j, d) ==> order.contains(d));
        assert(s.contains(d));
    }
    let x = choose|j: int| 0 <= j < ps.len() && !placed[j];
    assert(s.contains(x));
    assert(self_dependent(ps, s));
}

/// A resolution that places every parameter leaves no room for a cycle:
/// the first member of a self-dependent set to be placed would need another
/// member placed before it.
pub proof fn lemma_resolution_acyclic(ps: Seq<(Seq<char>, Seq<char>)>, order: Seq<int>)
    requires
        is_resolution(ps, order),
    ensures
        !has_cycle(ps),
{
    if has_cycle(ps) {
        let s = choose|s: Set<int>| self_dependent(ps, s);
        let x = choose|x: int| s.contains(x);
        assert(0 <= x < ps.len());
        assert(order.contains(x));
        let px = choose|p: int| 0 <= p < order.len() && order[p] == x;
        assert(s.contains(order[px]));
        let k = first_member_position(order, s, order.len() as int);
        let v = order[k];
        assert(s.contains(v));
        let d = choose|d: int| s.contains(d) && depends(ps, v, d);
        assert(0 <= d < ps.len());
        assert(ready(ps, order.take(k), v));
        assert(order.take(k).contains(d));
        let p = choose|p: int| 0 <= p < k && order.take(k)[p] == d;
        assert(order[p] == d);
        assert(!s.contains(order[p]));
    }
}

/// The smallest position below `m` whose entry belongs to `s`.
proof fn first_member_position(order: Seq<int>, s: Set<int>, m: int) -> (k: int)
    requires
        0 <= m <= order.len(),
        exists|p: int| 0 <= p < m && s.contains(order[p]),
    ensures
        0 <= k < m,
        s.contains(order[k]),
        forall|p: int| 0 <= p < k ==> !s.contains(order[p]),
    decreases m,
{
    if exists|p: int| 0 <= p < m - 1 && s.contains(order[p]) {
        first_member_position(order, s, m - 1)
    } else {
        m - 1
    }
}

/// The evaluation order of the parameters by Kahn's algorithm; the ready
/// parameter with the smallest declaration index goes first. `None` when the
/// dependencies run in a cycle.
pub fn topological_sort(params: &[(Vec<char>, Vec<char>)]) -> (r: Option<Vec<usize>>)
    ensures
        r is Some <==> !has_cycle(pairs_view(params@)),
        r matches Some(order) ==> is_resolution(
            pairs_view(params@),
            order@.map_values(|x: usize| x as int),
        ),
{
    let ghost ps = pairs_view(params@);
    let n = params.len();
    let deps = dependency_matrix(params);
    let mut placed: Vec<bool> = Vec::new();
    let mut in_degree: Vec<usize> = Vec::new();
    let mut i: usize = 0;
    while i < n
        invariant
            n == params@.len(),
            i <= n,
            placed@.len() == i,
            forall|a: int| 0 <= a < i ==> !placed@[a],
        decreases n - i,
    {
        placed.push(false);
        i += 1;
    }
    i = 0;
    while i < n
        invariant
            n == params@.len(),
            ps == pairs_view(params@),
            ps.len() == n,
            dependency_rows(ps, deps@),
            placed@.len() == n,
            forall|a: int| 0 <= a < n ==> !placed@[a],
            i <= n,
            in_degree@.len() == i,
            forall|a: int|
                0 <= a < i ==> in_degree@[a] as int == unmet(deps@[a]@, placed@, n as int),
        decreases n - i,
    {
        let mut count: usize = 0;
        let mut j: usize = 0;
        while j < n
            invariant
                n == params@.len(),
                ps.len() == n,
                dependency_rows(ps, deps@),
                placed@.len() == n,
                i < n,
                j <= n,
                count as int == unmet(deps@[i as int]@, placed@, j as int),
            decreases n - j,
        {
            proof {
                lemma_unmet_bound(deps@[i as int]@, placed@, j as int);
            }
            if deps[i][j] && !placed[j] {
                count += 1;
            }
            j += 1;
        }
        in_degree.push(count);
        i += 1;
    }
    let mut order: Vec<usize> = Vec::new();
    let ghost mut ord: Seq<int> = Seq::empty();
        proof {
        lemma_unmet_all(every(n as nat), placed@, n as int);
    }
    while order.len() < n
        invariant
            n == params@.len(),
            ps == pairs_view(params@),
            ps.len() == n,
            dependency_rows(ps, deps@),
            placed@.len() == n,
            in_degree@.len() == n,
            order@.len() <= n,
            unmet(every(n as nat), placed@, n as int) == n - order@.len(),
            ord == order@.map_values(|x: usize| x as int),
            forall|a: int|
                0 <= a < n ==> in_degree@[a] as int == unmet(deps@[a]@, placed@, n as int),
            forall|a: int| 0 <= a < n ==> (placed@[a] <==> ord.contains(a)),
            forall|k: int|
                0 <= k < ord.len() ==> {
                    &&& 0 <= #[trigger] ord[k] < n
                    &&& !ord.take(k).contains(ord[k])
                    &&& ready(ps, ord.take(k), ord[k])
                    &&& forall|j: int|
                        0 <= j < ord[k] && !ord.take(k).contains(j) ==> !ready(
                            ps,
                            ord.take(k),
                            j,
                        )
                },
        decreases n - order@.len(),
    {
        // readiness of an unplaced parameter is a zero in-degree
        assert forall|a: int| 0 <= a < n implies (in_degree@[a] == 0 <==> ready(ps, ord, a)) by {
            lemma_unmet_zero(deps@[a]@, placed@, n as int);
            if in_degree@[a] == 0 {
                assert forall|d: int| 0 <= d < ps.len() && #[trigger] depends(ps, a, d) implies ord.contains(d) by {
                    assert(deps@[a]@[d]);
                }
            } else {
                let d = choose|d: int| 0 <= d < n && !(deps@[a]@[d] ==> placed@[d]);
                assert(depends(ps, a, d));
            }
        }
        let mut v: usize = 0;
        while v < n && (placed[v] || in_degree[v] != 0)
            invariant
                n == params@.len(),
                placed@.len() == n,
                in_degree@.len() == n,
                v <= n,
                forall|a: int| 0 <= a < v ==> placed@[a] || in_degree@[a] != 0,
            decreases n - v,
        {
            v += 1;
        }
        if v == n {
            proof {
                lemma_unmet_zero(every(n as nat), placed@, n as int);
                lemma_stuck_is_cycle(ps, placed@, ord);
            }
            return None;
        }
        proof {
            let k = ord.len() as int;
            let new_ord = ord.push(v as int);
            assert(new_ord.take(k) =~= ord);
            assert(forall|q: int| 0 <= q < k ==> new_ord.take(q) =~= ord.take(q));
        }
        let ghost old_placed = placed@;
        let ghost old_ord = ord;
        proof {
            lemma_unmet_place(every(n as nat), placed@, v as int, n as int);
            assert(every(n as nat)[v as int]);
        }
        placed.set(v, true);
        order.push(v);
        proof {
            ord = ord.push(v as int);
            assert(ord =~= order@.map_values(|x: usize| x as int));
        }
        let mut i: usize = 0;
        while i < n
            invariant
                n == params@.len(),
                ps.len() == n,
                dependency_rows(ps, deps@),
                v < n,
                placed@.len() == n,
                old_placed.len() == n,
                !old_placed[v as int],
                placed@ == old_placed.update(v as int, true),
                unmet(every(n as nat), placed@, n as int) == n - order@.len(),
                    in_degree@.len() == n,
                i <= n,
                forall|a: int|
                    0 <= a < i ==> in_degree@[a] as int == unmet(deps@[a]@, placed@, n as int),
                forall|a: int|
                    i <= a < n ==> in_degree@[a] as int == unmet(deps@[a]@, old_placed, n as int),
            decreases n - i,
        {
            proof {
                lemma_unmet_place(deps@[i as int]@, old_placed, v as int, n as int);
            }
            if deps[i][v] {
                let d = in_degree[i] - 1;
                in_degree.set(i, d);
            }
            i += 1;
        }
        assert forall|a: int| 0 <= a < n implies (placed@[a] <==> ord.contains(a)) by {
            if a == v {
                assert(ord[ord.len() - 1] == a);
            } else {
                assert(old_placed[a] <==> old_ord.contains(a));
                if old_ord.contains(a) {
                    let p = choose|p: int| 0 <= p < old_ord.len() && old_ord[p] == a;
                    assert(ord[p] == a);
                }
                if ord.contains(a) {
                    let p = choose|p: int| 0 <= p < ord.len() && ord[p] == a;
                    assert(old_ord[p] == a);
                }
            }
        }
    }
    proof {
        assert(ord.len() == n);
        lemma_unmet_zero(every(n as nat), placed@, n as int);
        assert forall|j: int| 0 <= j < ps.len() implies ord.contains(j) by {
            assert(every(n as nat)[j]);
        }
        assert(is_resolution(ps, ord));
        lemma_resolution_acyclic(ps, ord);
    }
    Some(order)
}

/// The evaluation order of an acyclic parameter set.
pub open spec fn resolution(ps: Seq<(Seq<char>, Seq<char>)>) -> Seq<int> {
    choose|o: Seq<int>| is_resolution(ps, o)
}

proof fn lemma_prefix_agree(
    ps: Seq<(Seq<char>, Seq<char>)>,
    o1: Seq<int>,
    o2: Seq<int>,
    k: int,
)
    requires
        is_resolution(ps, o1),
        is_resolution(ps, o2),
        0 <= k <= ps.len(),
    ensures
        o1.take(k) == o2.take(k),
    decreases k,
{
    if k > 0 {
        lemma_prefix_agree(ps, o1, o2, k - 1);
        let pre = o1.take(k - 1);
        assert(o2.take(k - 1) == pre);
        let a = o1[k - 1];
        let b = o2[k - 1];
        if a < b {
            assert(!ready(ps, o2.take(k - 1), a));
        } else if b < a {
            assert(!ready(ps, o1.take(k - 1), b));
        }
        assert(o1.take(k) =~= pre.push(a));
        assert(o2.take(k) =~= pre.push(b));
    }
}

/// There is at most one resolution: each step's choice is forced.
pub proof fn lemma_resolution_unique(ps: Seq<(Seq<char>, Seq<char>)>, o1: Seq<int>, o2: Seq<int>)
    requires
        is_resolution(ps, o1),
        is_resolution(ps, o2),
    ensures
        o1 == o2,
{
    lemma_prefix_agree(ps, o1, o2, ps.len() as int);
    assert(o1.take(ps.len() as int) =~= o1);
    assert(o2.take(ps.len() as int) =~= o2);
}

/// Two parameters that refer to each other are a self-dependent set.
pub proof fn lemma_two_cycle(ps: Seq<(Seq<char>, Seq<char>)>, a: int, b: int)
    requires
        0 <= a < ps.len(),
        0 <= b < ps.len(),
        depends(ps, a, b),
        depends(ps, b, a),
    ensures
        has_cycle(ps),
{
    let s = Set::new(|j: int| j == a || j == b);
    assert(s.contains(a));
    assert forall|j: int| #[trigger] s.contains(j) implies 0 <= j < ps.len() && exists|d: int|
        s.contains(d) && depends(ps, j, d) by {
        if j == a {
            assert(s.contains(b));
        } else {
            assert(s.contains(a));
        }
    }
    assert(self_dependent(ps, s));
}

} // verus!
