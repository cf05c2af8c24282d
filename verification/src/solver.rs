//! Exhaustive search for the assignments that satisfy a set of equations.
//!
//! The search assigns the variables in the order of the list it is given,
//! `false` before `true`, and gives up a branch as soon as an equation is
//! refuted. What it finds is stated against [`vectors_where`], the plain
//! enumeration of all bit vectors in that order.

use crate::equation::{all_assigned, lemma_xor_of_single, xor_of};
use crate::expr::{Equation, EquationView, Expression, ExpressionView, Value};
use std::collections::HashMap;
use vstd::prelude::*;
use vstd::seq_lib::{
    group_to_multiset_ensures, to_multiset_contains, to_multiset_insert, to_multiset_remove,
};
use vstd::set_lib::{lemma_len_subset, lemma_subset_equality};
use vstd::string::StringExecFns;

verus! {

/// The models of a list of equations.
pub open spec fn views(s: Seq<Equation>) -> Seq<EquationView> {
    s.map_values(|e: Equation| e@)
}

/// The bit vectors of a list of vectors.
pub open spec fn bit_vectors(s: Seq<Vec<bool>>) -> Seq<Seq<bool>> {
    s.map_values(|v: Vec<bool>| v@)
}

/// The text for a bit vector: `'1'` for `true` and `'0'` for `false`.
pub open spec fn bitstring(bits: Seq<bool>) -> Seq<char> {
    bits.map_values(|b: bool| if b { '1' } else { '0' })
}

/// All bit vectors of length `n` that start with `prefix` and meet `pred`,
/// in lexicographic order with `false` before `true`.
pub open spec fn vectors_where(n: nat, pred: spec_fn(Seq<bool>) -> bool, prefix: Seq<bool>) -> Seq<
    Seq<bool>,
>
    decreases n - prefix.len(),
{
    if prefix.len() >= n {
        if pred(prefix) {
            seq![prefix]
        } else {
            Seq::empty()
        }
    } else {
        vectors_where(n, pred, prefix.push(false)) + vectors_where(n, pred, prefix.push(true))
    }
}

/// The assignment that gives the `i`-th variable of `vars` the `i`-th bit.
pub open spec fn assignment(vars: Seq<i32>, bits: Seq<bool>) -> Map<i32, bool> {
    Map::new(|v: i32| vars.contains(v), |v: i32| bits[vars.index_of(v)])
}

/// Whether the total assignment `bits` extends `partial` and refutes none of
/// `equations`.
pub open spec fn completes(
    partial: Map<i32, bool>,
    vars: Seq<i32>,
    equations: Seq<EquationView>,
    bits: Seq<bool>,
) -> bool {
    let a = assignment(vars, bits);
    partial.submap_of(a) && forall|j: int|
        0 <= j < equations.len() ==> (#[trigger] equations[j]).not_violated_by(a)
}

/// The total assignments of `vars` that extend `partial` and refute none of
/// `equations`, in lexicographic order.
pub open spec fn completions(
    partial: Map<i32, bool>,
    vars: Seq<i32>,
    equations: Seq<EquationView>,
) -> Seq<Seq<bool>> {
    vectors_where(
        vars.len(),
        |bits: Seq<bool>| completes(partial, vars, equations, bits),
        Seq::empty(),
    )
}

/// The total assignments of `vars` under which every equation of
/// `constants` and of `equations` holds, in lexicographic order.
pub open spec fn all_solutions(
    vars: Seq<i32>,
    constants: Seq<EquationView>,
    equations: Seq<EquationView>,
) -> Seq<Seq<bool>> {
    completions(Map::empty(), vars, constants + equations)
}

/// What [`vectors_where`] holds: the vectors of length `n` that start with
/// `prefix` and meet `pred`.
pub proof fn lemma_vectors_where_contains(
    n: nat,
    pred: spec_fn(Seq<bool>) -> bool,
    prefix: Seq<bool>,
    b: Seq<bool>,
)
    requires
        prefix.len() <= n,
    ensures
        vectors_where(n, pred, prefix).contains(b) <==> (b.len() == n && prefix.is_prefix_of(b)
            && pred(b)),
    decreases n - prefix.len(),
{
    let r = vectors_where(n, pred, prefix);
    if prefix.len() >= n {
        if b.len() == n && prefix.is_prefix_of(b) {
            assert(b =~= prefix);
        }
        if pred(prefix) {
            assert(r[0] == prefix);
        }
    } else {
        let lo = vectors_where(n, pred, prefix.push(false));
        let hi = vectors_where(n, pred, prefix.push(true));
        lemma_vectors_where_contains(n, pred, prefix.push(false), b);
        lemma_vectors_where_contains(n, pred, prefix.push(true), b);
        if r.contains(b) {
            let k = choose|k: int| 0 <= k < r.len() && r[k] == b;
            if k < lo.len() {
                assert(lo[k] == b);
            } else {
                assert(hi[k - lo.len()] == b);
            }
        }
        if lo.contains(b) {
            let k = choose|k: int| 0 <= k < lo.len() && lo[k] == b;
            assert(r[k] == b);
        }
        if hi.contains(b) {
            let k = choose|k: int| 0 <= k < hi.len() && hi[k] == b;
            assert(r[lo.len() + k] == b);
        }
        if b.len() == n && prefix.is_prefix_of(b) {
            let c = b[prefix.len() as int];
            assert(prefix.push(c).is_prefix_of(b)) by {
                assert(prefix.push(c) =~= b.subrange(0, prefix.len() as int + 1));
            }
        }
        if prefix.push(false).is_prefix_of(b) || prefix.push(true).is_prefix_of(b) {
            assert(prefix =~= b.subrange(0, prefix.len() as int)) by {
                assert(b.subrange(0, prefix.len() as int + 1).subrange(0, prefix.len() as int)
                    =~= b.subrange(0, prefix.len() as int));
                assert(prefix.push(false).subrange(0, prefix.len() as int) =~= prefix);
                assert(prefix.push(true).subrange(0, prefix.len() as int) =~= prefix);
            }
        }
    }
}

/// Where no vector that starts with `prefix` meets `pred`, there is nothing
/// to enumerate.
pub proof fn lemma_vectors_where_empty(n: nat, pred: spec_fn(Seq<bool>) -> bool, prefix: Seq<bool>)
    requires
        prefix.len() <= n,
        forall|b: Seq<bool>| b.len() == n && prefix.is_prefix_of(b) ==> !#[trigger] pred(b),
    ensures
        vectors_where(n, pred, prefix) == Seq::<Seq<bool>>::empty(),
{
    let r = vectors_where(n, pred, prefix);
    if r.len() > 0 {
        assert(r.contains(r[0]));
        lemma_vectors_where_contains(n, pred, prefix, r[0]);
    }
    assert(r =~= Seq::<Seq<bool>>::empty());
}

/// Two conditions that agree on every vector that starts with `prefix` give
/// the same enumeration.
pub proof fn lemma_vectors_where_same(
    n: nat,
    one: spec_fn(Seq<bool>) -> bool,
    other: spec_fn(Seq<bool>) -> bool,
    prefix: Seq<bool>,
)
    requires
        prefix.len() <= n,
        forall|b: Seq<bool>|
            b.len() == n && prefix.is_prefix_of(b) ==> #[trigger] one(b) == #[trigger] other(b),
    ensures
        vectors_where(n, one, prefix) == vectors_where(n, other, prefix),
    decreases n - prefix.len(),
{
    if prefix.len() >= n {
        assert(prefix.is_prefix_of(prefix));
    } else {
        assert forall|c: bool, b: Seq<bool>|
            b.len() == n && prefix.push(c).is_prefix_of(b) implies #[trigger] prefix.push(
            c,
        ).is_prefix_of(b) && prefix.is_prefix_of(b) by {
            assert(b.subrange(0, prefix.len() as int + 1).subrange(0, prefix.len() as int)
                =~= b.subrange(0, prefix.len() as int));
            assert(prefix.push(c).subrange(0, prefix.len() as int) =~= prefix);
        }
        assert(prefix.push(false).is_prefix_of(prefix.push(false)));
        lemma_vectors_where_same(n, one, other, prefix.push(false));
        lemma_vectors_where_same(n, one, other, prefix.push(true));
    }
}

/// Where every vector that meets `pred` starts with `q`, the enumeration may
/// start at `q`.
pub proof fn lemma_vectors_where_descend(n: nat, pred: spec_fn(Seq<bool>) -> bool, q: Seq<bool>)
    requires
        q.len() <= n,
        forall|b: Seq<bool>| b.len() == n && #[trigger] pred(b) ==> q.is_prefix_of(b),
    ensures
        vectors_where(n, pred, Seq::empty()) == vectors_where(n, pred, q),
    decreases q.len(),
{
    if q.len() == 0 {
        assert(q =~= Seq::<bool>::empty());
    } else {
        let short = q.drop_last();
        let other = short.push(!q.last());
        assert(q =~= short.push(q.last()));
        assert forall|b: Seq<bool>| b.len() == n && #[trigger] pred(b) implies short.is_prefix_of(
            b,
        ) by {
            assert(q.is_prefix_of(b));
            assert(b.subrange(0, q.len() as int).subrange(0, short.len() as int) =~= b.subrange(
                0,
                short.len() as int,
            ));
        }
        lemma_vectors_where_descend(n, pred, short);
        assert forall|b: Seq<bool>| b.len() == n && other.is_prefix_of(b) implies !#[trigger] pred(
            b,
        ) by {
            if pred(b) {
                assert(q.is_prefix_of(b));
                assert(b.subrange(0, q.len() as int)[short.len() as int] == q.last());
                assert(b.subrange(0, other.len() as int)[short.len() as int] == !q.last());
            }
        }
        lemma_vectors_where_empty(n, pred, other);
        assert(vectors_where(n, pred, short) =~= vectors_where(n, pred, q));
    }
}

/// In an assignment of distinct variables each variable has its own bit.
pub proof fn lemma_assignment(vars: Seq<i32>, bits: Seq<bool>)
    requires
        vars.no_duplicates(),
        bits.len() == vars.len(),
    ensures
        forall|i: int|
            0 <= i < vars.len() ==> assignment(vars, bits).contains_key(#[trigger] vars[i])
                && assignment(vars, bits)[vars[i]] == bits[i],
        forall|v: i32| assignment(vars, bits).contains_key(v) <==> vars.contains(v),
{
    assert forall|i: int| 0 <= i < vars.len() implies assignment(vars, bits).contains_key(
        #[trigger] vars[i],
    ) && assignment(vars, bits)[vars[i]] == bits[i] by {
        let k = vars.index_of(vars[i]);
        assert(0 <= k < vars.len() && vars[k] == vars[i]);
    }
}

/// The value of a list of terms does not change where an assignment that
/// covers its variables grows.
pub proof fn lemma_xor_of_submap(t: Seq<Value>, m: Map<i32, bool>, a: Map<i32, bool>)
    requires
        all_assigned(t, m),
        m.submap_of(a),
    ensures
        all_assigned(t, a),
        xor_of(t, m) == xor_of(t, a),
    decreases t.len(),
{
    assert forall|i: int| 0 <= i < t.len() implies (#[trigger] t[i] matches Value::Var(v)
        ==> a.contains_key(v)) by {
        if let Value::Var(v) = t[i] {
            assert(m.dom().contains(v));
        }
    }
    if t.len() > 0 {
        assert forall|i: int| 0 <= i < t.drop_last().len() implies (
        #[trigger] t.drop_last()[i] matches Value::Var(v) ==> m.contains_key(v)) by {
            assert(t.drop_last()[i] == t[i]);
        }
        lemma_xor_of_submap(t.drop_last(), m, a);
        if let Value::Var(v) = t.last() {
            assert(t[t.len() - 1] == t.last());
            assert(m.dom().contains(v));
        }
    }
}

/// An equation that a partial assignment refutes stays refuted under every
/// assignment that extends it.
pub proof fn lemma_violation_persists(eq: EquationView, m: Map<i32, bool>, a: Map<i32, bool>)
    requires
        m.submap_of(a),
        !eq.not_violated_by(m),
    ensures
        !eq.not_violated_by(a),
{
    lemma_xor_of_submap(eq.left.terms(), m, a);
    lemma_xor_of_submap(eq.right.terms(), m, a);
}

/// What a smaller assignment holds, a larger one holds too.
pub proof fn lemma_submap_at(m: Map<i32, bool>, a: Map<i32, bool>, k: i32)
    requires
        m.submap_of(a),
        m.dom().contains(k),
    ensures
        a.dom().contains(k),
        m[k] == a[k],
{
    assert(a.dom().contains(k));
}

/// A partial assignment that refutes an equation has no completion.
pub proof fn lemma_refuted(
    partial: Map<i32, bool>,
    vars: Seq<i32>,
    equations: Seq<EquationView>,
    j: int,
)
    requires
        0 <= j < equations.len(),
        !equations[j].not_violated_by(partial),
    ensures
        completions(partial, vars, equations) == Seq::<Seq<bool>>::empty(),
{
    let pred = |bits: Seq<bool>| completes(partial, vars, equations, bits);
    assert forall|b: Seq<bool>|
        b.len() == vars.len() && Seq::<bool>::empty().is_prefix_of(b) implies !#[trigger] pred(
        b,
    ) by {
        if partial.submap_of(assignment(vars, b)) {
            lemma_violation_persists(equations[j], partial, assignment(vars, b));
        }
    }
    lemma_vectors_where_empty(vars.len(), pred, Seq::empty());
}

/// A total assignment that refutes no equation is its own and only
/// completion.
pub proof fn lemma_total(
    partial: Map<i32, bool>,
    vars: Seq<i32>,
    equations: Seq<EquationView>,
    bits: Seq<bool>,
)
    requires
        vars.no_duplicates(),
        bits.len() == vars.len(),
        forall|i: int|
            0 <= i < vars.len() ==> partial.contains_key(#[trigger] vars[i]) && partial[vars[i]]
                == bits[i],
        forall|v: i32| partial.contains_key(v) ==> vars.contains(v),
        forall|j: int| 0 <= j < equations.len() ==> (#[trigger] equations[j]).not_violated_by(partial),
    ensures
        completions(partial, vars, equations) == seq![bits],
{
    let n = vars.len();
    let pred = |b: Seq<bool>| completes(partial, vars, equations, b);
    lemma_assignment(vars, bits);
    assert(assignment(vars, bits) =~= partial) by {
        assert forall|v: i32| partial.contains_key(v) implies #[trigger] assignment(vars, bits)[v]
            == partial[v] by {
            assert(vars.contains(v));
            let i = choose|i: int| 0 <= i < vars.len() && vars[i] == v;
            assert(assignment(vars, bits)[vars[i]] == bits[i]);
        }
    }
    assert(pred(bits));
    assert forall|b: Seq<bool>| b.len() == n && #[trigger] pred(b) implies bits.is_prefix_of(b) by {
        lemma_assignment(vars, b);
        assert forall|i: int| 0 <= i < n implies b[i] == bits[i] by {
            assert(partial.dom().contains(vars[i]));
            assert(assignment(vars, b)[vars[i]] == b[i]);
        }
        assert(bits =~= b.subrange(0, bits.len() as int));
    }
    lemma_vectors_where_descend(n, pred, bits);
}

/// The completions of a partial assignment that covers the first `j`
/// variables and not the next one are those with `false` for that variable,
/// followed by those with `true` for it.
pub proof fn lemma_branch(
    partial: Map<i32, bool>,
    vars: Seq<i32>,
    equations: Seq<EquationView>,
    j: int,
)
    requires
        vars.no_duplicates(),
        0 <= j < vars.len(),
        forall|i: int| 0 <= i < j ==> partial.contains_key(#[trigger] vars[i]),
        !partial.contains_key(vars[j]),
    ensures
        completions(partial, vars, equations) == completions(
            partial.insert(vars[j], false),
            vars,
            equations,
        ) + completions(partial.insert(vars[j], true), vars, equations),
{
    let n = vars.len();
    let pred = |b: Seq<bool>| completes(partial, vars, equations, b);
    let q = Seq::new(j as nat, |i: int| partial[vars[i]]);
    assert forall|b: Seq<bool>| b.len() == n && #[trigger] pred(b) implies q.is_prefix_of(b) by {
        lemma_assignment(vars, b);
        assert forall|i: int| 0 <= i < j implies b[i] == q[i] by {
            assert(partial.dom().contains(vars[i]));
            assert(assignment(vars, b)[vars[i]] == b[i]);
        }
        assert(q =~= b.subrange(0, q.len() as int));
    }
    lemma_vectors_where_descend(n, pred, q);
    lemma_branch_side(partial, vars, equations, j, false);
    lemma_branch_side(partial, vars, equations, j, true);
}

/// One side of [`lemma_branch`]: the completions that give the next variable
/// the value `c`.
pub proof fn lemma_branch_side(
    partial: Map<i32, bool>,
    vars: Seq<i32>,
    equations: Seq<EquationView>,
    j: int,
    c: bool,
)
    requires
        vars.no_duplicates(),
        0 <= j < vars.len(),
        forall|i: int| 0 <= i < j ==> partial.contains_key(#[trigger] vars[i]),
        !partial.contains_key(vars[j]),
    ensures
        completions(partial.insert(vars[j], c), vars, equations) == vectors_where(
            vars.len(),
            |b: Seq<bool>| completes(partial, vars, equations, b),
            Seq::new(j as nat, |i: int| partial[vars[i]]).push(c),
        ),
{
    let n = vars.len();
    let next = partial.insert(vars[j], c);
    let pred = |b: Seq<bool>| completes(partial, vars, equations, b);
    let pred_next = |b: Seq<bool>| completes(next, vars, equations, b);
    let q = Seq::new(j as nat, |i: int| partial[vars[i]]);
    let qc = q.push(c);
    assert forall|b: Seq<bool>| b.len() == n && #[trigger] pred_next(b) implies qc.is_prefix_of(
        b,
    ) by {
        lemma_assignment(vars, b);
        assert forall|i: int| 0 <= i <= j implies b[i] == qc[i] by {
            assert(next.dom().contains(vars[i]));
            assert(assignment(vars, b)[vars[i]] == b[i]);
        }
        assert(qc =~= b.subrange(0, qc.len() as int));
    }
    lemma_vectors_where_descend(n, pred_next, qc);
    assert forall|b: Seq<bool>| b.len() == n && qc.is_prefix_of(b) implies #[trigger] pred(b)
        == #[trigger] pred_next(b) by {
        lemma_assignment(vars, b);
        let a = assignment(vars, b);
        assert(b.subrange(0, qc.len() as int)[j] == c);
        assert(a[vars[j]] == b[j]);
        assert(b[j] == c);
        assert(a.dom().contains(vars[j]));
        if partial.submap_of(a) {
            assert forall|k: i32| #[trigger] next.dom().contains(k) implies a.dom().contains(k) && next[k]
                == a[k] by {
                if k != vars[j] {
                    lemma_submap_at(partial, a, k);
                }
            }
            assert(next.submap_of(a));
        }
        if next.submap_of(a) {
            assert forall|k: i32| #[trigger] partial.dom().contains(k) implies a.dom().contains(k)
                && partial[k] == a[k] by {
                lemma_submap_at(next, a, k);
            }
            assert(partial.submap_of(a));
        }
    }
    lemma_vectors_where_same(n, pred_next, pred, qc);
}

/// Under an assignment that knows its variable, a constant equation holds
/// exactly if the variable has the value on the right side.
pub proof fn lemma_constant_holds(c: EquationView, a: Map<i32, bool>)
    requires
        c.is_constant(),
        a.contains_key(c.left_variable()),
    ensures
        c.not_violated_by(a) <==> a[c.left_variable()] == (c.right == ExpressionView::Val(
            Value::True,
        )),
{
    lemma_xor_of_single(Value::Var(c.left_variable()), a);
    lemma_xor_of_single(Value::True, a);
    lemma_xor_of_single(Value::False, a);
}

/// Two constant equations that give one variable different values leave no
/// solution.
pub proof fn lemma_contradiction(
    vars: Seq<i32>,
    constants: Seq<EquationView>,
    equations: Seq<EquationView>,
    k: int,
    i: int,
)
    requires
        vars.no_duplicates(),
        0 <= k < constants.len(),
        0 <= i < constants.len(),
        constants[k].is_constant(),
        constants[i].is_constant(),
        constants[k].left_variable() == constants[i].left_variable(),
        vars.contains(constants[k].left_variable()),
        constants[k].right != constants[i].right,
    ensures
        all_solutions(vars, constants, equations) == Seq::<Seq<bool>>::empty(),
{
    let all = constants + equations;
    let pred = |bits: Seq<bool>| completes(Map::empty(), vars, all, bits);
    assert forall|b: Seq<bool>|
        b.len() == vars.len() && Seq::<bool>::empty().is_prefix_of(b) implies !#[trigger] pred(
        b,
    ) by {
        let a = assignment(vars, b);
        lemma_assignment(vars, b);
        lemma_constant_holds(constants[k], a);
        lemma_constant_holds(constants[i], a);
        assert(all[k] == constants[k]);
        assert(all[i] == constants[i]);
    }
    lemma_vectors_where_empty(vars.len(), pred, Seq::empty());
}

/// The completions of the assignment that the constant equations force are
/// the solutions of the whole system, whatever the order of the other
/// equations.
pub proof fn lemma_seeded(
    seed: Map<i32, bool>,
    vars: Seq<i32>,
    constants: Seq<EquationView>,
    equations: Seq<EquationView>,
    reordered: Seq<EquationView>,
)
    requires
        vars.no_duplicates(),
        forall|i: int|
            0 <= i < constants.len() ==> {
                let c = #[trigger] constants[i];
                &&& c.is_constant()
                &&& vars.contains(c.left_variable())
                &&& seed.contains_key(c.left_variable())
                &&& seed[c.left_variable()] == (c.right == ExpressionView::Val(Value::True))
            },
        forall|v: i32| #[trigger]
            seed.contains_key(v) ==> exists|i: int|
                0 <= i < constants.len() && (#[trigger] constants[i]).left_variable() == v,
        forall|e: EquationView| reordered.contains(e) <==> equations.contains(e),
    ensures
        completions(seed, vars, reordered) == all_solutions(vars, constants, equations),
{
    let all = constants + equations;
    let one = |bits: Seq<bool>| completes(seed, vars, reordered, bits);
    let other = |bits: Seq<bool>| completes(Map::empty(), vars, all, bits);
    assert forall|b: Seq<bool>|
        b.len() == vars.len() && Seq::<bool>::empty().is_prefix_of(b) implies #[trigger] one(b)
        == #[trigger] other(b) by {
        let a = assignment(vars, b);
        lemma_assignment(vars, b);
        if one(b) {
            assert forall|j: int| 0 <= j < all.len() implies (#[trigger] all[j]).not_violated_by(
                a,
            ) by {
                if j < constants.len() {
                    let c = constants[j];
                    lemma_submap_at(seed, a, c.left_variable());
                    lemma_constant_holds(c, a);
                } else {
                    let e = equations[j - constants.len()];
                    assert(equations.contains(e));
                    assert(reordered.contains(e));
                    let k = choose|k: int| 0 <= k < reordered.len() && reordered[k] == e;
                    assert(reordered[k].not_violated_by(a));
                }
            }
            assert(Map::<i32, bool>::empty().submap_of(a));
        }
        if other(b) {
            assert forall|v: i32| #[trigger] seed.dom().contains(v) implies a.dom().contains(v)
                && seed[v] == a[v] by {
                assert(seed.contains_key(v));
                let i = choose|i: int|
                    0 <= i < constants.len() && (#[trigger] constants[i]).left_variable() == v;
                let c = constants[i];
                assert(all[i] == c);
                assert(all[i].not_violated_by(a));
                lemma_constant_holds(c, a);
            }
            assert(seed.submap_of(a));
            assert forall|j: int| 0 <= j < reordered.len() implies (
            #[trigger] reordered[j]).not_violated_by(a) by {
                let e = reordered[j];
                assert(reordered.contains(e));
                assert(equations.contains(e));
                let k = choose|k: int| 0 <= k < equations.len() && equations[k] == e;
                assert(all[constants.len() + k] == e);
            }
        }
    }
    lemma_vectors_where_same(vars.len(), one, other, Seq::empty());
}

/// Number of terms of a right side that is a combination, and 0 for a
/// single term: the cost by which the search orders its checks.
pub open spec fn check_cost(eq: EquationView) -> nat {
    match eq.right {
        ExpressionView::Xor(values) => values.len(),
        ExpressionView::Val(_) => 0,
    }
}

fn cost_of(eq: &Equation) -> (r: usize)
    ensures
        r == check_cost(eq@),
{
    match &eq.right {
        Expression::Xor(values) => values.len(),
        Expression::Val(_) => 0,
    }
}

/// Orders the equations by rising [`check_cost`]; which equations there are
/// does not change.
fn sort_by_cost(equations: &mut Vec<Equation>)
    ensures
        views(final(equations)@).to_multiset() == views(old(equations)@).to_multiset(),
        forall|i: int, j: int|
            0 <= i < j < final(equations).len() ==> check_cost(final(equations)@[i]@) <= check_cost(
                final(equations)@[j]@,
            ),
{
    broadcast use group_to_multiset_ensures;

    let mut i: usize = 1;
    while i < equations.len()
        invariant
            views(equations@).to_multiset() == views(old(equations)@).to_multiset(),
            forall|a: int, b: int|
                0 <= a < b < i && b < equations.len() ==> check_cost(equations@[a]@) <= check_cost(
                    equations@[b]@,
                ),
        decreases equations.len() - i,
    {
        let key = cost_of(&equations[i]);
        let mut p: usize = i;
        while p > 0 && cost_of(&equations[p - 1]) > key
            invariant
                p <= i < equations.len(),
                key == check_cost(equations@[i as int]@),
                forall|a: int| p <= a < i ==> check_cost(equations@[a]@) > key,
            decreases p,
        {
            p -= 1;
        }
        let ghost before = equations@;
        let e = equations.remove(i);
        let ghost middle = equations@;
        equations.insert(p, e);
        proof {
            let vb = views(before);
            let vm = views(middle);
            assert(vm =~= vb.remove(i as int));
            assert(views(equations@) =~= vm.insert(p as int, e@));
            assert(vb[i as int] == e@);
            to_multiset_remove(vb, i as int);
            to_multiset_insert(vm, p as int, e@);
            to_multiset_contains(vb, e@);
            assert(vb.to_multiset().remove(e@).insert(e@) =~= vb.to_multiset());
            assert forall|a: int, b: int|
                0 <= a < b < i + 1 && b < equations.len() implies check_cost(equations@[a]@)
                <= check_cost(equations@[b]@) by {
                let a0 = if a < p { a } else { a - 1 };
                let b0 = if b < p { b } else { b - 1 };
                if a != p {
                    assert(equations@[a] == before[a0]);
                }
                if b != p {
                    assert(equations@[b] == before[b0]);
                }
            }
        }
        i += 1;
    }
}

/// One step of the search: the partial assignment `variables` is dropped
/// where it refutes an equation, recorded where it is total, and otherwise
/// tried with `false` and then with `true` for the first variable of
/// `all_vars` that has no value yet. The total assignments that extend
/// `variables` and refute no equation come to stand at the end of
/// `solutions`, in lexicographic order.
pub fn solve_recursion(
    variables: HashMap<i32, bool>,
    all_vars: &Vec<i32>,
    solutions: &mut Vec<Vec<bool>>,
    extracted_equations: &Vec<Equation>,
)
    requires
        all_vars@.no_duplicates(),
        forall|v: i32| variables@.contains_key(v) ==> all_vars@.contains(v),
    ensures
        bit_vectors(final(solutions)@) == bit_vectors(old(solutions)@) + completions(
            variables@,
            all_vars@,
            views(extracted_equations@),
        ),
    decreases all_vars.len() - variables@.len(),
{
    let ghost eqs = views(extracted_equations@);
    let ghost mut refuted: int = 0;
    let mut valid = true;
    let mut i: usize = 0;
    while i < extracted_equations.len()
        invariant
            i <= extracted_equations.len(),
            eqs == views(extracted_equations@),
            valid ==> forall|j: int| 0 <= j < i ==> (#[trigger] eqs[j]).not_violated_by(variables@),
            !valid ==> 0 <= refuted < i && !eqs[refuted].not_violated_by(variables@),
        decreases extracted_equations.len() - i,
    {
        if !extracted_equations[i].check_equation_validity(&variables) {
            valid = false;
            proof {
                refuted = i as int;
            }
        }
        i += 1;
    }

    proof {
        all_vars@.unique_seq_to_set();
        assert(variables@.dom().subset_of(all_vars@.to_set()));
        lemma_len_subset(variables@.dom(), all_vars@.to_set());
    }

    if valid && variables.len() == all_vars.len() {
        proof {
            lemma_subset_equality(variables@.dom(), all_vars@.to_set());
        }
        let mut solution: Vec<bool> = Vec::new();
        let mut k: usize = 0;
        while k < all_vars.len()
            invariant
                k <= all_vars.len(),
                solution.len() == k,
                variables@.dom() == all_vars@.to_set(),
                forall|a: int| 0 <= a < k ==> solution@[a] == variables@[#[trigger] all_vars@[a]],
            decreases all_vars.len() - k,
        {
            assert(all_vars@.to_set().contains(all_vars@[k as int]));
            let bit = *variables.get(&all_vars[k]).unwrap();
            solution.push(bit);
            k += 1;
        }
        proof {
            assert forall|a: int| 0 <= a < all_vars.len() implies variables@.contains_key(
                #[trigger] all_vars@[a],
            ) by {
                assert(all_vars@.to_set().contains(all_vars@[a]));
            }
            lemma_total(variables@, all_vars@, eqs, solution@);
        }
        let ghost before = solutions@;
        solutions.push(solution);
        proof {
            assert(bit_vectors(solutions@) =~= bit_vectors(before) + seq![solution@]);
        }
        return ;
    }
    if variables.len() == all_vars.len() || !valid {
        proof {
            lemma_refuted(variables@, all_vars@, eqs, refuted);
            assert(bit_vectors(solutions@) =~= bit_vectors(solutions@) + Seq::<Seq<bool>>::empty());
        }
        return ;
    }
    let mut j: usize = 0;
    while j < all_vars.len() && variables.contains_key(&all_vars[j])
        invariant
            j <= all_vars.len(),
            forall|a: int| 0 <= a < j ==> variables@.contains_key(#[trigger] all_vars@[a]),
        decreases all_vars.len() - j,
    {
        j += 1;
    }
    proof {
        if j == all_vars.len() {
            assert forall|v: i32| all_vars@.to_set().contains(v) implies variables@.dom().contains(
                v,
            ) by {
                let a = choose|a: int| 0 <= a < all_vars@.len() && all_vars@[a] == v;
                assert(variables@.contains_key(all_vars@[a]));
            }
            assert(all_vars@.to_set().subset_of(variables@.dom()));
            lemma_len_subset(all_vars@.to_set(), variables@.dom());
            assert(false);
        }
    }
    let current_var = all_vars[j];

    let mut f = variables.clone();
    let mut t = variables.clone();
    f.insert(current_var, false);
    t.insert(current_var, true);
    proof {
        lemma_branch(variables@, all_vars@, eqs, j as int);
        assert(f@.dom() =~= variables@.dom().insert(current_var));
        assert(t@.dom() =~= variables@.dom().insert(current_var));
    }
    let ghost before = bit_vectors(solutions@);
    solve_recursion(f, all_vars, solutions, extracted_equations);  // the new variable with 0
    solve_recursion(t, all_vars, solutions, extracted_equations);  // the new variable with 1
    proof {
        assert(bit_vectors(solutions@) =~= before + completions(variables@, all_vars@, eqs));
    }
}

/// Finds the assignments of `variables` under which every equation holds.
///
/// The constant equations seed the search; two of them that give one
/// variable different values end it at once. The answer is the number of
/// solutions and the first of them in lexicographic order, written as one
/// `'0'` or `'1'` for each variable, or an error where there is none.
pub fn solve(
    variables: Vec<i32>,
    extracted_constants: Vec<Equation>,
    extracted_equations: Vec<Equation>,
) -> (r: Result<(usize, String), ()>)
    requires
        variables@.no_duplicates(),
        forall|i: int|
            0 <= i < extracted_constants.len() ==> (#[trigger] extracted_constants@[i])@.is_constant()
                && variables@.contains(extracted_constants@[i]@.left_variable()),
    ensures
        match r {
            Ok((count, example)) => {
                let found = all_solutions(
                    variables@,
                    views(extracted_constants@),
                    views(extracted_equations@),
                );
                &&& found.len() > 0
                &&& count == found.len()
                &&& example@ == bitstring(found[0])
            },
            Err(_) => all_solutions(
                variables@,
                views(extracted_constants@),
                views(extracted_equations@),
            ).len() == 0,
        },
{
    broadcast use group_to_multiset_ensures;

    let ghost constants = views(extracted_constants@);
    let ghost equations = views(extracted_equations@);
    let mut vars: HashMap<i32, bool> = HashMap::new();
    let mut solutions: Vec<Vec<bool>> = Vec::new();

    let mut i: usize = 0;
    while i < extracted_constants.len()
        invariant
            i <= extracted_constants.len(),
            variables@.no_duplicates(),
            constants == views(extracted_constants@),
            equations == views(extracted_equations@),
            forall|k: int|
                0 <= k < extracted_constants.len() ==> (#[trigger] constants[k]).is_constant()
                    && variables@.contains(constants[k].left_variable()),
            forall|k: int|
                0 <= k < i ==> vars@.contains_key((#[trigger] constants[k]).left_variable())
                    && vars@[constants[k].left_variable()] == (constants[k].right
                    == ExpressionView::Val(Value::True)),
            forall|v: i32| #[trigger]
                vars@.contains_key(v) ==> exists|k: int|
                    0 <= k < i && (#[trigger] constants[k]).left_variable() == v,
        decreases extracted_constants.len() - i,
    {
        let const_ = &extracted_constants[i];
        assert(constants[i as int] == const_@);
        let left = match &const_.left {
            Expression::Val(Value::Var(left)) => *left,
            _ => {
                proof {
                    assert(false);
                }
                0
            },
        };
        let value = match &const_.right {
            Expression::Val(Value::True) => true,
            Expression::Val(Value::False) => false,
            _ => {
                proof {
                    assert(false);
                }
                false
            },
        };
        match vars.get(&left) {
            Some(v) => {
                if *v != value {
                    proof {
                        let k = choose|k: int|
                            0 <= k < i && (#[trigger] constants[k]).left_variable() == left;
                        lemma_contradiction(variables@, constants, equations, k, i as int);
                    }
                    return Err(());
                }
            },
            None => {
                let ghost before = vars@;
                vars.insert(left, value);
                proof {
                    assert forall|v: i32| #[trigger] vars@.contains_key(v) implies exists|k: int|
                        0 <= k < i + 1 && (#[trigger] constants[k]).left_variable() == v by {
                        if v == left {
                            assert(constants[i as int].left_variable() == v);
                        } else {
                            assert(before.contains_key(v));
                            let k = choose|k: int|
                                0 <= k < i && (#[trigger] constants[k]).left_variable() == v;
                            assert(constants[k].left_variable() == v);
                        }
                    }
                }
            },
        }
        i += 1;
    }

    let mut sorted = extracted_equations;
    sort_by_cost(&mut sorted);
    proof {
        assert forall|e: EquationView| views(sorted@).contains(e) <==> equations.contains(e) by {
            assert(views(sorted@).to_multiset().count(e) == equations.to_multiset().count(e));
        }
        lemma_seeded(vars@, variables@, constants, equations, views(sorted@));
        assert forall|v: i32| vars@.contains_key(v) implies variables@.contains(v) by {
            let k = choose|k: int|
                0 <= k < constants.len() && (#[trigger] constants[k]).left_variable() == v;
            assert(variables@.contains(constants[k].left_variable()));
        }
    }

    solve_recursion(vars, &variables, &mut solutions, &sorted);

    proof {
        assert(bit_vectors(solutions@) =~= all_solutions(variables@, constants, equations));
    }
    let solutions_length = solutions.len();
    if solutions_length == 0 {
        return Err(());
    }
    assert(bit_vectors(solutions@)[0] == solutions@[0]@);
    Ok((solutions_length, bool_vec_to_string(&solutions[0])))
}

/// The text of a bit vector: `'1'` for `true` and `'0'` for `false`.
pub fn bool_vec_to_string(bool_vec: &Vec<bool>) -> (result: String)
    ensures
        result@ == bitstring(bool_vec@),
{
    let mut result = String::new();
    let mut i: usize = 0;
    while i < bool_vec.len()
        invariant
            i <= bool_vec.len(),
            result@ == bitstring(bool_vec@.take(i as int)),
        decreases bool_vec.len() - i,
    {
        proof {
            reveal_strlit("1");
            reveal_strlit("0");
        }
        if bool_vec[i] {
            result.append("1");
        } else {
            result.append("0");
        }
        proof {
            assert(result@ =~= bitstring(bool_vec@.take(i + 1)));
        }
        i += 1;
    }
    proof {
        assert(bool_vec@.take(bool_vec.len() as int) =~= bool_vec@);
    }
    result
}

} // verus!
