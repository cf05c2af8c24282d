//! What holds of the elimination pass and of the search as a whole.

use crate::equation::{
    as_terms, ascending, canonical, constant_of, lemma_canonical, lemma_odd_variables,
    lemma_position, lemma_single_term, lemma_xor_of_single, occurrences,
    odd_variables, position, repeated, substituted, toggled, value_of, variables, without, xor_of,
};
use crate::expr::{EquationView, ExpressionView, Value};
use crate::equation::{all_assigned, lemma_without_contains};
use crate::extract::{
    constants_of, derivations, derived, first_usable, known_after, lemma_filtered,
    lemma_first_usable, lemma_first_usable_is, lemma_rising_unique, lemma_sorted_set, partial_of,
    rising, sorted_set, usable, Known,
};
use crate::solver::{
    all_solutions, assignment, completes, lemma_assignment, lemma_vectors_where_contains,
    lemma_vectors_where_same,
};
use vstd::prelude::*;

verus! {

/// Whether the equation is in the form that the elimination pass gives: a
/// variable alone on the left, and a right side that solving for that
/// variable leaves as it is.
pub open spec fn reduced(e: EquationView) -> bool {
    &&& e.left matches ExpressionView::Val(Value::Var(v))
    &&& e.evaluated(v, -1i32, Seq::empty()) == Some(e)
}

/// Whether every equation of `s` is [`reduced`].
pub open spec fn all_reduced(s: Seq<EquationView>) -> bool {
    forall|k: int| 0 <= k < s.len() ==> reduced(#[trigger] s[k])
}

/// Two rising lists of numbers with the same members are the same list.
pub proof fn lemma_ascending_unique(a: Seq<i32>, b: Seq<i32>)
    requires
        ascending(a),
        ascending(b),
        forall|x: i32| a.contains(x) <==> b.contains(x),
    ensures
        a == b,
    decreases a.len(),
{
    if a.len() == 0 {
        if b.len() > 0 {
            assert(b.contains(b[0]));
        }
        assert(a =~= b);
    } else if b.len() == 0 {
        assert(a.contains(a[0]));
    } else {
        assert(a.contains(a[0]));
        assert(b.contains(b[0]));
        let i = choose|i: int| 0 <= i < b.len() && b[i] == a[0];
        let j = choose|j: int| 0 <= j < a.len() && a[j] == b[0];
        if i > 0 {
            assert(b[0] < b[i]);
        }
        if j > 0 {
            assert(a[0] < a[j]);
        }
        assert(a[0] == b[0]);
        let ra = a.skip(1);
        let rb = b.skip(1);
        assert forall|x: i32| ra.contains(x) <==> rb.contains(x) by {
            if ra.contains(x) {
                let k = choose|k: int| 0 <= k < ra.len() && ra[k] == x;
                assert(a[k + 1] == x);
                assert(a[0] < a[k + 1]);
                assert(a.contains(x));
                let m = choose|m: int| 0 <= m < b.len() && b[m] == x;
                assert(rb[m - 1] == x);
            }
            if rb.contains(x) {
                let k = choose|k: int| 0 <= k < rb.len() && rb[k] == x;
                assert(b[k + 1] == x);
                assert(b[0] < b[k + 1]);
                assert(b.contains(x));
                let m = choose|m: int| 0 <= m < a.len() && a[m] == x;
                assert(ra[m - 1] == x);
            }
        }
        assert forall|i: int, j: int| 0 <= i < j < ra.len() implies ra[i] < ra[j] by {
            assert(a[i + 1] < a[j + 1]);
        }
        assert forall|i: int, j: int| 0 <= i < j < rb.len() implies rb[i] < rb[j] by {
            assert(b[i + 1] < b[j + 1]);
        }
        lemma_ascending_unique(ra, rb);
        assert(a =~= seq![a[0]] + ra);
        assert(b =~= seq![b[0]] + rb);
    }
}

/// In a constant followed by rising variables, the constant and each of the
/// variables occur once and nothing else occurs.
pub proof fn lemma_occurrences_in_normal_form(c: bool, s: Seq<i32>, x: Value)
    requires
        ascending(s),
    ensures
        occurrences(seq![Value::of_bool(c)] + as_terms(s), x) == (if x == Value::of_bool(c) {
            1nat
        } else {
            0nat
        }) + (if x matches Value::Var(w) && s.contains(w) {
            1nat
        } else {
            0nat
        }),
    decreases s.len(),
{
    let t = seq![Value::of_bool(c)] + as_terms(s);
    if s.len() == 0 {
        assert(t =~= seq![Value::of_bool(c)]);
        lemma_single_term(Value::of_bool(c));
    } else {
        let short = s.drop_last();
        lemma_occurrences_in_normal_form(c, short, x);
        assert(t.drop_last() =~= seq![Value::of_bool(c)] + as_terms(short));
        assert(t.last() == Value::Var(s.last()));
        assert(s[s.len() - 1] == s.last());
        if let Value::Var(w) = x {
            if short.contains(w) {
                let k = choose|k: int| 0 <= k < short.len() && short[k] == w;
                assert(s[k] == w);
                assert(s[k] < s[s.len() - 1]);
            }
            if s.contains(w) && w != s.last() {
                let k = choose|k: int| 0 <= k < s.len() && s[k] == w;
                assert(short[k] == w);
            }
        }
    }
}

/// The normal form of a normal form is that normal form.
pub proof fn lemma_canonical_idempotent(t: Seq<Value>)
    ensures
        canonical(canonical(t)) == canonical(t),
{
    lemma_canonical(t);
    lemma_odd_variables(t);
    let c = constant_of(t);
    let s = odd_variables(t);
    let n = canonical(t);
    lemma_occurrences_in_normal_form(c, s, Value::True);
    assert(constant_of(n) == c);
    lemma_odd_variables(n);
    assert forall|w: i32| odd_variables(n).contains(w) <==> s.contains(w) by {
        lemma_occurrences_in_normal_form(c, s, Value::Var(w));
    }
    lemma_ascending_unique(odd_variables(n), s);
}

/// A variable that stands an even number of times on the right side, twice
/// for one, is gone from the right side once the equation is solved for its
/// left side, wherever it stood.
pub proof fn lemma_pairs_cancel(e: EquationView, v: i32)
    requires
        e.left is Val,
        e.right is Xor,
        occurrences(e.right.terms(), Value::Var(v)) % 2 == 0,
    ensures
        e.solved_for_left() matches Some(solved) ==> !solved.right.terms().contains(Value::Var(v)),
{
    lemma_canonical(e.right.terms());
}

/// Taking out a term that is not in the list leaves the list.
pub proof fn lemma_without_absent(t: Seq<Value>, x: Value)
    requires
        !t.contains(x),
    ensures
        without(t, x) == t,
    decreases t.len(),
{
    if t.len() > 0 {
        assert(t[t.len() - 1] == t.last());
        assert forall|y: Value| t.drop_last().contains(y) implies t.contains(y) by {
            let k = choose|k: int| 0 <= k < t.drop_last().len() && t.drop_last()[k] == y;
            assert(t[k] == y);
        }
        lemma_without_absent(t.drop_last(), x);
        assert(without(t, x) =~= t);
    } else {
        assert(without(t, x) =~= t);
    }
}

/// What solving an equation for a variable gives is in reduced form.
pub proof fn lemma_evaluated_reduced(
    source: EquationView,
    var: i32,
    substitution_for: i32,
    substitution: Seq<Value>,
)
    ensures
        source.evaluated(var, substitution_for, substitution) matches Some(e) ==> reduced(e),
{
    if let Some(e) = source.evaluated(var, substitution_for, substitution) {
        let target = Value::Var(var);
        let vals = substituted(source.terms_besides(var), substitution_for, substitution);
        let start = EquationView {
            left: ExpressionView::Val(target),
            right: ExpressionView::of_terms(vals),
        };
        assert(start.solved_for_left() == Some(e));
        assert(e.left == ExpressionView::Val(target));
        assert(!start.right.terms().contains(target));
        lemma_single_term(target);
        assert(e.left.terms().contains(target));
        match start.right {
            ExpressionView::Val(x) => {
                assert(e.right == ExpressionView::Val(x));
                assert(x != target) by {
                    assert(start.right.terms()[0] == x);
                }
                assert(e.terms_besides(var) =~= seq![x]);
                lemma_single_term(x);
            },
            ExpressionView::Xor(t) => {
                let n = canonical(t);
                lemma_canonical(t);
                lemma_canonical_idempotent(t);
                assert(!n.contains(target)) by {
                    lemma_occurrences_zero(t, target);
                }
                if n.len() == 1 {
                    assert(e.right == ExpressionView::Val(n[0]));
                    assert(n[0] != target) by {
                        assert(n.contains(n[0]));
                    }
                    assert(e.terms_besides(var) =~= seq![n[0]]);
                    lemma_single_term(n[0]);
                } else {
                    assert(e.right == ExpressionView::Xor(n));
                    lemma_without_absent(n, target);
                    assert(e.terms_besides(var) =~= n);
                }
            },
        }
    }
}

/// A term that is not in a list occurs there no time.
pub proof fn lemma_occurrences_zero(t: Seq<Value>, x: Value)
    requires
        !t.contains(x),
    ensures
        occurrences(t, x) == 0,
    decreases t.len(),
{
    if t.len() > 0 {
        assert(t[t.len() - 1] == t.last());
        assert forall|y: Value| t.drop_last().contains(y) implies t.contains(y) by {
            let k = choose|k: int| 0 <= k < t.drop_last().len() && t.drop_last()[k] == y;
            assert(t[k] == y);
        }
        lemma_occurrences_zero(t.drop_last(), x);
    }
}

/// Every equation that the pass derives is in reduced form; those it keeps
/// as constants have two terms and the others have not.
pub proof fn lemma_known_reduced(sources: Seq<EquationView>, n: nat)
    requires
        n <= sources.len(),
    ensures
        all_reduced(known_after(sources, n).constants),
        all_reduced(known_after(sources, n).equations),
        forall|k: int|
            0 <= k < known_after(sources, n).constants.len() ==> (#[trigger] known_after(
                sources,
                n,
            ).constants[k]).members() == 2,
        forall|k: int|
            0 <= k < known_after(sources, n).equations.len() ==> (#[trigger] known_after(
                sources,
                n,
            ).equations[k]).members() != 2,
    decreases n,
{
    if n > 0 {
        lemma_known_reduced(sources, (n - 1) as nat);
        let before = known_after(sources, (n - 1) as nat);
        let source = sources[n - 1];
        let found = derivations(source, before, variables(source.left.terms()).len());
        lemma_derivations_reduced(source, before, variables(source.left.terms()).len());
        lemma_split(found);
    }
}

/// Every derivation of a source is in reduced form.
pub proof fn lemma_derivations_reduced(source: EquationView, known: Known, n: nat)
    ensures
        all_reduced(derivations(source, known, n)),
    decreases n,
{
    if n > 0 {
        lemma_derivations_reduced(source, known, (n - 1) as nat);
        let analysis = variables(source.left.terms());
        let var = analysis[n - 1];
        let c = first_usable(known.constants, analysis, var);
        let e = first_usable(known.equations, analysis, var);
        if c < known.constants.len() {
            lemma_evaluated_reduced(
                source,
                var,
                known.constants[c].left_variable(),
                known.constants[c].right.terms(),
            );
        } else if e < known.equations.len() {
            lemma_evaluated_reduced(
                source,
                var,
                known.equations[e].left_variable(),
                known.equations[e].right.terms(),
            );
        } else {
            lemma_evaluated_reduced(source, var, -1i32, Seq::empty());
        }
    }
}

/// What [`constants_of`] and [`partial_of`] make of a list: the reduced
/// form stays, the constants have two terms and the others have not, and a
/// list of one kind only is left whole on one side and empty on the other.
pub proof fn lemma_split(s: Seq<EquationView>)
    ensures
        all_reduced(s) ==> all_reduced(constants_of(s)) && all_reduced(partial_of(s)),
        forall|k: int| 0 <= k < constants_of(s).len() ==> (#[trigger] constants_of(s)[k]).members() == 2,
        forall|k: int| 0 <= k < partial_of(s).len() ==> (#[trigger] partial_of(s)[k]).members() != 2,
        (forall|k: int| 0 <= k < s.len() ==> (#[trigger] s[k]).members() == 2) ==> constants_of(s) == s
            && partial_of(s) == Seq::<EquationView>::empty(),
        (forall|k: int| 0 <= k < s.len() ==> (#[trigger] s[k]).members() != 2) ==> partial_of(s) == s
            && constants_of(s) == Seq::<EquationView>::empty(),
    decreases s.len(),
{
    if s.len() > 0 {
        let short = s.drop_last();
        lemma_split(short);
        assert(s[s.len() - 1] == s.last());
        if all_reduced(s) {
            assert forall|k: int| 0 <= k < short.len() implies reduced(#[trigger] short[k]) by {
                assert(short[k] == s[k]);
            }
        }
        if forall|k: int| 0 <= k < s.len() ==> (#[trigger] s[k]).members() == 2 {
            assert forall|k: int| 0 <= k < short.len() implies (#[trigger] short[k]).members()
                == 2 by {
                assert(short[k] == s[k]);
            }
            assert(constants_of(s) =~= s);
        }
        if forall|k: int| 0 <= k < s.len() ==> (#[trigger] s[k]).members() != 2 {
            assert forall|k: int| 0 <= k < short.len() implies (#[trigger] short[k]).members()
                != 2 by {
                assert(short[k] == s[k]);
            }
            assert(partial_of(s) =~= s);
        }
    }
}

/// Splitting two lists one after the other is splitting each.
pub proof fn lemma_split_add(a: Seq<EquationView>, b: Seq<EquationView>)
    ensures
        constants_of(a + b) == constants_of(a) + constants_of(b),
        partial_of(a + b) == partial_of(a) + partial_of(b),
    decreases b.len(),
{
    if b.len() == 0 {
        assert(a + b =~= a);
        assert(constants_of(a) + constants_of(b) =~= constants_of(a));
        assert(partial_of(a) + partial_of(b) =~= partial_of(a));
    } else {
        lemma_split_add(a, b.drop_last());
        assert((a + b).drop_last() =~= a + b.drop_last());
        assert((a + b).last() == b.last());
        assert(constants_of(a + b) =~= constants_of(a) + constants_of(b));
        assert(partial_of(a + b) =~= partial_of(a) + partial_of(b));
    }
}

/// The pass leaves equations in reduced form as they are: it sorts them
/// into those with two terms and the others.
pub proof fn lemma_known_of_reduced(s: Seq<EquationView>, n: nat)
    requires
        all_reduced(s),
        n <= s.len(),
    ensures
        known_after(s, n).constants == constants_of(s.take(n as int)),
        known_after(s, n).equations == partial_of(s.take(n as int)),
    decreases n,
{
    if n == 0 {
        assert(s.take(0) =~= Seq::<EquationView>::empty());
    } else {
        lemma_known_of_reduced(s, (n - 1) as nat);
        let before = known_after(s, (n - 1) as nat);
        let source = s[n - 1];
        assert(reduced(source));
        let v = source.left_variable();
        let analysis = variables(source.left.terms());
        assert(source.left.terms() =~= seq![Value::Var(v)]);
        assert(analysis =~= seq![v]) by {
            assert(seq![Value::Var(v)].drop_last() =~= Seq::<Value>::empty());
            assert(variables(seq![Value::Var(v)].drop_last()) =~= Seq::<i32>::empty());
        }
        // nothing known is for another variable of this equation
        assert forall|e: EquationView| !usable(e, analysis, v) by {
            if analysis.contains(e.left_variable()) {
                let k = choose|k: int| 0 <= k < analysis.len() && analysis[k] == e.left_variable();
                assert(analysis[0] == v);
            }
        }
        lemma_first_usable_is(before.constants, analysis, v, before.constants.len() as int);
        lemma_first_usable_is(before.equations, analysis, v, before.equations.len() as int);
        assert(derived(source, v, before) == Some(source));
        let found = derivations(source, before, 1);
        assert(derivations(source, before, 0) =~= Seq::<EquationView>::empty());
        assert(found =~= seq![source]);
        assert(s.take(n as int) =~= s.take(n - 1) + seq![source]);
        lemma_split_add(s.take(n - 1), seq![source]);
    }
}

/// Running the pass on its own result gives that result again: the
/// constant equations and the partial equations that the pass has derived
/// from any source equations are, taken together as new source equations,
/// a fixed point of the pass.
pub proof fn lemma_extraction_fixed_point(sources: Seq<EquationView>)
    ensures
        ({
            let first = known_after(sources, sources.len());
            let constants = sorted_set(first.constants);
            let equations = sorted_set(first.equations);
            let again = known_after(constants + equations, (constants + equations).len());
            &&& sorted_set(again.constants) == constants
            &&& sorted_set(again.equations) == equations
        }),
{
    let first = known_after(sources, sources.len());
    let constants = sorted_set(first.constants);
    let equations = sorted_set(first.equations);
    let all = constants + equations;
    lemma_known_reduced(sources, sources.len());
    lemma_sorted_set(first.constants);
    lemma_sorted_set(first.equations);
    assert forall|k: int| 0 <= k < constants.len() implies reduced(#[trigger] constants[k])
        && constants[k].members() == 2 by {
        assert(constants.contains(constants[k]));
        assert(first.constants.contains(constants[k]));
        let j = choose|j: int| 0 <= j < first.constants.len() && first.constants[j] == constants[k];
        assert(reduced(first.constants[j]));
    }
    assert forall|k: int| 0 <= k < equations.len() implies reduced(#[trigger] equations[k])
        && equations[k].members() != 2 by {
        assert(equations.contains(equations[k]));
        assert(first.equations.contains(equations[k]));
        let j = choose|j: int| 0 <= j < first.equations.len() && first.equations[j] == equations[k];
        assert(reduced(first.equations[j]));
    }
    assert(all_reduced(all));
    lemma_known_of_reduced(all, all.len());
    assert(all.take(all.len() as int) =~= all);
    lemma_split_add(constants, equations);
    lemma_split(constants);
    lemma_split(equations);
    let again = known_after(all, all.len());
    assert(again.constants =~= constants);
    assert(again.equations =~= equations);
    lemma_sorted_set(constants);
    lemma_sorted_set(equations);
    lemma_rising_unique(sorted_set(constants), constants);
    lemma_rising_unique(sorted_set(equations), equations);
}

/// The value of two lists, one after the other, is the exclusive-or of
/// their values.
pub proof fn lemma_xor_of_add(a: Seq<Value>, b: Seq<Value>, m: Map<i32, bool>)
    ensures
        xor_of(a + b, m) == (xor_of(a, m) != xor_of(b, m)),
    decreases b.len(),
{
    if b.len() == 0 {
        assert(a + b =~= a);
    } else {
        lemma_xor_of_add(a, b.drop_last(), m);
        assert((a + b).drop_last() =~= a + b.drop_last());
        assert((a + b).last() == b.last());
    }
}

/// Taking a term out of a list changes the value of the list by the value
/// of the term where the term occurred an odd number of times.
pub proof fn lemma_xor_of_without(t: Seq<Value>, x: Value, m: Map<i32, bool>)
    ensures
        xor_of(without(t, x), m) == (xor_of(t, m) != (occurrences(t, x) % 2 == 1 && value_of(x, m))),
    decreases t.len(),
{
    if t.len() > 0 {
        lemma_xor_of_without(t.drop_last(), x, m);
        if t.last() != x {
            let r = without(t.drop_last(), x).push(t.last());
            assert(r.drop_last() =~= without(t.drop_last(), x));
        }
    }
}

/// A list taken an even number of times has the value `false`, and taken
/// an odd number of times its own value.
pub proof fn lemma_xor_of_repeated(s: Seq<Value>, n: nat, m: Map<i32, bool>)
    ensures
        xor_of(repeated(s, n), m) == (n % 2 == 1 && xor_of(s, m)),
    decreases n,
{
    if n > 0 {
        lemma_xor_of_repeated(s, (n - 1) as nat, m);
        lemma_xor_of_add(repeated(s, (n - 1) as nat), s, m);
    }
}

/// Putting in for a variable terms that have the value of the variable
/// does not change the value of a list.
pub proof fn lemma_xor_of_substituted(
    t: Seq<Value>,
    substitution_for: i32,
    substitution: Seq<Value>,
    m: Map<i32, bool>,
)
    requires
        substitution_for >= 0 ==> m[substitution_for] == xor_of(substitution, m),
    ensures
        xor_of(substituted(t, substitution_for, substitution), m) == xor_of(t, m),
{
    if substitution_for >= 0 {
        let x = Value::Var(substitution_for);
        lemma_xor_of_without(t, x, m);
        lemma_xor_of_repeated(substitution, occurrences(t, x), m);
        lemma_xor_of_add(without(t, x), repeated(substitution, occurrences(t, x)), m);
    }
}

/// Toggling a variable in a list of variables changes the value of the list
/// by the value of the variable.
pub proof fn lemma_xor_of_toggled(s: Seq<i32>, v: i32, m: Map<i32, bool>)
    ensures
        xor_of(as_terms(toggled(s, v)), m) == (xor_of(as_terms(s), m) != m[v]),
{
    lemma_position(s, v);
    let p = position(s, v);
    let head = as_terms(s.subrange(0, p));
    if p < s.len() && s[p] == v {
        let tail = as_terms(s.subrange(p + 1, s.len() as int));
        assert(as_terms(s) =~= head + seq![Value::Var(v)] + tail);
        assert(as_terms(toggled(s, v)) =~= head + tail);
        lemma_xor_of_add(head, seq![Value::Var(v)], m);
        lemma_xor_of_add(head + seq![Value::Var(v)], tail, m);
        lemma_xor_of_add(head, tail, m);
        lemma_xor_of_single(Value::Var(v), m);
    } else {
        let tail = as_terms(s.subrange(p, s.len() as int));
        assert(as_terms(s) =~= head + tail);
        assert(as_terms(toggled(s, v)) =~= head + seq![Value::Var(v)] + tail);
        lemma_xor_of_add(head, seq![Value::Var(v)], m);
        lemma_xor_of_add(head + seq![Value::Var(v)], tail, m);
        lemma_xor_of_add(head, tail, m);
        lemma_xor_of_single(Value::Var(v), m);
    }
}

/// The value of a list is that of its constants together with that of the
/// variables that occur an odd number of times.
pub proof fn lemma_xor_of_parts(t: Seq<Value>, m: Map<i32, bool>)
    ensures
        xor_of(t, m) == (constant_of(t) != xor_of(as_terms(odd_variables(t)), m)),
    decreases t.len(),
{
    if t.len() == 0 {
        assert(as_terms(odd_variables(t)) =~= Seq::<Value>::empty());
    } else {
        lemma_xor_of_parts(t.drop_last(), m);
        match t.last() {
            Value::Var(v) => {
                lemma_xor_of_toggled(odd_variables(t.drop_last()), v, m);
            },
            _ => {},
        }
    }
}

/// The normal form of a list has the value of the list.
pub proof fn lemma_xor_of_canonical(t: Seq<Value>, m: Map<i32, bool>)
    ensures
        xor_of(canonical(t), m) == xor_of(t, m),
{
    lemma_xor_of_parts(t, m);
    lemma_xor_of_add(seq![Value::of_bool(constant_of(t))], as_terms(odd_variables(t)), m);
    lemma_xor_of_single(Value::of_bool(constant_of(t)), m);
}

/// A term that occurs in a list occurs there at least once, and only such
/// a term does.
pub proof fn lemma_occurrences_contains(t: Seq<Value>, x: Value)
    ensures
        t.contains(x) <==> occurrences(t, x) > 0,
    decreases t.len(),
{
    if t.len() > 0 {
        lemma_occurrences_contains(t.drop_last(), x);
        assert(t[t.len() - 1] == t.last());
        if t.drop_last().contains(x) {
            let k = choose|k: int| 0 <= k < t.drop_last().len() && t.drop_last()[k] == x;
            assert(t[k] == x);
        }
        if t.contains(x) && t.last() != x {
            let k = choose|k: int| 0 <= k < t.len() && t[k] == x;
            assert(t.drop_last()[k] == x);
        }
    }
}

/// Whether the variable `var` occurs an odd number of times in the
/// equation, both sides taken together.
pub open spec fn occurs_oddly(source: EquationView, var: i32) -> bool {
    (occurrences(source.left.terms(), Value::Var(var)) + occurrences(
        source.right.terms(),
        Value::Var(var),
    )) % 2 == 1
}

/// Solving an equation for a variable that occurs in it an odd number of
/// times gives an equation that holds under the same assignments, as long
/// as what is put in for another variable has the value of that variable.
pub proof fn lemma_evaluated_holds(
    source: EquationView,
    var: i32,
    substitution_for: i32,
    substitution: Seq<Value>,
    m: Map<i32, bool>,
)
    requires
        occurs_oddly(source, var),
        substitution_for >= 0 ==> substitution_for != var && m[substitution_for] == xor_of(
            substitution,
            m,
        ),
    ensures
        source.evaluated(var, substitution_for, substitution) matches Some(e) ==> e.holds_under(m)
            == source.holds_under(m),
{
    if let Some(e) = source.evaluated(var, substitution_for, substitution) {
        let target = Value::Var(var);
        let left = source.left.terms();
        let right = source.right.terms();
        let besides = source.terms_besides(var);
        let vals = substituted(besides, substitution_for, substitution);
        let start = EquationView {
            left: ExpressionView::Val(target),
            right: ExpressionView::of_terms(vals),
        };
        assert(start.right.terms() =~= vals) by {
            if vals.len() == 1 {
                assert(seq![vals[0]] =~= vals);
            }
        }
        assert(!vals.contains(target));
        // the variable is in none of the terms that were kept
        assert(!besides.contains(target)) by {
            if besides.contains(target) {
                if substitution_for >= 0 {
                    lemma_without_contains(
                        besides,
                        Value::Var(substitution_for),
                        target,
                    );
                    let kept = without(besides, Value::Var(substitution_for));
                    let k = choose|k: int| 0 <= k < kept.len() && kept[k] == target;
                    assert(vals[k] == target);
                }
            }
        }
        let on_left = left.contains(target);
        lemma_single_term(target);
        let left_part = match source.left {
            ExpressionView::Val(v) => if on_left {
                Seq::<Value>::empty()
            } else {
                seq![v]
            },
            ExpressionView::Xor(t) => without(t, target),
        };
        let right_part = match source.right {
            ExpressionView::Val(v) => if on_left {
                seq![v]
            } else {
                Seq::<Value>::empty()
            },
            ExpressionView::Xor(t) => without(t, target),
        };
        assert(besides == left_part + right_part);
        lemma_xor_of_add(left_part, right_part, m);
        assert(xor_of(left_part, m) == (xor_of(left, m) != (occurrences(left, target) % 2 == 1
            && m[var]))) by {
            match source.left {
                ExpressionView::Val(v) => {
                    lemma_single_term(v);
                    lemma_xor_of_single(v, m);
                    if on_left {
                        assert(left[0] == v);
                    }
                },
                ExpressionView::Xor(t) => {
                    lemma_xor_of_without(t, target, m);
                },
            }
        }
        assert(xor_of(right_part, m) == (xor_of(right, m) != (occurrences(right, target) % 2 == 1
            && m[var]))) by {
            match source.right {
                ExpressionView::Val(v) => {
                    lemma_single_term(v);
                    lemma_xor_of_single(v, m);
                    if on_left {
                        // kept, so it is not the variable
                        assert(right_part[0] == v);
                        assert(besides[left_part.len() as int] == v);
                        assert(besides.contains(v));
                    } else {
                        assert(source.side_of(var) is Some);
                        assert(right.contains(target));
                    }
                },
                ExpressionView::Xor(t) => {
                    lemma_xor_of_without(t, target, m);
                },
            }
        }
        assert(xor_of(besides, m) == ((xor_of(left, m) != xor_of(right, m)) != m[var]));
        lemma_xor_of_substituted(besides, substitution_for, substitution, m);
        lemma_xor_of_single(target, m);
        match start.right {
            ExpressionView::Val(x) => {},
            ExpressionView::Xor(t) => {
                lemma_xor_of_canonical(t, m);
                lemma_canonical(t);
            },
        }
    }
}

/// Whether each variable of the left side occurs an odd number of times in
/// the equation, so that the equation can be solved for it.
pub open spec fn well_posed(source: EquationView) -> bool {
    forall|v: i32| #[trigger] variables(source.left.terms()).contains(v) ==> occurs_oddly(source, v)
}

/// Whether every equation of `s` holds under `m`.
pub open spec fn all_hold(s: Seq<EquationView>, m: Map<i32, bool>) -> bool {
    forall|k: int| 0 <= k < s.len() ==> (#[trigger] s[k]).holds_under(m)
}

/// Whether every equation of `s` has all of its variables in `m`.
pub open spec fn all_decided(s: Seq<EquationView>, m: Map<i32, bool>) -> bool {
    forall|k: int| 0 <= k < s.len() ==> (#[trigger] s[k]).decided_by(m)
}

/// Whether the pass keeps at least one derivation of every source equation.
pub open spec fn lossless(sources: Seq<EquationView>) -> bool {
    forall|i: int|
        0 <= i < sources.len() ==> derivations(
            #[trigger] sources[i],
            known_after(sources, i as nat),
            variables(sources[i].left.terms()).len(),
        ).len() > 0
}

/// Whether everything known holds under `m`.
pub open spec fn known_holds(known: Known, m: Map<i32, bool>) -> bool {
    all_hold(known.constants, m) && all_hold(known.equations, m)
}

/// What a usable known equation gives to put in has the value of its
/// variable, where the known equation holds.
pub proof fn lemma_known_value(s: Seq<EquationView>, analysis: Seq<i32>, var: i32, m: Map<i32, bool>)
    requires
        all_reduced(s),
        all_hold(s, m),
        first_usable(s, analysis, var) < s.len(),
    ensures
        ({
            let e = s[first_usable(s, analysis, var)];
            &&& e.left_variable() != var
            &&& m[e.left_variable()] == xor_of(e.right.terms(), m)
        }),
{
    lemma_first_usable(s, analysis, var);
    let e = s[first_usable(s, analysis, var)];
    assert(reduced(e));
    assert(e.holds_under(m));
    lemma_xor_of_single(Value::Var(e.left_variable()), m);
}

/// A derivation from a well-posed source holds under the assignments under
/// which the source holds, where everything known holds.
pub proof fn lemma_derived_holds(source: EquationView, var: i32, known: Known, m: Map<i32, bool>)
    requires
        well_posed(source),
        variables(source.left.terms()).contains(var),
        all_reduced(known.constants),
        all_reduced(known.equations),
        known_holds(known, m),
    ensures
        derived(source, var, known) matches Some(e) ==> e.holds_under(m) == source.holds_under(m),
{
    let analysis = variables(source.left.terms());
    let c = first_usable(known.constants, analysis, var);
    let e = first_usable(known.equations, analysis, var);
    lemma_first_usable(known.constants, analysis, var);
    lemma_first_usable(known.equations, analysis, var);
    if c < known.constants.len() {
        lemma_known_value(known.constants, analysis, var, m);
        lemma_evaluated_holds(
            source,
            var,
            known.constants[c].left_variable(),
            known.constants[c].right.terms(),
            m,
        );
    } else if e < known.equations.len() {
        lemma_known_value(known.equations, analysis, var, m);
        lemma_evaluated_holds(
            source,
            var,
            known.equations[e].left_variable(),
            known.equations[e].right.terms(),
            m,
        );
    } else {
        lemma_evaluated_holds(source, var, -1i32, Seq::empty(), m);
    }
}

/// Each derivation of a source is what [`derived`] gives for one of the
/// left variables.
pub proof fn lemma_derivations_witness(source: EquationView, known: Known, n: nat, k: int)
    requires
        n <= variables(source.left.terms()).len(),
        0 <= k < derivations(source, known, n).len(),
    ensures
        exists|j: int|
            0 <= j < n && #[trigger] derived(source, variables(source.left.terms())[j], known)
                == Some(derivations(source, known, n)[k]),
    decreases n,
{
    let analysis = variables(source.left.terms());
    if n > 0 {
        let rest = derivations(source, known, (n - 1) as nat);
        if k < rest.len() {
            lemma_derivations_witness(source, known, (n - 1) as nat, k);
            let j = choose|j: int|
                0 <= j < n - 1 && #[trigger] derived(source, analysis[j], known) == Some(rest[k]);
            assert(derived(source, analysis[j], known) == Some(derivations(source, known, n)[k]));
        } else {
            assert(derived(source, analysis[n - 1], known) == Some(
                derivations(source, known, n)[k],
            ));
        }
    }
}

/// All derivations of a well-posed source hold where the source and
/// everything known hold.
pub proof fn lemma_derivations_hold(source: EquationView, known: Known, m: Map<i32, bool>)
    requires
        well_posed(source),
        source.holds_under(m),
        all_reduced(known.constants),
        all_reduced(known.equations),
        known_holds(known, m),
    ensures
        all_hold(derivations(source, known, variables(source.left.terms()).len()), m),
{
    let analysis = variables(source.left.terms());
    let found = derivations(source, known, analysis.len());
    assert forall|k: int| 0 <= k < found.len() implies (#[trigger] found[k]).holds_under(m) by {
        lemma_derivations_witness(source, known, analysis.len(), k);
        let j = choose|j: int|
            0 <= j < analysis.len() && #[trigger] derived(source, analysis[j], known) == Some(
                found[k],
            );
        assert(analysis.contains(analysis[j]));
        lemma_derived_holds(source, analysis[j], known, m);
    }
}

/// What holds of every equation of a list holds of what the list is split
/// into.
pub proof fn lemma_split_holds(s: Seq<EquationView>, m: Map<i32, bool>)
    ensures
        all_hold(s, m) <==> all_hold(constants_of(s), m) && all_hold(partial_of(s), m),
        all_decided(s, m) <==> all_decided(constants_of(s), m) && all_decided(partial_of(s), m),
{
    lemma_filtered(s);
    let c = constants_of(s);
    let p = partial_of(s);
    if all_hold(s, m) {
        assert forall|k: int| 0 <= k < c.len() implies (#[trigger] c[k]).holds_under(m) by {
            assert(c.contains(c[k]));
            assert(s.contains(c[k]));
            let j = choose|j: int| 0 <= j < s.len() && s[j] == c[k];
            assert(s[j].holds_under(m));
        }
        assert forall|k: int| 0 <= k < p.len() implies (#[trigger] p[k]).holds_under(m) by {
            assert(p.contains(p[k]));
            assert(s.contains(p[k]));
            let j = choose|j: int| 0 <= j < s.len() && s[j] == p[k];
            assert(s[j].holds_under(m));
        }
    }
    if all_hold(c, m) && all_hold(p, m) {
        assert forall|k: int| 0 <= k < s.len() implies (#[trigger] s[k]).holds_under(m) by {
            assert(s.contains(s[k]));
            if c.contains(s[k]) {
                let j = choose|j: int| 0 <= j < c.len() && c[j] == s[k];
                assert(c[j].holds_under(m));
            } else {
                let j = choose|j: int| 0 <= j < p.len() && p[j] == s[k];
                assert(p[j].holds_under(m));
            }
        }
    }
    if all_decided(s, m) {
        assert forall|k: int| 0 <= k < c.len() implies (#[trigger] c[k]).decided_by(m) by {
            assert(c.contains(c[k]));
            assert(s.contains(c[k]));
            let j = choose|j: int| 0 <= j < s.len() && s[j] == c[k];
            assert(s[j].decided_by(m));
        }
        assert forall|k: int| 0 <= k < p.len() implies (#[trigger] p[k]).decided_by(m) by {
            assert(p.contains(p[k]));
            assert(s.contains(p[k]));
            let j = choose|j: int| 0 <= j < s.len() && s[j] == p[k];
            assert(s[j].decided_by(m));
        }
    }
    if all_decided(c, m) && all_decided(p, m) {
        assert forall|k: int| 0 <= k < s.len() implies (#[trigger] s[k]).decided_by(m) by {
            assert(s.contains(s[k]));
            if c.contains(s[k]) {
                let j = choose|j: int| 0 <= j < c.len() && c[j] == s[k];
                assert(c[j].decided_by(m));
            } else {
                let j = choose|j: int| 0 <= j < p.len() && p[j] == s[k];
                assert(p[j].decided_by(m));
            }
        }
    }
}

/// The pass derives only what follows: under an assignment under which all
/// source equations hold, every derived equation holds.
pub proof fn lemma_extraction_sound(sources: Seq<EquationView>, n: nat, m: Map<i32, bool>)
    requires
        n <= sources.len(),
        forall|i: int| 0 <= i < sources.len() ==> well_posed(#[trigger] sources[i]),
        all_hold(sources, m),
    ensures
        known_holds(known_after(sources, n), m),
    decreases n,
{
    if n > 0 {
        lemma_extraction_sound(sources, (n - 1) as nat, m);
        lemma_known_reduced(sources, (n - 1) as nat);
        let before = known_after(sources, (n - 1) as nat);
        let source = sources[n - 1];
        let found = derivations(source, before, variables(source.left.terms()).len());
        lemma_derivations_hold(source, before, m);
        lemma_split_holds(found, m);
    }
}

/// What is known after some source equations stays known.
pub proof fn lemma_known_grows(sources: Seq<EquationView>, i: nat, n: nat)
    requires
        i <= n,
    ensures
        forall|x: EquationView|
            known_after(sources, i).constants.contains(x) ==> #[trigger] known_after(
                sources,
                n,
            ).constants.contains(x),
        forall|x: EquationView|
            known_after(sources, i).equations.contains(x) ==> #[trigger] known_after(
                sources,
                n,
            ).equations.contains(x),
    decreases n - i,
{
    if i < n {
        lemma_known_grows(sources, i, (n - 1) as nat);
        let before = known_after(sources, (n - 1) as nat);
        let after = known_after(sources, n);
        assert forall|x: EquationView| before.constants.contains(x) implies after.constants.contains(
            x,
        ) by {
            let k = choose|k: int| 0 <= k < before.constants.len() && before.constants[k] == x;
            assert(after.constants[k] == x);
        }
        assert forall|x: EquationView| before.equations.contains(x) implies after.equations.contains(
            x,
        ) by {
            let k = choose|k: int| 0 <= k < before.equations.len() && before.equations[k] == x;
            assert(after.equations[k] == x);
        }
    }
}

/// What holds of every equation of a list holds of every equation of a list
/// that it contains.
pub proof fn lemma_contained_holds(all: Seq<EquationView>, part: Seq<EquationView>, m: Map<i32, bool>)
    requires
        forall|x: EquationView| #[trigger] part.contains(x) ==> all.contains(x),
    ensures
        all_hold(all, m) ==> all_hold(part, m),
        all_decided(all, m) ==> all_decided(part, m),
{
    assert forall|k: int| 0 <= k < part.len() implies exists|j: int|
        0 <= j < all.len() && all[j] == #[trigger] part[k] by {
        assert(part.contains(part[k]));
    }
    if all_hold(all, m) {
        assert forall|k: int| 0 <= k < part.len() implies (#[trigger] part[k]).holds_under(m) by {
            let j = choose|j: int| 0 <= j < all.len() && all[j] == part[k];
            assert(all[j].holds_under(m));
        }
    }
    if all_decided(all, m) {
        assert forall|k: int| 0 <= k < part.len() implies (#[trigger] part[k]).decided_by(m) by {
            let j = choose|j: int| 0 <= j < all.len() && all[j] == part[k];
            assert(all[j].decided_by(m));
        }
    }
}

/// Where everything that the pass derives holds, what was known before the
/// source `i` holds, and so do the derivations of that source.
pub proof fn lemma_found_holds(sources: Seq<EquationView>, i: int, m: Map<i32, bool>)
    requires
        0 <= i < sources.len(),
        known_holds(known_after(sources, sources.len()), m),
    ensures
        known_holds(known_after(sources, i as nat), m),
        all_hold(
            derivations(
                sources[i],
                known_after(sources, i as nat),
                variables(sources[i].left.terms()).len(),
            ),
            m,
        ),
{
    let last = known_after(sources, sources.len());
    let before = known_after(sources, i as nat);
    let after = known_after(sources, (i + 1) as nat);
    let found = derivations(sources[i], before, variables(sources[i].left.terms()).len());
    assert(known_holds(before, m)) by {
        lemma_known_grows(sources, i as nat, sources.len());
        lemma_contained_holds(last.constants, before.constants, m);
        lemma_contained_holds(last.equations, before.equations, m);
    }
    assert(known_holds(after, m)) by {
        lemma_known_grows(sources, (i + 1) as nat, sources.len());
        lemma_contained_holds(last.constants, after.constants, m);
        lemma_contained_holds(last.equations, after.equations, m);
    }
    assert(after.constants == before.constants + constants_of(found));
    assert(after.equations == before.equations + partial_of(found));
    assert(all_hold(constants_of(found), m)) by {
        assert forall|k: int| 0 <= k < constants_of(found).len() implies (#[trigger] constants_of(
            found,
        )[k]).holds_under(m) by {
            assert(after.constants[before.constants.len() + k] == constants_of(found)[k]);
        }
    }
    assert(all_hold(partial_of(found), m)) by {
        assert forall|k: int| 0 <= k < partial_of(found).len() implies (#[trigger] partial_of(
            found,
        )[k]).holds_under(m) by {
            assert(after.equations[before.equations.len() + k] == partial_of(found)[k]);
        }
    }
    lemma_split_holds(found, m);
}

/// A well-posed source of which the pass keeps a derivation holds where
/// everything that the pass derives holds.
pub proof fn lemma_source_holds(sources: Seq<EquationView>, i: int, m: Map<i32, bool>)
    requires
        0 <= i < sources.len(),
        well_posed(sources[i]),
        derivations(
            sources[i],
            known_after(sources, i as nat),
            variables(sources[i].left.terms()).len(),
        ).len() > 0,
        known_holds(known_after(sources, sources.len()), m),
    ensures
        sources[i].holds_under(m),
{
    let source = sources[i];
    let before = known_after(sources, i as nat);
    let analysis = variables(source.left.terms());
    let found = derivations(source, before, analysis.len());
    lemma_found_holds(sources, i, m);
    lemma_known_reduced(sources, i as nat);
    assert(found[0].holds_under(m));
    lemma_derivations_witness(source, before, analysis.len(), 0);
    let j = choose|j: int|
        0 <= j < analysis.len() && #[trigger] derived(source, analysis[j], before) == Some(found[0]);
    assert(analysis.contains(analysis[j]));
    lemma_derived_holds(source, analysis[j], before, m);
}

/// Where the pass keeps a derivation of every source equation, the derived
/// equations say as much as the sources: under an assignment under which
/// all derived equations hold, every source equation holds.
pub proof fn lemma_extraction_complete(sources: Seq<EquationView>, m: Map<i32, bool>)
    requires
        forall|i: int| 0 <= i < sources.len() ==> well_posed(#[trigger] sources[i]),
        lossless(sources),
        known_holds(known_after(sources, sources.len()), m),
    ensures
        all_hold(sources, m),
{
    assert forall|i: int| 0 <= i < sources.len() implies (#[trigger] sources[i]).holds_under(m) by {
        lemma_source_holds(sources, i, m);
    }
}

/// Where the pass keeps a derivation of every source equation, its result
/// holds under exactly the assignments under which all source equations
/// hold.
pub proof fn lemma_extraction_equivalent(sources: Seq<EquationView>, m: Map<i32, bool>)
    requires
        forall|i: int| 0 <= i < sources.len() ==> well_posed(#[trigger] sources[i]),
        lossless(sources),
    ensures
        all_hold(sources, m) <==> all_hold(
            sorted_set(known_after(sources, sources.len()).constants),
            m,
        ) && all_hold(sorted_set(known_after(sources, sources.len()).equations), m),
{
    let last = known_after(sources, sources.len());
    lemma_sorted_set(last.constants);
    lemma_sorted_set(last.equations);
    if all_hold(sources, m) {
        lemma_extraction_sound(sources, sources.len(), m);
        lemma_contained_holds(last.constants, sorted_set(last.constants), m);
        lemma_contained_holds(last.equations, sorted_set(last.equations), m);
    }
    if all_hold(sorted_set(last.constants), m) && all_hold(sorted_set(last.equations), m) {
        lemma_contained_holds(sorted_set(last.constants), last.constants, m);
        lemma_contained_holds(sorted_set(last.equations), last.equations, m);
        lemma_extraction_complete(sources, m);
    }
}

/// The order of the source equations does not change what the result of
/// the pass says, as long as the pass keeps a derivation of every source
/// equation in both orders: the two results hold under the same
/// assignments.
pub proof fn lemma_order_of_sources(
    first: Seq<EquationView>,
    second: Seq<EquationView>,
    m: Map<i32, bool>,
)
    requires
        forall|x: EquationView| first.contains(x) <==> second.contains(x),
        forall|i: int| 0 <= i < first.len() ==> well_posed(#[trigger] first[i]),
        lossless(first),
        lossless(second),
    ensures
        (all_hold(sorted_set(known_after(first, first.len()).constants), m) && all_hold(
            sorted_set(known_after(first, first.len()).equations),
            m,
        )) <==> (all_hold(sorted_set(known_after(second, second.len()).constants), m) && all_hold(
            sorted_set(known_after(second, second.len()).equations),
            m,
        )),
{
    assert forall|i: int| 0 <= i < second.len() implies well_posed(#[trigger] second[i]) by {
        assert(second.contains(second[i]));
        assert(first.contains(second[i]));
        let j = choose|j: int| 0 <= j < first.len() && first[j] == second[i];
        assert(well_posed(first[j]));
    }
    lemma_extraction_equivalent(first, m);
    lemma_extraction_equivalent(second, m);
    if all_hold(first, m) {
        assert forall|x: EquationView| #[trigger] second.contains(x) implies first.contains(x) by {}
        lemma_contained_holds(first, second, m);
    }
    if all_hold(second, m) {
        assert forall|x: EquationView| #[trigger] first.contains(x) implies second.contains(x) by {}
        lemma_contained_holds(second, first, m);
    }
}

/// Taking a term out of a list brings in no variable.
pub proof fn lemma_without_assigned(t: Seq<Value>, x: Value, m: Map<i32, bool>)
    requires
        all_assigned(t, m),
    ensures
        all_assigned(without(t, x), m),
    decreases t.len(),
{
    if t.len() > 0 {
        assert forall|i: int| 0 <= i < t.drop_last().len() implies (
        #[trigger] t.drop_last()[i] matches Value::Var(v) ==> m.contains_key(v)) by {
            assert(t.drop_last()[i] == t[i]);
        }
        lemma_without_assigned(t.drop_last(), x, m);
        assert(t[t.len() - 1] == t.last());
    }
}

/// Taking a list several times brings in no variable.
pub proof fn lemma_repeated_assigned(s: Seq<Value>, n: nat, m: Map<i32, bool>)
    requires
        all_assigned(s, m),
    ensures
        all_assigned(repeated(s, n), m),
    decreases n,
{
    if n > 0 {
        lemma_repeated_assigned(s, (n - 1) as nat, m);
    }
}

/// The normal form of a list brings in no variable.
pub proof fn lemma_canonical_assigned(t: Seq<Value>, m: Map<i32, bool>)
    requires
        all_assigned(t, m),
    ensures
        all_assigned(canonical(t), m),
{
    lemma_canonical(t);
    let n = canonical(t);
    assert forall|i: int| 0 <= i < n.len() implies (#[trigger] n[i] matches Value::Var(v)
        ==> m.contains_key(v)) by {
        if let Value::Var(v) = n[i] {
            assert(n.contains(Value::Var(v)));
            lemma_occurrences_contains(t, Value::Var(v));
            let k = choose|k: int| 0 <= k < t.len() && t[k] == Value::Var(v);
            assert(t[k] matches Value::Var(w) ==> m.contains_key(w));
        }
    }
}

/// Solving an equation for a variable brings in no variable but those of
/// what is put in.
pub proof fn lemma_evaluated_decided(
    source: EquationView,
    var: i32,
    substitution_for: i32,
    substitution: Seq<Value>,
    m: Map<i32, bool>,
)
    requires
        source.decided_by(m),
        all_assigned(substitution, m),
    ensures
        source.evaluated(var, substitution_for, substitution) matches Some(e) ==> e.decided_by(m),
{
    if let Some(e) = source.evaluated(var, substitution_for, substitution) {
        let target = Value::Var(var);
        let besides = source.terms_besides(var);
        let vals = substituted(besides, substitution_for, substitution);
        // the variable itself is one of the source
        assert(m.contains_key(var)) by {
            if source.left.terms().contains(target) {
                let k = choose|k: int|
                    0 <= k < source.left.terms().len() && source.left.terms()[k] == target;
                assert(source.left.terms()[k] matches Value::Var(w) ==> m.contains_key(w));
            } else {
                let k = choose|k: int|
                    0 <= k < source.right.terms().len() && source.right.terms()[k] == target;
                assert(source.right.terms()[k] matches Value::Var(w) ==> m.contains_key(w));
            }
        }
        lemma_xor_of_single(target, m);
        assert(all_assigned(besides, m)) by {
            match source.left {
                ExpressionView::Val(v) => {
                    lemma_xor_of_single(v, m);
                },
                ExpressionView::Xor(t) => {
                    lemma_without_assigned(t, target, m);
                },
            }
            match source.right {
                ExpressionView::Val(v) => {
                    lemma_xor_of_single(v, m);
                },
                ExpressionView::Xor(t) => {
                    lemma_without_assigned(t, target, m);
                },
            }
        }
        assert(all_assigned(vals, m)) by {
            if substitution_for >= 0 {
                lemma_without_assigned(besides, Value::Var(substitution_for), m);
                lemma_repeated_assigned(
                    substitution,
                    occurrences(besides, Value::Var(substitution_for)),
                    m,
                );
            }
        }
        if vals.len() == 1 {
            assert(seq![vals[0]] =~= vals);
        } else {
            lemma_canonical_assigned(vals, m);
            lemma_canonical(vals);
        }
    }
}

/// The pass brings in no variable: where an assignment covers the
/// variables of all source equations, it covers those of every derived
/// equation.
pub proof fn lemma_known_decided(sources: Seq<EquationView>, n: nat, m: Map<i32, bool>)
    requires
        n <= sources.len(),
        all_decided(sources, m),
    ensures
        all_decided(known_after(sources, n).constants, m),
        all_decided(known_after(sources, n).equations, m),
    decreases n,
{
    if n > 0 {
        lemma_known_decided(sources, (n - 1) as nat, m);
        let before = known_after(sources, (n - 1) as nat);
        let source = sources[n - 1];
        let found = derivations(source, before, variables(source.left.terms()).len());
        lemma_derivations_decided(source, before, variables(source.left.terms()).len(), m);
        lemma_split_holds(found, m);
    }
}

/// The derivations of a source bring in no variable.
pub proof fn lemma_derivations_decided(source: EquationView, known: Known, n: nat, m: Map<i32, bool>)
    requires
        source.decided_by(m),
        all_decided(known.constants, m),
        all_decided(known.equations, m),
    ensures
        all_decided(derivations(source, known, n), m),
    decreases n,
{
    if n > 0 {
        lemma_derivations_decided(source, known, (n - 1) as nat, m);
        let analysis = variables(source.left.terms());
        let var = analysis[n - 1];
        let c = first_usable(known.constants, analysis, var);
        let e = first_usable(known.equations, analysis, var);
        lemma_first_usable(known.constants, analysis, var);
        lemma_first_usable(known.equations, analysis, var);
        if c < known.constants.len() {
            assert(known.constants[c].decided_by(m));
            lemma_evaluated_decided(
                source,
                var,
                known.constants[c].left_variable(),
                known.constants[c].right.terms(),
                m,
            );
        } else if e < known.equations.len() {
            assert(known.equations[e].decided_by(m));
            lemma_evaluated_decided(
                source,
                var,
                known.equations[e].left_variable(),
                known.equations[e].right.terms(),
                m,
            );
        } else {
            lemma_evaluated_decided(source, var, -1i32, Seq::empty(), m);
        }
    }
}

/// Whether every variable of the equation is one of `vars`.
pub open spec fn mentions_only(e: EquationView, vars: Seq<i32>) -> bool {
    &&& forall|v: i32| #[trigger] e.left.terms().contains(Value::Var(v)) ==> vars.contains(v)
    &&& forall|v: i32| #[trigger] e.right.terms().contains(Value::Var(v)) ==> vars.contains(v)
}

/// Under a total assignment, equations whose variables it covers are not
/// refuted exactly if they hold.
pub proof fn lemma_decided_holds(
    vars: Seq<i32>,
    equations: Seq<EquationView>,
    bits: Seq<bool>,
)
    requires
        all_decided(equations, assignment(vars, bits)),
    ensures
        completes(Map::empty(), vars, equations, bits) <==> all_hold(
            equations,
            assignment(vars, bits),
        ),
{
    let a = assignment(vars, bits);
    assert(Map::<i32, bool>::empty().submap_of(a));
    if completes(Map::empty(), vars, equations, bits) {
        assert forall|k: int| 0 <= k < equations.len() implies (#[trigger] equations[k]).holds_under(
            a,
        ) by {
            assert(equations[k].not_violated_by(a));
            assert(equations[k].decided_by(a));
        }
    }
    if all_hold(equations, a) {
        assert forall|k: int| 0 <= k < equations.len() implies (
        #[trigger] equations[k]).not_violated_by(a) by {
            assert(equations[k].holds_under(a));
        }
    }
}

/// What holds of each of two lists holds of the two, one after the other.
pub proof fn lemma_all_add(a: Seq<EquationView>, b: Seq<EquationView>, m: Map<i32, bool>)
    ensures
        all_hold(a + b, m) <==> all_hold(a, m) && all_hold(b, m),
        all_decided(a + b, m) <==> all_decided(a, m) && all_decided(b, m),
{
    let s = a + b;
    if all_hold(s, m) {
        assert forall|k: int| 0 <= k < a.len() implies (#[trigger] a[k]).holds_under(m) by {
            assert(s[k] == a[k]);
        }
        assert forall|k: int| 0 <= k < b.len() implies (#[trigger] b[k]).holds_under(m) by {
            assert(s[a.len() + k] == b[k]);
        }
    }
    if all_decided(s, m) {
        assert forall|k: int| 0 <= k < a.len() implies (#[trigger] a[k]).decided_by(m) by {
            assert(s[k] == a[k]);
        }
        assert forall|k: int| 0 <= k < b.len() implies (#[trigger] b[k]).decided_by(m) by {
            assert(s[a.len() + k] == b[k]);
        }
    }
}

/// The solutions that the search finds for the result of the pass do not
/// depend on the order of the source equations, as long as the pass keeps
/// a derivation of every source equation in both orders: the lists of
/// solutions, and with them their number and the first solution, are the
/// same.
pub proof fn lemma_solutions_ignore_order(
    vars: Seq<i32>,
    first: Seq<EquationView>,
    second: Seq<EquationView>,
)
    requires
        vars.no_duplicates(),
        forall|x: EquationView| first.contains(x) <==> second.contains(x),
        forall|i: int| 0 <= i < first.len() ==> well_posed(#[trigger] first[i]),
        forall|i: int| 0 <= i < first.len() ==> mentions_only(#[trigger] first[i], vars),
        lossless(first),
        lossless(second),
    ensures
        all_solutions(
            vars,
            sorted_set(known_after(first, first.len()).constants),
            sorted_set(known_after(first, first.len()).equations),
        ) == all_solutions(
            vars,
            sorted_set(known_after(second, second.len()).constants),
            sorted_set(known_after(second, second.len()).equations),
        ),
{
    let first_known = known_after(first, first.len());
    let second_known = known_after(second, second.len());
    let first_result = sorted_set(first_known.constants) + sorted_set(first_known.equations);
    let second_result = sorted_set(second_known.constants) + sorted_set(second_known.equations);
    let one = |bits: Seq<bool>| completes(Map::empty(), vars, first_result, bits);
    let other = |bits: Seq<bool>| completes(Map::empty(), vars, second_result, bits);
    assert forall|i: int| 0 <= i < second.len() implies mentions_only(
        #[trigger] second[i],
        vars,
    ) by {
        assert(second.contains(second[i]));
        assert(first.contains(second[i]));
        let j = choose|j: int| 0 <= j < first.len() && first[j] == second[i];
        assert(mentions_only(first[j], vars));
    }
    assert forall|b: Seq<bool>|
        b.len() == vars.len() && Seq::<bool>::empty().is_prefix_of(b) implies #[trigger] one(b)
        == #[trigger] other(b) by {
        let a = assignment(vars, b);
        lemma_assignment(vars, b);
        lemma_mentioned_decided(vars, first, b);
        lemma_mentioned_decided(vars, second, b);
        lemma_result_decided(first, a);
        lemma_result_decided(second, a);
        lemma_all_add(sorted_set(first_known.constants), sorted_set(first_known.equations), a);
        lemma_all_add(sorted_set(second_known.constants), sorted_set(second_known.equations), a);
        lemma_decided_holds(vars, first_result, b);
        lemma_decided_holds(vars, second_result, b);
        lemma_order_of_sources(first, second, a);
    }
    lemma_vectors_where_same(vars.len(), one, other, Seq::empty());
}

/// A total assignment of `vars` covers the variables of equations that
/// mention only `vars`.
pub proof fn lemma_mentioned_decided(vars: Seq<i32>, s: Seq<EquationView>, bits: Seq<bool>)
    requires
        vars.no_duplicates(),
        bits.len() == vars.len(),
        forall|i: int| 0 <= i < s.len() ==> mentions_only(#[trigger] s[i], vars),
    ensures
        all_decided(s, assignment(vars, bits)),
{
    let a = assignment(vars, bits);
    lemma_assignment(vars, bits);
    assert forall|k: int| 0 <= k < s.len() implies (#[trigger] s[k]).decided_by(a) by {
        let e = s[k];
        assert(mentions_only(e, vars));
        assert forall|i: int| 0 <= i < e.left.terms().len() implies (
        #[trigger] e.left.terms()[i] matches Value::Var(v) ==> a.contains_key(v)) by {
            if let Value::Var(v) = e.left.terms()[i] {
                assert(e.left.terms().contains(Value::Var(v)));
            }
        }
        assert forall|i: int| 0 <= i < e.right.terms().len() implies (
        #[trigger] e.right.terms()[i] matches Value::Var(v) ==> a.contains_key(v)) by {
            if let Value::Var(v) = e.right.terms()[i] {
                assert(e.right.terms().contains(Value::Var(v)));
            }
        }
    }
}

/// An assignment that covers the variables of the sources covers those of
/// the result of the pass.
pub proof fn lemma_result_decided(sources: Seq<EquationView>, m: Map<i32, bool>)
    requires
        all_decided(sources, m),
    ensures
        all_decided(sorted_set(known_after(sources, sources.len()).constants), m),
        all_decided(sorted_set(known_after(sources, sources.len()).equations), m),
{
    let last = known_after(sources, sources.len());
    lemma_known_decided(sources, sources.len(), m);
    lemma_sorted_set(last.constants);
    lemma_sorted_set(last.equations);
    lemma_contained_holds(last.constants, sorted_set(last.constants), m);
    lemma_contained_holds(last.equations, sorted_set(last.equations), m);
}

/// Whether the total assignment `bits` of `vars` is among the solutions
/// that the search finds for the result of the pass on `sources`.
pub open spec fn found_for(vars: Seq<i32>, sources: Seq<EquationView>, bits: Seq<bool>) -> bool {
    all_solutions(
        vars,
        sorted_set(known_after(sources, sources.len()).constants),
        sorted_set(known_after(sources, sources.len()).equations),
    ).contains(bits)
}

/// What the search finds for the result of the pass: the total assignments
/// under which every derived equation holds.
pub proof fn lemma_found(vars: Seq<i32>, sources: Seq<EquationView>, bits: Seq<bool>)
    requires
        vars.no_duplicates(),
        forall|i: int| 0 <= i < sources.len() ==> mentions_only(#[trigger] sources[i], vars),
    ensures
        found_for(vars, sources, bits) <==> bits.len() == vars.len() && all_hold(
            sorted_set(known_after(sources, sources.len()).constants),
            assignment(vars, bits),
        ) && all_hold(
            sorted_set(known_after(sources, sources.len()).equations),
            assignment(vars, bits),
        ),
{
    let known = known_after(sources, sources.len());
    let result = sorted_set(known.constants) + sorted_set(known.equations);
    let pred = |b: Seq<bool>| completes(Map::empty(), vars, result, b);
    lemma_vectors_where_contains(vars.len(), pred, Seq::empty(), bits);
    if bits.len() == vars.len() {
        let a = assignment(vars, bits);
        lemma_mentioned_decided(vars, sources, bits);
        lemma_result_decided(sources, a);
        lemma_all_add(sorted_set(known.constants), sorted_set(known.equations), a);
        lemma_decided_holds(vars, result, bits);
        assert(Seq::<bool>::empty().is_prefix_of(bits));
    }
}

/// The pass and the search lose no solution: a total assignment under which
/// every source equation holds is among the solutions that are found.
pub proof fn lemma_no_solution_lost(vars: Seq<i32>, sources: Seq<EquationView>, bits: Seq<bool>)
    requires
        vars.no_duplicates(),
        bits.len() == vars.len(),
        forall|i: int| 0 <= i < sources.len() ==> well_posed(#[trigger] sources[i]),
        forall|i: int| 0 <= i < sources.len() ==> mentions_only(#[trigger] sources[i], vars),
        all_hold(sources, assignment(vars, bits)),
    ensures
        found_for(vars, sources, bits),
{
    let known = known_after(sources, sources.len());
    let a = assignment(vars, bits);
    lemma_found(vars, sources, bits);
    lemma_extraction_sound(sources, sources.len(), a);
    lemma_sorted_set(known.constants);
    lemma_sorted_set(known.equations);
    lemma_contained_holds(known.constants, sorted_set(known.constants), a);
    lemma_contained_holds(known.equations, sorted_set(known.equations), a);
}

/// Where the pass keeps a derivation of every source equation, the
/// solutions that are found are exactly the total assignments under which
/// every source equation holds.
pub proof fn lemma_solutions_exact(vars: Seq<i32>, sources: Seq<EquationView>, bits: Seq<bool>)
    requires
        vars.no_duplicates(),
        forall|i: int| 0 <= i < sources.len() ==> well_posed(#[trigger] sources[i]),
        forall|i: int| 0 <= i < sources.len() ==> mentions_only(#[trigger] sources[i], vars),
        lossless(sources),
    ensures
        found_for(vars, sources, bits) <==> bits.len() == vars.len() && all_hold(
            sources,
            assignment(vars, bits),
        ),
{
    lemma_found(vars, sources, bits);
    lemma_extraction_equivalent(sources, assignment(vars, bits));
}

} // verus!
