//! Operations on a single equation: locating and isolating a variable,
//! substituting a known expression, collapsing a right side to its normal
//! form, and checking the equation against a partial assignment.

use crate::expr::{Equation, EquationView, Expression, ExpressionView, Value};
use std::collections::HashMap;
use vstd::prelude::*;

verus! {

/// How often the term `x` occurs in `t`.
pub open spec fn occurrences(t: Seq<Value>, x: Value) -> nat
    decreases t.len(),
{
    if t.len() == 0 {
        0
    } else {
        occurrences(t.drop_last(), x) + if t.last() == x {
            1nat
        } else {
            0nat
        }
    }
}

/// The terms of `t` other than `x`, in their order.
pub open spec fn without(t: Seq<Value>, x: Value) -> Seq<Value>
    decreases t.len(),
{
    if t.len() == 0 {
        Seq::empty()
    } else if t.last() == x {
        without(t.drop_last(), x)
    } else {
        without(t.drop_last(), x).push(t.last())
    }
}

/// `n` copies of `s`, one after the other.
pub open spec fn repeated(s: Seq<Value>, n: nat) -> Seq<Value>
    decreases n,
{
    if n == 0 {
        Seq::empty()
    } else {
        repeated(s, (n - 1) as nat) + s
    }
}

/// The numbers of the variables among `t`, in their order.
pub open spec fn variables(t: Seq<Value>) -> Seq<i32>
    decreases t.len(),
{
    if t.len() == 0 {
        Seq::empty()
    } else {
        match t.last() {
            Value::Var(v) => variables(t.drop_last()).push(v),
            _ => variables(t.drop_last()),
        }
    }
}

/// Whether every variable among `t` has a value in `assignment`.
pub open spec fn all_assigned(t: Seq<Value>, assignment: Map<i32, bool>) -> bool {
    forall|i: int| 0 <= i < t.len() ==> (#[trigger] t[i] matches Value::Var(v) ==> assignment.contains_key(v))
}

/// The value of one term under `assignment`.
pub open spec fn value_of(x: Value, assignment: Map<i32, bool>) -> bool {
    match x {
        Value::True => true,
        Value::False => false,
        Value::Var(v) => assignment[v],
    }
}

/// The exclusive-or of the terms of `t` under `assignment`.
pub open spec fn xor_of(t: Seq<Value>, assignment: Map<i32, bool>) -> bool
    decreases t.len(),
{
    if t.len() == 0 {
        false
    } else {
        xor_of(t.drop_last(), assignment) != value_of(t.last(), assignment)
    }
}

/// Whether the numbers of `s` rise strictly.
pub open spec fn ascending(s: Seq<i32>) -> bool {
    forall|i: int, j: int| 0 <= i < j < s.len() ==> s[i] < s[j]
}

/// The index of the first number of `s` that is not below `v`, or the length
/// of `s` where all are below.
pub open spec fn position(s: Seq<i32>, v: i32) -> int
    decreases s.len(),
{
    if s.len() == 0 || s[0] >= v {
        0
    } else {
        1 + position(s.skip(1), v)
    }
}

/// The rising list `s` with `v` taken out where it was in it, and put in at
/// its place where it was not.
pub open spec fn toggled(s: Seq<i32>, v: i32) -> Seq<i32> {
    let p = position(s, v);
    if p < s.len() && s[p] == v {
        s.remove(p)
    } else {
        s.insert(p, v)
    }
}

/// The variables that occur an odd number of times among `t`, rising.
pub open spec fn odd_variables(t: Seq<Value>) -> Seq<i32>
    decreases t.len(),
{
    if t.len() == 0 {
        Seq::empty()
    } else {
        match t.last() {
            Value::Var(v) => toggled(odd_variables(t.drop_last()), v),
            _ => odd_variables(t.drop_last()),
        }
    }
}

/// The variables `s` as terms.
pub open spec fn as_terms(s: Seq<i32>) -> Seq<Value> {
    s.map_values(|v: i32| Value::Var(v))
}

/// Whether `True` occurs an odd number of times among `t`: the value of the
/// constants of `t` taken together.
pub open spec fn constant_of(t: Seq<Value>) -> bool {
    occurrences(t, Value::True) % 2 == 1
}

/// The normal form of the terms `t`: the one constant that their constants
/// come to, then each variable that occurs an odd number of times, once and
/// in rising order.
pub open spec fn canonical(t: Seq<Value>) -> Seq<Value> {
    seq![Value::of_bool(constant_of(t))] + as_terms(odd_variables(t))
}

/// The terms `t` in which each occurrence of the variable `substitution_for`
/// has given way to the terms `substitution`, which stand at the end. A
/// negative `substitution_for` leaves `t` as it is.
pub open spec fn substituted(t: Seq<Value>, substitution_for: i32, substitution: Seq<Value>) -> Seq<
    Value,
> {
    if substitution_for >= 0 {
        without(t, Value::Var(substitution_for)) + repeated(
            substitution,
            occurrences(t, Value::Var(substitution_for)),
        )
    } else {
        t
    }
}

/// What [`position`] returns lies in the list, everything before it is below
/// `v` and what stands there is not.
pub proof fn lemma_position(s: Seq<i32>, v: i32)
    ensures
        0 <= position(s, v) <= s.len(),
        forall|j: int| 0 <= j < position(s, v) ==> s[j] < v,
        position(s, v) < s.len() ==> s[position(s, v)] >= v,
    decreases s.len(),
{
    if s.len() == 0 || s[0] >= v {
    } else {
        lemma_position(s.skip(1), v);
        assert forall|j: int| 0 <= j < position(s, v) implies s[j] < v by {
            if j > 0 {
                assert(s.skip(1)[j - 1] == s[j]);
            }
        }
    }
}

/// Taking one number out of a rising list leaves a rising list with the
/// other numbers.
pub proof fn lemma_remove_ascending(s: Seq<i32>, p: int)
    requires
        ascending(s),
        0 <= p < s.len(),
    ensures
        ascending(s.remove(p)),
        forall|w: i32| s.remove(p).contains(w) <==> (s.contains(w) && w != s[p]),
{
    let r = s.remove(p);
    assert(r.len() == s.len() - 1);
    assert forall|k: int| 0 <= k < r.len() implies #[trigger] r[k] == (if k < p {
        s[k]
    } else {
        s[k + 1]
    }) by {}
    assert forall|i: int, j: int| 0 <= i < j < r.len() implies r[i] < r[j] by {
        let i2 = if i < p { i } else { i + 1 };
        let j2 = if j < p { j } else { j + 1 };
        assert(s[i2] < s[j2]);
    }
    assert forall|w: i32| r.contains(w) <==> (s.contains(w) && w != s[p]) by {
        if r.contains(w) {
            let k = choose|k: int| 0 <= k < r.len() && r[k] == w;
            let k2 = if k < p { k } else { k + 1 };
            assert(s[k2] == w);
            if k2 < p {
                assert(s[k2] < s[p]);
            } else {
                assert(s[p] < s[k2]);
            }
        }
        if s.contains(w) && w != s[p] {
            let k = choose|k: int| 0 <= k < s.len() && s[k] == w;
            let k2 = if k < p { k } else { k - 1 };
            assert(r[k2] == w);
        }
    }
}

/// Putting a number into a rising list at its place leaves a rising list
/// with that number more.
pub proof fn lemma_insert_ascending(s: Seq<i32>, p: int, v: i32)
    requires
        ascending(s),
        0 <= p <= s.len(),
        forall|j: int| 0 <= j < p ==> s[j] < v,
        p < s.len() ==> s[p] > v,
    ensures
        ascending(s.insert(p, v)),
        forall|w: i32| s.insert(p, v).contains(w) <==> (s.contains(w) || w == v),
{
    let r = s.insert(p, v);
    assert(r.len() == s.len() + 1);
    assert forall|k: int| 0 <= k < r.len() implies #[trigger] r[k] == (if k < p {
        s[k]
    } else if k == p {
        v
    } else {
        s[k - 1]
    }) by {}
    assert forall|i: int, j: int| 0 <= i < j < r.len() implies r[i] < r[j] by {
        if j < p {
            assert(s[i] < s[j]);
        } else if j == p {
            assert(s[i] < v);
        } else if i < p {
            assert(s[i] < s[j - 1] || i == j - 1);
            if p < j - 1 {
                assert(s[p] < s[j - 1]);
            }
        } else if i == p {
            if p < j - 1 {
                assert(s[p] < s[j - 1]);
            }
        } else {
            assert(s[i - 1] < s[j - 1]);
        }
    }
    assert forall|w: i32| r.contains(w) <==> (s.contains(w) || w == v) by {
        assert(r[p] == v);
        if r.contains(w) && w != v {
            let k = choose|k: int| 0 <= k < r.len() && r[k] == w;
            let k2 = if k < p { k } else { k - 1 };
            assert(s[k2] == w);
        }
        if s.contains(w) {
            let k = choose|k: int| 0 <= k < s.len() && s[k] == w;
            let k2 = if k < p { k } else { k + 1 };
            assert(r[k2] == w);
        }
    }
}

/// Toggling keeps a list rising and changes the membership of `v` alone.
pub proof fn lemma_toggled(s: Seq<i32>, v: i32)
    requires
        ascending(s),
    ensures
        ascending(toggled(s, v)),
        forall|w: i32| toggled(s, v).contains(w) <==> (s.contains(w) != (w == v)),
{
    lemma_position(s, v);
    let p = position(s, v);
    if p < s.len() && s[p] == v {
        lemma_remove_ascending(s, p);
    } else {
        lemma_insert_ascending(s, p, v);
        if s.contains(v) {
            let k = choose|k: int| 0 <= k < s.len() && s[k] == v;
            if k < p {
                assert(s[k] < v);
            } else if k > p {
                assert(s[p] < s[k]);
            }
        }
    }
}

/// The list of [`odd_variables`] rises strictly, and holds a variable
/// exactly if that variable occurs an odd number of times.
pub proof fn lemma_odd_variables(t: Seq<Value>)
    ensures
        ascending(odd_variables(t)),
        forall|w: i32| #[trigger]
            odd_variables(t).contains(w) <==> occurrences(t, Value::Var(w)) % 2 == 1,
    decreases t.len(),
{
    if t.len() > 0 {
        let before = odd_variables(t.drop_last());
        lemma_odd_variables(t.drop_last());
        match t.last() {
            Value::Var(v) => {
                lemma_toggled(before, v);
                assert forall|w: i32| #[trigger]
                    odd_variables(t).contains(w) <==> occurrences(t, Value::Var(w)) % 2
                        == 1 by {
                    assert(toggled(before, v).contains(w) <==> (before.contains(w) != (w == v)));
                    assert(before.contains(w) <==> occurrences(t.drop_last(), Value::Var(w)) % 2
                        == 1);
                }
            },
            _ => {
                assert forall|w: i32| #[trigger]
                    odd_variables(t).contains(w) <==> occurrences(t, Value::Var(w)) % 2
                        == 1 by {
                    assert(before.contains(w) <==> occurrences(t.drop_last(), Value::Var(w)) % 2
                        == 1);
                }
            },
        }
    }
}

impl EquationView {
    /// Number of terms on both sides.
    pub open spec fn members(self) -> nat {
        self.left.terms().len() + self.right.terms().len()
    }

    /// The side on which the variable `var` stands: `Some(true)` for the
    /// left, `Some(false)` for the right and not the left, `None` for
    /// neither.
    pub open spec fn side_of(self, var: i32) -> Option<bool> {
        if self.left.terms().contains(Value::Var(var)) {
            Some(true)
        } else if self.right.terms().contains(Value::Var(var)) {
            Some(false)
        } else {
            None
        }
    }

    /// Whether every variable of the equation has a value in `assignment`.
    pub open spec fn decided_by(self, assignment: Map<i32, bool>) -> bool {
        all_assigned(self.left.terms(), assignment) && all_assigned(self.right.terms(), assignment)
    }

    /// Whether both sides have the same value under `assignment`.
    pub open spec fn holds_under(self, assignment: Map<i32, bool>) -> bool {
        xor_of(self.left.terms(), assignment) == xor_of(self.right.terms(), assignment)
    }

    /// Whether the equation gives a variable a constant: a variable alone on
    /// the left, `True` or `False` alone on the right.
    pub open spec fn is_constant(self) -> bool {
        &&& self.left matches ExpressionView::Val(Value::Var(_))
        &&& (self.right == ExpressionView::Val(Value::True) || self.right == ExpressionView::Val(
            Value::False,
        ))
    }

    /// The variable that stands alone on the left side.
    pub open spec fn left_variable(self) -> i32
        recommends
            self.left matches ExpressionView::Val(Value::Var(_)),
    {
        match self.left {
            ExpressionView::Val(Value::Var(v)) => v,
            _ => 0,
        }
    }

    /// Whether `assignment` does not refute the equation: some variable of
    /// the equation has no value yet, or both sides agree.
    pub open spec fn not_violated_by(self, assignment: Map<i32, bool>) -> bool {
        !self.decided_by(assignment) || self.holds_under(assignment)
    }

    /// The equation with its right side in normal form, for an equation
    /// whose left side is a single term; `None` where that term occurs on
    /// the right side. A right side of a single term stays as it is.
    pub open spec fn solved_for_left(self) -> Option<EquationView>
        recommends
            self.left is Val,
    {
        if self.right.terms().contains(self.left->Val_0) {
            None
        } else {
            Some(
                EquationView {
                    left: self.left,
                    right: match self.right {
                        ExpressionView::Val(v) => ExpressionView::Val(v),
                        ExpressionView::Xor(t) => ExpressionView::of_terms(canonical(t)),
                    },
                },
            )
        }
    }

    /// The terms of both sides but for the variable `var`: a left side of a
    /// single term counts where `var` is not on the left, a right side of a
    /// single term where it is.
    pub open spec fn terms_besides(self, var: i32) -> Seq<Value> {
        let on_left = self.left.terms().contains(Value::Var(var));
        (match self.left {
            ExpressionView::Val(v) => if on_left {
                Seq::empty()
            } else {
                seq![v]
            },
            ExpressionView::Xor(t) => without(t, Value::Var(var)),
        }) + (match self.right {
            ExpressionView::Val(v) => if on_left {
                seq![v]
            } else {
                Seq::empty()
            },
            ExpressionView::Xor(t) => without(t, Value::Var(var)),
        })
    }

    /// The equation solved for `var` after the substitution: `var` on the
    /// left, on the right the normal form of all other terms, in which
    /// `substitution` has taken the place of each `substitution_for`.
    /// `None` where `var` is on neither side or comes back on the right.
    pub open spec fn evaluated(
        self,
        var: i32,
        substitution_for: i32,
        substitution: Seq<Value>,
    ) -> Option<EquationView> {
        if self.side_of(var) is None {
            None
        } else {
            EquationView {
                left: ExpressionView::Val(Value::Var(var)),
                right: ExpressionView::of_terms(
                    substituted(self.terms_besides(var), substitution_for, substitution),
                ),
            }.solved_for_left()
        }
    }
}

/// The value of a list of one term is the value of that term.
pub proof fn lemma_xor_of_single(x: Value, assignment: Map<i32, bool>)
    ensures
        xor_of(seq![x], assignment) == value_of(x, assignment),
        all_assigned(seq![x], assignment) <==> (x matches Value::Var(v) ==> assignment.contains_key(
            v,
        )),
{
    assert(seq![x].drop_last() =~= Seq::<Value>::empty());
    assert(xor_of(seq![x].drop_last(), assignment) == false);
    assert(seq![x][0] == x);
}

/// A term other than the one that is taken out stays in the list.
pub proof fn lemma_without_contains(t: Seq<Value>, x: Value, y: Value)
    requires
        t.contains(y),
        y != x,
    ensures
        without(t, x).contains(y),
    decreases t.len(),
{
    let k = choose|k: int| 0 <= k < t.len() && t[k] == y;
    if k == t.len() - 1 {
        let r = without(t, x);
        assert(r[r.len() - 1] == y);
    } else {
        assert(t.drop_last()[k] == y);
        lemma_without_contains(t.drop_last(), x, y);
        let short = without(t.drop_last(), x);
        let j = choose|j: int| 0 <= j < short.len() && short[j] == y;
        assert(without(t, x)[j] == y);
    }
}

/// The variables of a list of terms are the numbers of its variable terms.
pub proof fn lemma_variables(t: Seq<Value>)
    ensures
        forall|v: i32| #[trigger] variables(t).contains(v) <==> t.contains(Value::Var(v)),
    decreases t.len(),
{
    if t.len() > 0 {
        let short = t.drop_last();
        lemma_variables(short);
        assert forall|v: i32| #[trigger] variables(t).contains(v) <==> t.contains(
            Value::Var(v),
        ) by {
            let r = variables(t);
            if r.contains(v) {
                let k = choose|k: int| 0 <= k < r.len() && r[k] == v;
                if k < variables(short).len() {
                    assert(variables(short)[k] == v);
                    assert(variables(short).contains(v));
                    assert(short.contains(Value::Var(v)));
                    let j = choose|j: int| 0 <= j < short.len() && short[j] == Value::Var(v);
                    assert(t[j] == Value::Var(v));
                } else {
                    assert(t[t.len() - 1] == Value::Var(v));
                }
            }
            if t.contains(Value::Var(v)) {
                let j = choose|j: int| 0 <= j < t.len() && t[j] == Value::Var(v);
                if j < t.len() - 1 {
                    assert(short[j] == Value::Var(v));
                    assert(short.contains(Value::Var(v)));
                    assert(variables(short).contains(v));
                    let k = choose|k: int|
                        0 <= k < variables(short).len() && variables(short)[k] == v;
                    assert(r[k] == v);
                } else {
                    assert(r[r.len() - 1] == v);
                }
            }
        }
    }
}

/// An equation with a constant alone on the right, solved for a variable of
/// its left side, has that variable alone on the left, and where it has two
/// terms, a constant alone on the right.
pub proof fn lemma_evaluated_constant(
    source: EquationView,
    var: i32,
    substitution_for: i32,
    substitution: Seq<Value>,
)
    requires
        source.right == ExpressionView::Val(Value::True) || source.right == ExpressionView::Val(
            Value::False,
        ),
        source.left.terms().contains(Value::Var(var)),
    ensures
        source.evaluated(var, substitution_for, substitution) matches Some(e) ==> {
            &&& e.left == ExpressionView::Val(Value::Var(var))
            &&& (e.members() == 2 ==> e.is_constant())
        },
{
    let c = source.right->Val_0;
    let besides = source.terms_besides(var);
    let vals = substituted(besides, substitution_for, substitution);
    assert(besides[besides.len() - 1] == c);
    assert(besides.contains(c));
    if substitution_for >= 0 {
        lemma_without_contains(besides, Value::Var(substitution_for), c);
        let kept = without(besides, Value::Var(substitution_for));
        let k = choose|k: int| 0 <= k < kept.len() && kept[k] == c;
        assert(vals[k] == c);
    }
    assert(vals.contains(c));
    if vals.len() == 1 {
        let k = choose|k: int| 0 <= k < vals.len() && vals[k] == c;
        assert(vals[0] == c);
    } else {
        lemma_canonical(vals);
    }
}

/// A single term occurs once in the list that holds it alone, and no other
/// term occurs there.
pub proof fn lemma_single_term(x: Value)
    ensures
        forall|y: Value| #[trigger] occurrences(seq![x], y) == (if x == y { 1nat } else { 0nat }),
        forall|y: Value| #[trigger] seq![x].contains(y) <==> x == y,
{
    assert forall|y: Value| #[trigger] occurrences(seq![x], y) == (if x == y { 1nat } else { 0nat }) by {
        assert(seq![x].drop_last() =~= Seq::<Value>::empty());
        assert(occurrences(seq![x].drop_last(), y) == 0);
    }
    assert forall|y: Value| #[trigger] seq![x].contains(y) <==> x == y by {
        if x == y {
            assert(seq![x][0] == y);
        }
    }
}

/// The normal form of `t` starts with a constant, its variables rise
/// strictly, and a variable is among them exactly if it occurs an odd number
/// of times in `t`. The list for the normal form and the expression made of
/// it hold the same terms.
pub proof fn lemma_canonical(t: Seq<Value>)
    ensures
        canonical(t).len() == odd_variables(t).len() + 1,
        canonical(t)[0] == Value::of_bool(constant_of(t)),
        forall|i: int| 1 <= i < canonical(t).len() ==> #[trigger] canonical(t)[i] == Value::Var(
            odd_variables(t)[i - 1],
        ),
        ascending(odd_variables(t)),
        forall|v: i32| #[trigger]
            canonical(t).contains(Value::Var(v)) <==> occurrences(t, Value::Var(v)) % 2 == 1,
        ExpressionView::of_terms(canonical(t)).terms() == canonical(t),
{
    lemma_odd_variables(t);
    let c = canonical(t);
    let o = odd_variables(t);
    assert forall|v: i32| #[trigger]
        c.contains(Value::Var(v)) <==> occurrences(t, Value::Var(v)) % 2 == 1 by {
        if c.contains(Value::Var(v)) {
            let k = choose|k: int| 0 <= k < c.len() && c[k] == Value::Var(v);
            assert(o[k - 1] == v);
            assert(o.contains(v));
        }
        if o.contains(v) {
            let k = choose|k: int| 0 <= k < o.len() && o[k] == v;
            assert(c[k + 1] == Value::Var(v));
        }
    }
    if c.len() == 1 {
        assert(seq![c[0]] =~= c);
    }
}

/// Puts the terms of `src` at the end of `dst`.
pub fn append_terms(dst: &mut Vec<Value>, src: &Vec<Value>)
    ensures
        final(dst)@ == old(dst)@ + src@,
{
    let mut i: usize = 0;
    while i < src.len()
        invariant
            i <= src.len(),
            dst@ == old(dst)@ + src@.take(i as int),
        decreases src.len() - i,
    {
        dst.push(src[i]);
        proof {
            assert(src@.take(i + 1) =~= src@.take(i as int).push(src@[i as int]));
            assert(dst@ =~= old(dst)@ + src@.take(i + 1));
        }
        i += 1;
    }
    proof {
        assert(src@.take(src.len() as int) =~= src@);
    }
}

/// Puts the terms of `src` other than `x` at the end of `dst`, and tells how
/// often `x` stood among them.
pub fn append_without(dst: &mut Vec<Value>, src: &Vec<Value>, x: Value) -> (skipped: usize)
    ensures
        final(dst)@ == old(dst)@ + without(src@, x),
        skipped == occurrences(src@, x),
{
    let mut skipped: usize = 0;
    let mut i: usize = 0;
    while i < src.len()
        invariant
            i <= src.len(),
            skipped <= i,
            skipped == occurrences(src@.take(i as int), x),
            dst@ == old(dst)@ + without(src@.take(i as int), x),
        decreases src.len() - i,
    {
        proof {
            assert(src@.take(i + 1).drop_last() =~= src@.take(i as int));
        }
        if src[i] == x {
            skipped += 1;
        } else {
            dst.push(src[i]);
            proof {
                assert(dst@ =~= old(dst)@ + without(src@.take(i + 1), x));
            }
        }
        i += 1;
    }
    proof {
        assert(src@.take(src.len() as int) =~= src@);
    }
    skipped
}

/// Takes `v` out of the rising list `found` where it is in it, and puts it
/// in at its place where it is not.
pub fn toggle(found: &mut Vec<i32>, v: i32)
    requires
        ascending(old(found)@),
    ensures
        final(found)@ == toggled(old(found)@, v),
        ascending(final(found)@),
{
    let mut p: usize = 0;
    proof {
        assert(found@.skip(0) =~= found@);
    }
    while p < found.len() && found[p] < v
        invariant
            p <= found.len(),
            found@ == old(found)@,
            position(found@, v) == p + position(found@.skip(p as int), v),
        decreases found.len() - p,
    {
        proof {
            assert(found@.skip(p as int).skip(1) =~= found@.skip(p + 1));
        }
        p += 1;
    }
    proof {
        lemma_toggled(found@, v);
    }
    if p < found.len() && found[p] == v {
        found.remove(p);
    } else {
        found.insert(p, v);
    }
}

/// The normal form of a list of terms, see [`canonical`].
pub fn canonical_terms(terms: &Vec<Value>) -> (r: Vec<Value>)
    ensures
        r@ == canonical(terms@),
{
    let mut constant = false;
    let mut found: Vec<i32> = Vec::new();
    let mut i: usize = 0;
    while i < terms.len()
        invariant
            i <= terms.len(),
            constant == constant_of(terms@.take(i as int)),
            found@ == odd_variables(terms@.take(i as int)),
            ascending(found@),
        decreases terms.len() - i,
    {
        proof {
            assert(terms@.take(i + 1).drop_last() =~= terms@.take(i as int));
        }
        match terms[i] {
            Value::True => {
                constant = !constant;
            },
            Value::False => {},
            Value::Var(v) => {
                toggle(&mut found, v);
            },
        }
        i += 1;
    }
    proof {
        assert(terms@.take(terms.len() as int) =~= terms@);
    }
    let mut r: Vec<Value> = Vec::new();
    r.push(if constant {
        Value::True
    } else {
        Value::False
    });
    let mut k: usize = 0;
    while k < found.len()
        invariant
            k <= found.len(),
            r@ == seq![Value::of_bool(constant)] + as_terms(found@.take(k as int)),
        decreases found.len() - k,
    {
        r.push(Value::Var(found[k]));
        proof {
            assert(r@ =~= seq![Value::of_bool(constant)] + as_terms(found@.take(k + 1)));
        }
        k += 1;
    }
    proof {
        assert(found@.take(found.len() as int) =~= found@);
    }
    r
}

impl Expression {
    /// Number of terms of the expression.
    pub fn term_count(&self) -> (r: usize)
        ensures
            r == self@.terms().len(),
    {
        match self {
            Expression::Val(_) => 1,
            Expression::Xor(vals) => vals.len(),
        }
    }

    /// Whether the variable `var` occurs in the expression.
    pub fn mentions(&self, var: i32) -> (r: bool)
        ensures
            r == self@.terms().contains(Value::Var(var)),
    {
        match self {
            Expression::Val(val) => {
                let found = *val == Value::Var(var);
                proof {
                    if found {
                        assert(self@.terms()[0] == Value::Var(var));
                    }
                }
                found
            },
            Expression::Xor(vals) => {
                let mut i: usize = 0;
                while i < vals.len()
                    invariant
                        i <= vals.len(),
                        vals@ == self@.terms(),
                        forall|j: int| 0 <= j < i ==> vals@[j] != Value::Var(var),
                    decreases vals.len() - i,
                {
                    if vals[i] == Value::Var(var) {
                        assert(self@.terms()[i as int] == Value::Var(var));
                        return true;
                    }
                    i += 1;
                }
                false
            },
        }
    }

    /// The value of the expression under `variables`, or `None` where one of
    /// its variables has no value there.
    pub fn value_under(&self, variables: &HashMap<i32, bool>) -> (r: Option<bool>)
        ensures
            r is Some <==> all_assigned(self@.terms(), variables@),
            r matches Some(b) ==> b == xor_of(self@.terms(), variables@),
    {
        let terms = self.to_terms();
        let mut result = false;
        let mut i: usize = 0;
        while i < terms.len()
            invariant
                i <= terms.len(),
                terms@ == self@.terms(),
                all_assigned(terms@.take(i as int), variables@),
                result == xor_of(terms@.take(i as int), variables@),
            decreases terms.len() - i,
        {
            proof {
                assert(terms@.take(i + 1).drop_last() =~= terms@.take(i as int));
            }
            let b = match terms[i] {
                Value::True => true,
                Value::False => false,
                Value::Var(v) => match variables.get(&v) {
                    None => {
                        return None;
                    },
                    Some(val) => *val,
                },
            };
            result = result != b;
            i += 1;
        }
        proof {
            assert(terms@.take(terms.len() as int) =~= terms@);
        }
        Some(result)
    }
}

impl Equation {
    /// Number of terms on both sides of the equation.
    pub fn count_members(&self) -> (r: usize)
        requires
            self@.members() <= usize::MAX,
        ensures
            r == self@.members(),
    {
        let mut counter: usize = 0;
        counter += self.left.term_count();
        counter += self.right.term_count();
        counter
    }

    /// Tells on which side the variable `var` stands: `Ok(true)` for the
    /// left side, `Ok(false)` for the right side, and an error where it
    /// stands on neither.
    pub fn has_var(&self, var: &i32) -> (r: Result<bool, ()>)
        ensures
            match r {
                Ok(side) => self@.side_of(*var) == Some(side),
                Err(_) => self@.side_of(*var) is None,
            },
    {
        if self.left.mentions(*var) {
            Ok(true)
        } else if self.right.mentions(*var) {
            Ok(false)
        } else {
            Err(())
        }
    }

    /// Solves the equation for the variable `var`: the result has `var` on
    /// the left and, on the right, the normal form of all other terms of both
    /// sides. Where `substitution_for` is not negative, the terms
    /// `substitution` take the place of each occurrence of that variable
    /// first. Fails where `var` is on neither side, and where it comes back
    /// on the right side through the substitution.
    pub fn evaluate(&self, var: &i32, substitution_for: i32, substitution: Vec<Value>) -> (r:
        Result<Self, ()>)
        ensures
            match r {
                Ok(eq) => Some(eq@) == self@.evaluated(*var, substitution_for, substitution@),
                Err(_) => self@.evaluated(*var, substitution_for, substitution@) is None,
            },
            self@.side_of(*var) is None ==> r is Err,
    {
        let side = match self.has_var(var) {
            Ok(side) => side,
            Err(_) => {
                return Err(());
            },
        };
        let target = Value::Var(*var);

        let mut vals: Vec<Value> = Vec::new();
        match &self.left {
            Expression::Val(val) => {
                if !side {
                    vals.push(*val);
                }
            },
            Expression::Xor(vls) => {
                append_without(&mut vals, vls, target);
            },
        }
        match &self.right {
            Expression::Val(val) => {
                if side {
                    vals.push(*val);
                }
            },
            Expression::Xor(v) => {
                append_without(&mut vals, v, target);
            },
        }
        assert(vals@ =~= self@.terms_besides(*var));

        let vals = if substitution_for >= 0 {
            let mut new_vals: Vec<Value> = Vec::new();
            let sub = append_without(&mut new_vals, &vals, Value::Var(substitution_for));
            let mut k: usize = 0;
            while k < sub
                invariant
                    k <= sub,
                    new_vals@ == without(vals@, Value::Var(substitution_for)) + repeated(
                        substitution@,
                        k as nat,
                    ),
                decreases sub - k,
            {
                append_terms(&mut new_vals, &substitution);
                proof {
                    assert(new_vals@ =~= without(vals@, Value::Var(substitution_for)) + repeated(
                        substitution@,
                        (k + 1) as nat,
                    ));
                }
                k += 1;
            }
            new_vals
        } else {
            vals
        };

        let mut eq = Equation { left: Expression::Val(target), right: Expression::from_terms(vals) };
        match eq.solve_for_left() {
            Ok(_) => Ok(eq),
            Err(_) => Err(()),
        }
    }

    /// Brings the right side of an equation whose left side is a single term
    /// into normal form: its constants come to one constant, a variable that
    /// occurs an even number of times falls away, and one that occurs an odd
    /// number of times stays once; the variables rise. A right side of a
    /// single term is left as it is. Fails, and changes nothing, where the
    /// term of the left side occurs on the right.
    pub fn solve_for_left(&mut self) -> (r: Result<(), ()>)
        requires
            old(self)@.left is Val,
        ensures
            match r {
                Ok(_) => Some(final(self)@) == old(self)@.solved_for_left(),
                Err(_) => old(self)@.solved_for_left() is None && final(self)@ == old(self)@,
            },
            r is Err <==> old(self)@.right.terms().contains(old(self)@.left->Val_0),
            r is Ok ==> forall|v: i32| #[trigger]
                final(self)@.right.terms().contains(Value::Var(v)) <==> occurrences(
                    old(self)@.right.terms(),
                    Value::Var(v),
                ) % 2 == 1,
    {
        let looking_for = match &self.left {
            Expression::Val(val) => *val,
            Expression::Xor(_) => {
                proof {
                    assert(false);
                }
                Value::False
            },
        };
        let simplified = match &self.right {
            Expression::Val(val) => {
                if *val == looking_for {
                    assert(self@.right.terms()[0] == looking_for);
                    return Err(());
                }
                proof {
                    lemma_single_term(*val);
                }
                Expression::Val(*val)
            },
            Expression::Xor(expression) => {
                let mut i: usize = 0;
                while i < expression.len()
                    invariant
                        i <= expression.len(),
                        *self == *old(self),
                        self@.left == ExpressionView::Val(looking_for),
                        expression@ == self@.right.terms(),
                        forall|j: int| 0 <= j < i ==> expression@[j] != looking_for,
                    decreases expression.len() - i,
                {
                    if expression[i] == looking_for {
                        assert(self@.right.terms()[i as int] == looking_for);
                        return Err(());
                    }
                    i += 1;
                }
                proof {
                    lemma_canonical(expression@);
                }
                Expression::from_terms(canonical_terms(expression))
            },
        };
        self.right = simplified;
        Ok(())
    }

    /// The numbers of the variables on the left side, in their order.
    pub fn analyse(&self) -> (vars: Vec<i32>)
        ensures
            vars@ == variables(self@.left.terms()),
    {
        let terms = self.left.to_terms();
        let mut vars: Vec<i32> = Vec::new();
        let mut i: usize = 0;
        while i < terms.len()
            invariant
                i <= terms.len(),
                vars@ == variables(terms@.take(i as int)),
            decreases terms.len() - i,
        {
            proof {
                assert(terms@.take(i + 1).drop_last() =~= terms@.take(i as int));
            }
            if let Value::Var(var) = terms[i] {
                vars.push(var);
            }
            i += 1;
        }
        proof {
            assert(terms@.take(terms.len() as int) =~= terms@);
        }
        vars
    }

    /// Checks the equation against a partial assignment. While one of its
    /// variables has no value the equation cannot be refuted and the answer
    /// is `true`; after that it is `true` exactly if both sides have the
    /// same value.
    pub fn check_equation_validity(&self, variables: &HashMap<i32, bool>) -> (r: bool)
        ensures
            r == self@.not_violated_by(variables@),
            !self@.decided_by(variables@) ==> r,
    {
        match self.left.value_under(variables) {
            None => true,
            Some(left) => match self.right.value_under(variables) {
                None => true,
                Some(right) => left == right,
            },
        }
    }
}

} // verus!
