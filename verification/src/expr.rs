//! Terms, expressions and equations over boolean variables, with the
//! structural order that is used to bring sets of equations into a canonical
//! form.

use crate::text::{append_decimal, decimal_text};
use vstd::prelude::*;
use vstd::string::StringExecFns;

verus! {

/// An atomic term: a boolean constant or a variable.
///
/// The order is `True < False < Var(_)`, variables by their number.
#[derive(Debug, Clone, Copy, PartialEq, Eq, Structural, PartialOrd, Ord, Hash)]
pub enum Value {
    True,
    False,
    Var(i32),
}

/// One side of an equation: a single term or the exclusive-or of a list of
/// terms.
#[derive(Debug, PartialEq, Eq, PartialOrd, Ord, Hash)]
pub enum Expression {
    Val(Value),
    Xor(Vec<Value>),
}

/// The constraint that the exclusive-or of `left` equals that of `right`.
#[derive(Debug, PartialEq, Eq, PartialOrd, Ord, Hash)]
pub struct Equation {
    pub left: Expression,
    pub right: Expression,
}

/// Mathematical model of an [`Expression`].
pub enum ExpressionView {
    Val(Value),
    Xor(Seq<Value>),
}

/// Mathematical model of an [`Equation`].
pub struct EquationView {
    pub left: ExpressionView,
    pub right: ExpressionView,
}

impl View for Expression {
    type V = ExpressionView;

    open spec fn view(&self) -> ExpressionView {
        match self {
            Expression::Val(v) => ExpressionView::Val(*v),
            Expression::Xor(vals) => ExpressionView::Xor(vals@),
        }
    }
}

impl View for Equation {
    type V = EquationView;

    open spec fn view(&self) -> EquationView {
        EquationView { left: self.left@, right: self.right@ }
    }
}

impl Value {
    /// Position of the variant in the order of terms.
    pub open spec fn rank(self) -> int {
        match self {
            Value::True => 0,
            Value::False => 1,
            Value::Var(_) => 2,
        }
    }

    /// Strict order of terms.
    pub open spec fn before(self, other: Value) -> bool {
        match (self, other) {
            (Value::Var(a), Value::Var(b)) => a < b,
            _ => self.rank() < other.rank(),
        }
    }

    /// Whether `self` comes strictly before `other`.
    pub fn precedes(&self, other: &Value) -> (r: bool)
        ensures
            r == self.before(*other),
    {
        match (self, other) {
            (Value::Var(a), Value::Var(b)) => *a < *b,
            (Value::Var(_), _) => false,
            (Value::False, Value::Var(_)) => true,
            (Value::False, _) => false,
            (Value::True, Value::True) => false,
            (Value::True, _) => true,
        }
    }

    /// The constant that stands for `b`.
    pub open spec fn of_bool(b: bool) -> Value {
        if b {
            Value::True
        } else {
            Value::False
        }
    }
}

/// Lexicographic strict order of term lists.
pub open spec fn terms_before(a: Seq<Value>, b: Seq<Value>) -> bool
    decreases a.len(),
{
    if b.len() == 0 {
        false
    } else if a.len() == 0 {
        true
    } else if a[0] == b[0] {
        terms_before(a.skip(1), b.skip(1))
    } else {
        a[0].before(b[0])
    }
}

impl ExpressionView {
    /// The terms of the expression, in order.
    pub open spec fn terms(self) -> Seq<Value> {
        match self {
            ExpressionView::Val(v) => seq![v],
            ExpressionView::Xor(vals) => vals,
        }
    }

    /// Strict order of expressions: a single term comes before every
    /// combination.
    pub open spec fn before(self, other: ExpressionView) -> bool {
        match (self, other) {
            (ExpressionView::Val(a), ExpressionView::Val(b)) => a.before(b),
            (ExpressionView::Val(_), ExpressionView::Xor(_)) => true,
            (ExpressionView::Xor(_), ExpressionView::Val(_)) => false,
            (ExpressionView::Xor(a), ExpressionView::Xor(b)) => terms_before(a, b),
        }
    }

    /// The normal shape of a list of terms: a list of one term is that term.
    pub open spec fn of_terms(terms: Seq<Value>) -> ExpressionView {
        if terms.len() == 1 {
            ExpressionView::Val(terms[0])
        } else {
            ExpressionView::Xor(terms)
        }
    }
}

impl EquationView {
    /// Strict order of equations: by the left side, then by the right side.
    pub open spec fn before(self, other: EquationView) -> bool {
        self.left.before(other.left) || (self.left == other.left && self.right.before(other.right))
    }
}

/// The order of term lists is irreflexive.
pub proof fn lemma_terms_before_irreflexive(a: Seq<Value>)
    ensures
        !terms_before(a, a),
    decreases a.len(),
{
    if a.len() > 0 {
        lemma_terms_before_irreflexive(a.skip(1));
    }
}

/// The order of term lists is transitive.
pub proof fn lemma_terms_before_transitive(a: Seq<Value>, b: Seq<Value>, c: Seq<Value>)
    requires
        terms_before(a, b),
        terms_before(b, c),
    ensures
        terms_before(a, c),
    decreases a.len(),
{
    if a.len() > 0 && b.len() > 0 && c.len() > 0 {
        if a[0] == b[0] && b[0] == c[0] {
            lemma_terms_before_transitive(a.skip(1), b.skip(1), c.skip(1));
        }
    }
}

/// Two term lists of which neither comes before the other are equal.
pub proof fn lemma_terms_before_connected(a: Seq<Value>, b: Seq<Value>)
    requires
        !terms_before(a, b),
        !terms_before(b, a),
    ensures
        a == b,
    decreases a.len(),
{
    if a.len() > 0 && b.len() > 0 {
        lemma_terms_before_connected(a.skip(1), b.skip(1));
        assert(a =~= seq![a[0]] + a.skip(1));
        assert(b =~= seq![b[0]] + b.skip(1));
    } else {
        assert(a =~= b);
    }
}

/// The order of equations is a strict total order.
pub proof fn lemma_equation_order(a: EquationView, b: EquationView, c: EquationView)
    ensures
        !a.before(a),
        a.before(b) && b.before(c) ==> a.before(c),
        !a.before(b) && !b.before(a) ==> a == b,
        a.before(b) ==> !b.before(a),
{
    lemma_expression_order(a.left, b.left, c.left);
    lemma_expression_order(a.right, b.right, c.right);
    lemma_expression_order(b.left, a.left, c.left);
    lemma_expression_order(b.right, a.right, c.right);
}

/// The order of expressions is a strict total order.
pub proof fn lemma_expression_order(a: ExpressionView, b: ExpressionView, c: ExpressionView)
    ensures
        !a.before(a),
        a.before(b) && b.before(c) ==> a.before(c),
        !a.before(b) && !b.before(a) ==> a == b,
        a.before(b) ==> !b.before(a),
{
    lemma_terms_before_irreflexive(a.terms());
    if a.before(b) && b.before(c) {
        if a is Xor && b is Xor && c is Xor {
            lemma_terms_before_transitive(a.terms(), b.terms(), c.terms());
        }
    }
    if !a.before(b) && !b.before(a) {
        if a is Xor && b is Xor {
            lemma_terms_before_connected(a.terms(), b.terms());
        }
    }
    if a.before(b) && b.before(a) {
        if a is Xor && b is Xor {
            lemma_terms_before_transitive(a.terms(), b.terms(), a.terms());
        }
    }
}

/// Whether two term lists hold the same terms in the same order.
pub fn same_terms(a: &Vec<Value>, b: &Vec<Value>) -> (r: bool)
    ensures
        r == (a@ == b@),
{
    if a.len() != b.len() {
        return false;
    }
    let mut i: usize = 0;
    while i < a.len()
        invariant
            a.len() == b.len(),
            i <= a.len(),
            forall|j: int| 0 <= j < i ==> a@[j] == b@[j],
        decreases a.len() - i,
    {
        if a[i] != b[i] {
            return false;
        }
        i += 1;
    }
    assert(a@ =~= b@);
    true
}

/// Whether the term list `a` comes strictly before `b`.
pub fn terms_precede(a: &Vec<Value>, b: &Vec<Value>) -> (r: bool)
    ensures
        r == terms_before(a@, b@),
{
    let mut i: usize = 0;
    proof {
        assert(a@.skip(0) =~= a@);
        assert(b@.skip(0) =~= b@);
    }
    while i < a.len() && i < b.len()
        invariant
            i <= a.len(),
            i <= b.len(),
            terms_before(a@, b@) == terms_before(a@.skip(i as int), b@.skip(i as int)),
        decreases a.len() - i,
    {
        proof {
            assert(a@.skip(i as int).skip(1) =~= a@.skip(i + 1));
            assert(b@.skip(i as int).skip(1) =~= b@.skip(i + 1));
        }
        if a[i] != b[i] {
            return a[i].precedes(&b[i]);
        }
        i += 1;
    }
    i < b.len()
}

/// A copy of a term list.
pub fn copy_terms(a: &Vec<Value>) -> (r: Vec<Value>)
    ensures
        r@ == a@,
{
    let mut r: Vec<Value> = Vec::new();
    let mut i: usize = 0;
    while i < a.len()
        invariant
            i <= a.len(),
            r@ == a@.take(i as int),
        decreases a.len() - i,
    {
        r.push(a[i]);
        proof {
            assert(r@ =~= a@.take(i + 1));
        }
        i += 1;
    }
    proof {
        assert(a@.take(a.len() as int) =~= a@);
    }
    r
}

impl Expression {
    /// Whether both expressions have the same shape and the same terms.
    pub fn same(&self, other: &Expression) -> (r: bool)
        ensures
            r == (self@ == other@),
    {
        match (self, other) {
            (Expression::Val(a), Expression::Val(b)) => *a == *b,
            (Expression::Xor(a), Expression::Xor(b)) => same_terms(a, b),
            _ => false,
        }
    }

    /// Whether `self` comes strictly before `other`.
    pub fn precedes(&self, other: &Expression) -> (r: bool)
        ensures
            r == self@.before(other@),
    {
        match (self, other) {
            (Expression::Val(a), Expression::Val(b)) => a.precedes(b),
            (Expression::Val(_), Expression::Xor(_)) => true,
            (Expression::Xor(_), Expression::Val(_)) => false,
            (Expression::Xor(a), Expression::Xor(b)) => terms_precede(a, b),
        }
    }

    /// The terms of the expression as a list of their own.
    pub fn to_terms(&self) -> (r: Vec<Value>)
        ensures
            r@ == self@.terms(),
    {
        match self {
            Expression::Val(v) => {
                let mut r: Vec<Value> = Vec::new();
                r.push(*v);
                r
            },
            Expression::Xor(vals) => copy_terms(vals),
        }
    }

    /// The expression for a list of terms: the term itself where there is
    /// exactly one.
    pub fn from_terms(terms: Vec<Value>) -> (r: Expression)
        ensures
            r@ == ExpressionView::of_terms(terms@),
    {
        if terms.len() == 1 {
            Expression::Val(terms[0])
        } else {
            Expression::Xor(terms)
        }
    }
}

impl Clone for Expression {
    fn clone(&self) -> (r: Self)
        ensures
            r@ == self@,
    {
        match self {
            Expression::Val(v) => Expression::Val(*v),
            Expression::Xor(vals) => Expression::Xor(copy_terms(vals)),
        }
    }
}

impl Equation {
    /// Whether both equations have the same sides.
    pub fn same(&self, other: &Equation) -> (r: bool)
        ensures
            r == (self@ == other@),
    {
        self.left.same(&other.left) && self.right.same(&other.right)
    }

    /// Whether `self` comes strictly before `other`.
    pub fn precedes(&self, other: &Equation) -> (r: bool)
        ensures
            r == self@.before(other@),
    {
        if self.left.precedes(&other.left) {
            true
        } else if self.left.same(&other.left) {
            self.right.precedes(&other.right)
        } else {
            false
        }
    }
}

impl Clone for Equation {
    fn clone(&self) -> (r: Self)
        ensures
            r@ == self@,
    {
        Equation { left: self.left.clone(), right: self.right.clone() }
    }
}

/// The text of a term: `1`, `0`, or `i_` and the number of the variable.
pub open spec fn term_text(v: Value) -> Seq<char> {
    match v {
        Value::True => seq!['1'],
        Value::False => seq!['0'],
        Value::Var(i) => seq!['i', '_'] + decimal_text(i as int),
    }
}

/// The texts of the terms with ` XOR ` between them.
pub open spec fn terms_text(terms: Seq<Value>) -> Seq<char>
    decreases terms.len(),
{
    if terms.len() == 0 {
        Seq::empty()
    } else if terms.len() == 1 {
        term_text(terms[0])
    } else {
        terms_text(terms.drop_last()) + seq![' ', 'X', 'O', 'R', ' '] + term_text(terms.last())
    }
}

impl EquationView {
    /// The text of the equation: the two sides with ` = ` between them.
    pub open spec fn text(self) -> Seq<char> {
        terms_text(self.left.terms()) + seq![' ', '=', ' '] + terms_text(self.right.terms())
    }
}

impl Value {
    /// Puts the text of the term at the end of `text`.
    pub fn append_to(&self, text: &mut String)
        ensures
            final(text)@ == old(text)@ + term_text(*self),
    {
        proof {
            reveal_strlit("1");
            reveal_strlit("0");
            reveal_strlit("i_");
        }
        match self {
            Value::True => {
                text.append("1");
                assert(text@ =~= old(text)@ + term_text(*self));
            },
            Value::False => {
                text.append("0");
                assert(text@ =~= old(text)@ + term_text(*self));
            },
            Value::Var(i) => {
                text.append("i_");
                assert(text@ =~= old(text)@ + seq!['i', '_']);
                append_decimal(text, *i);
                assert(text@ =~= old(text)@ + term_text(*self));
            },
        }
    }
}

impl Expression {
    /// Puts the text of the expression at the end of `text`: its terms with
    /// ` XOR ` between them.
    pub fn append_to(&self, text: &mut String)
        ensures
            final(text)@ == old(text)@ + terms_text(self@.terms()),
    {
        let terms = self.to_terms();
        let mut i: usize = 0;
        proof {
            assert(text@ =~= old(text)@ + terms_text(terms@.take(0)));
        }
        while i < terms.len()
            invariant
                i <= terms.len(),
                terms@ == self@.terms(),
                text@ == old(text)@ + terms_text(terms@.take(i as int)),
            decreases terms.len() - i,
        {
            proof {
                reveal_strlit(" XOR ");
                assert(terms@.take(i + 1).drop_last() =~= terms@.take(i as int));
            }
            if i > 0 {
                text.append(" XOR ");
            }
            let ghost between = text@;
            terms[i].append_to(text);
            proof {
                if i > 0 {
                    assert(between =~= old(text)@ + terms_text(terms@.take(i as int)) + seq![
                        ' ',
                        'X',
                        'O',
                        'R',
                        ' ',
                    ]);
                }
                assert(text@ =~= old(text)@ + terms_text(terms@.take(i + 1)));
            }
            i += 1;
        }
        proof {
            assert(terms@.take(terms.len() as int) =~= terms@);
        }
    }

    /// The text of the expression: its terms with ` XOR ` between them.
    pub fn to_text(&self) -> (text: String)
        ensures
            text@ == terms_text(self@.terms()),
    {
        let mut text = String::new();
        self.append_to(&mut text);
        assert(text@ =~= terms_text(self@.terms()));
        text
    }
}

impl Equation {
    /// The text of the equation: the two sides with ` = ` between them.
    pub fn to_text(&self) -> (text: String)
        ensures
            text@ == self@.text(),
    {
        let mut text = String::new();
        self.left.append_to(&mut text);
        proof {
            reveal_strlit(" = ");
        }
        text.append(" = ");
        self.right.append_to(&mut text);
        assert(text@ =~= self@.text());
        text
    }
}

} // verus!
