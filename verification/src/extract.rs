//! The elimination pass: each source equation is solved for each of its
//! variables in turn, with what is already known of one other of its
//! variables put in, and the results are collected as constant equations and
//! as partial equations.

use crate::equation::{lemma_evaluated_constant, lemma_variables, variables};
use crate::expr::{lemma_equation_order, Equation, EquationView, Expression, ExpressionView, Value};
use crate::solver::views;
use vstd::prelude::*;

verus! {

/// The equations that were derived from one source equation.
pub struct Bucket {
    /// Index of the source equation.
    pub key: usize,
    pub equations: Vec<Equation>,
}

/// Mathematical model of a [`Bucket`].
pub struct BucketView {
    pub key: usize,
    pub equations: Seq<EquationView>,
}

/// Derived equations, keyed by the index of their source equation. The
/// buckets keep the order in which their keys came in.
pub struct EquationMap {
    pub buckets: Vec<Bucket>,
}

impl View for Bucket {
    type V = BucketView;

    open spec fn view(&self) -> BucketView {
        BucketView { key: self.key, equations: views(self.equations@) }
    }
}

impl View for EquationMap {
    type V = Seq<BucketView>;

    open spec fn view(&self) -> Seq<BucketView> {
        self.buckets@.map_values(|b: Bucket| b@)
    }
}

/// The keys of the buckets, in their order.
pub open spec fn keys(m: Seq<BucketView>) -> Seq<usize> {
    m.map_values(|b: BucketView| b.key)
}

/// All equations of the buckets, bucket after bucket.
pub open spec fn flatten(m: Seq<BucketView>) -> Seq<EquationView>
    decreases m.len(),
{
    if m.len() == 0 {
        Seq::empty()
    } else {
        flatten(m.drop_last()) + m.last().equations
    }
}

/// Whether every equation of `s` has a variable alone on its left side.
pub open spec fn solved_form(s: Seq<EquationView>) -> bool {
    forall|k: int| 0 <= k < s.len() ==> (#[trigger] s[k]).left matches ExpressionView::Val(Value::Var(_))
}

/// Whether the known equation `e` can be put into an equation with the
/// variables `analysis` that is being solved for `except`: it is for another
/// one of those variables.
pub open spec fn usable(e: EquationView, analysis: Seq<i32>, except: i32) -> bool {
    e.left_variable() != except && analysis.contains(e.left_variable())
}

/// Index of the first equation of `s` that is [`usable`], or the length of
/// `s` where none is.
pub open spec fn first_usable(s: Seq<EquationView>, analysis: Seq<i32>, except: i32) -> int
    decreases s.len(),
{
    if s.len() == 0 || usable(s[0], analysis, except) {
        0
    } else {
        1 + first_usable(s.skip(1), analysis, except)
    }
}

/// What [`first_usable`] returns lies in the list, nothing before it is
/// usable and what stands there is.
pub proof fn lemma_first_usable(s: Seq<EquationView>, analysis: Seq<i32>, except: i32)
    ensures
        0 <= first_usable(s, analysis, except) <= s.len(),
        forall|j: int|
            0 <= j < first_usable(s, analysis, except) ==> !usable(#[trigger] s[j], analysis, except),
        first_usable(s, analysis, except) < s.len() ==> usable(
            s[first_usable(s, analysis, except)],
            analysis,
            except,
        ),
    decreases s.len(),
{
    if s.len() == 0 || usable(s[0], analysis, except) {
    } else {
        lemma_first_usable(s.skip(1), analysis, except);
        assert forall|j: int| 0 <= j < first_usable(s, analysis, except) implies !usable(
            #[trigger] s[j],
            analysis,
            except,
        ) by {
            if j > 0 {
                assert(s.skip(1)[j - 1] == s[j]);
            }
        }
    }
}

/// An index at which a usable equation stands after none is the one that
/// [`first_usable`] returns.
pub proof fn lemma_first_usable_is(s: Seq<EquationView>, analysis: Seq<i32>, except: i32, k: int)
    requires
        0 <= k <= s.len(),
        forall|j: int| 0 <= j < k ==> !usable(#[trigger] s[j], analysis, except),
        k < s.len() ==> usable(s[k], analysis, except),
    ensures
        first_usable(s, analysis, except) == k,
{
    lemma_first_usable(s, analysis, except);
    let r = first_usable(s, analysis, except);
    if r < k {
        assert(!usable(s[r], analysis, except));
    }
}

/// The equations of the first `b` buckets stand at the start of the
/// equations of all buckets.
pub proof fn lemma_flatten_take(m: Seq<BucketView>, b: int)
    requires
        0 <= b <= m.len(),
    ensures
        flatten(m.take(b)).is_prefix_of(flatten(m)),
        b < m.len() ==> flatten(m.take(b + 1)) == flatten(m.take(b)) + m[b].equations,
    decreases m.len() - b,
{
    if b == m.len() {
        assert(m.take(b) =~= m);
    } else {
        lemma_flatten_take(m, b + 1);
        assert(m.take(b + 1).drop_last() =~= m.take(b));
        let short = flatten(m.take(b));
        let long = flatten(m.take(b + 1));
        let all = flatten(m);
        assert(long =~= short + m[b].equations);
        assert(short =~= all.subrange(0, short.len() as int)) by {
            assert(long =~= all.subrange(0, long.len() as int));
            assert forall|j: int| 0 <= j < short.len() implies short[j] == all[j] by {
                assert(long[j] == short[j]);
                assert(all.subrange(0, long.len() as int)[j] == all[j]);
            }
        }
    }
}

/// Whether no key stands twice among the buckets.
pub open spec fn distinct_keys(m: Seq<BucketView>) -> bool {
    forall|i: int, j: int| 0 <= i < j < m.len() ==> m[i].key != m[j].key
}

/// Index of the first bucket with the key `key`, or the number of buckets
/// where none has it.
pub open spec fn key_index(m: Seq<BucketView>, key: usize) -> int
    decreases m.len(),
{
    if m.len() == 0 || m[0].key == key {
        0
    } else {
        1 + key_index(m.skip(1), key)
    }
}

/// The buckets after `equations` have come in under `key`: at the end of the
/// bucket with that key, or as a new last bucket where there was none.
pub open spec fn with_equations(m: Seq<BucketView>, key: usize, equations: Seq<EquationView>) -> Seq<
    BucketView,
> {
    let i = key_index(m, key);
    if i < m.len() {
        m.update(i, BucketView { key, equations: m[i].equations + equations })
    } else {
        m.push(BucketView { key, equations })
    }
}

/// The buckets of `m1` after those of `m2` have come in, one after the
/// other.
pub open spec fn merged(m1: Seq<BucketView>, m2: Seq<BucketView>) -> Seq<BucketView>
    decreases m2.len(),
{
    if m2.len() == 0 {
        m1
    } else {
        with_equations(merged(m1, m2.drop_last()), m2.last().key, m2.last().equations)
    }
}

/// Whether the equations of `s` rise strictly in the order of equations.
pub open spec fn rising(s: Seq<EquationView>) -> bool {
    forall|i: int, j: int| 0 <= i < j < s.len() ==> s[i].before(s[j])
}

/// Index of the first equation of `s` that does not come before `e`, or the
/// length of `s` where all do.
pub open spec fn place(s: Seq<EquationView>, e: EquationView) -> int
    decreases s.len(),
{
    if s.len() == 0 || !s[0].before(e) {
        0
    } else {
        1 + place(s.skip(1), e)
    }
}

/// The rising list `s` with `e` at its place, where `e` was not in it yet.
pub open spec fn with_equation(s: Seq<EquationView>, e: EquationView) -> Seq<EquationView> {
    let p = place(s, e);
    if p < s.len() && s[p] == e {
        s
    } else {
        s.insert(p, e)
    }
}

/// The equations of `s`, each once, in rising order.
pub open spec fn sorted_set(s: Seq<EquationView>) -> Seq<EquationView>
    decreases s.len(),
{
    if s.len() == 0 {
        Seq::empty()
    } else {
        with_equation(sorted_set(s.drop_last()), s.last())
    }
}

/// What [`key_index`] returns lies among the buckets, no bucket before it
/// has the key and the one that stands there has it.
pub proof fn lemma_key_index(m: Seq<BucketView>, key: usize)
    ensures
        0 <= key_index(m, key) <= m.len(),
        forall|j: int| 0 <= j < key_index(m, key) ==> (#[trigger] m[j]).key != key,
        key_index(m, key) < m.len() ==> m[key_index(m, key)].key == key,
    decreases m.len(),
{
    if m.len() == 0 || m[0].key == key {
    } else {
        lemma_key_index(m.skip(1), key);
        assert forall|j: int| 0 <= j < key_index(m, key) implies (#[trigger] m[j]).key != key by {
            if j > 0 {
                assert(m.skip(1)[j - 1] == m[j]);
            }
        }
    }
}

/// Equations that come in under a key keep the keys distinct, and stand at
/// the end of all equations where the key is new.
pub proof fn lemma_with_equations(m: Seq<BucketView>, key: usize, equations: Seq<EquationView>)
    ensures
        distinct_keys(m) ==> distinct_keys(with_equations(m, key, equations)),
        (forall|j: int| 0 <= j < m.len() ==> (#[trigger] m[j]).key != key) ==> with_equations(
            m,
            key,
            equations,
        ) == m.push(BucketView { key, equations }) && flatten(with_equations(m, key, equations))
            == flatten(m) + equations,
{
    lemma_key_index(m, key);
    let r = with_equations(m, key, equations);
    let i = key_index(m, key);
    if distinct_keys(m) {
        assert forall|a: int, b: int| 0 <= a < b < r.len() implies r[a].key != r[b].key by {
            if i < m.len() {
                assert(m[a].key != m[b].key);
            } else if b < m.len() {
                assert(m[a].key != m[b].key);
            } else {
                assert(m[a].key != key);
            }
        }
    }
    if forall|j: int| 0 <= j < m.len() ==> (#[trigger] m[j]).key != key {
        if i < m.len() {
            assert(m[i].key != key);
        }
        let pushed = m.push(BucketView { key, equations });
        assert(pushed.drop_last() =~= m);
    }
}

/// What [`place`] returns lies in the list, everything before it comes
/// before `e` and what stands there does not.
pub proof fn lemma_place(s: Seq<EquationView>, e: EquationView)
    ensures
        0 <= place(s, e) <= s.len(),
        forall|j: int| 0 <= j < place(s, e) ==> (#[trigger] s[j]).before(e),
        place(s, e) < s.len() ==> !s[place(s, e)].before(e),
    decreases s.len(),
{
    if s.len() == 0 || !s[0].before(e) {
    } else {
        lemma_place(s.skip(1), e);
        assert forall|j: int| 0 <= j < place(s, e) implies (#[trigger] s[j]).before(e) by {
            if j > 0 {
                assert(s.skip(1)[j - 1] == s[j]);
            }
        }
    }
}

/// Putting an equation into a rising list leaves a rising list with that
/// equation more.
pub proof fn lemma_with_equation(s: Seq<EquationView>, e: EquationView)
    requires
        rising(s),
    ensures
        rising(with_equation(s, e)),
        forall|x: EquationView| with_equation(s, e).contains(x) <==> (s.contains(x) || x == e),
{
    lemma_place(s, e);
    let p = place(s, e);
    let r = with_equation(s, e);
    if p < s.len() && s[p] == e {
        assert(s.contains(e));
    } else {
        assert(r.len() == s.len() + 1);
        assert forall|k: int| 0 <= k < r.len() implies #[trigger] r[k] == (if k < p {
            s[k]
        } else if k == p {
            e
        } else {
            s[k - 1]
        }) by {}
        if p < s.len() {
            lemma_equation_order(e, s[p], s[p]);
            assert(e.before(s[p]));
        }
        assert forall|i: int, j: int| 0 <= i < j < r.len() implies r[i].before(r[j]) by {
            if j < p {
                assert(s[i].before(s[j]));
            } else if j == p {
                assert(s[i].before(e));
            } else if i < p {
                assert(s[i].before(s[j - 1]));
            } else if i == p {
                if p < j - 1 {
                    assert(s[p].before(s[j - 1]));
                    lemma_equation_order(e, s[p], s[j - 1]);
                }
            } else {
                assert(s[i - 1].before(s[j - 1]));
            }
        }
        assert forall|x: EquationView| r.contains(x) <==> (s.contains(x) || x == e) by {
            assert(r[p] == e);
            if r.contains(x) && x != e {
                let k = choose|k: int| 0 <= k < r.len() && r[k] == x;
                let k2 = if k < p { k } else { k - 1 };
                assert(s[k2] == x);
            }
            if s.contains(x) {
                let k = choose|k: int| 0 <= k < s.len() && s[k] == x;
                let k2 = if k < p { k } else { k + 1 };
                assert(r[k2] == x);
            }
        }
    }
}

/// The list of [`sorted_set`] rises strictly and holds the equations of `s`
/// and no others.
pub proof fn lemma_sorted_set(s: Seq<EquationView>)
    ensures
        rising(sorted_set(s)),
        forall|x: EquationView| #[trigger] sorted_set(s).contains(x) <==> s.contains(x),
    decreases s.len(),
{
    if s.len() > 0 {
        let before = sorted_set(s.drop_last());
        lemma_sorted_set(s.drop_last());
        lemma_with_equation(before, s.last());
        assert forall|x: EquationView| #[trigger] sorted_set(s).contains(x) <==> s.contains(x) by {
            assert(with_equation(before, s.last()).contains(x) <==> (before.contains(x) || x
                == s.last()));
            assert(before.contains(x) <==> s.drop_last().contains(x));
            if s.drop_last().contains(x) {
                let k = choose|k: int| 0 <= k < s.drop_last().len() && s.drop_last()[k] == x;
                assert(s[k] == x);
            }
            if x == s.last() {
                assert(s[s.len() - 1] == x);
            }
            if s.contains(x) && x != s.last() {
                let k = choose|k: int| 0 <= k < s.len() && s[k] == x;
                assert(s.drop_last()[k] == x);
            }
        }
    }
}

/// Two rising lists that hold the same equations are the same list.
pub proof fn lemma_rising_unique(a: Seq<EquationView>, b: Seq<EquationView>)
    requires
        rising(a),
        rising(b),
        forall|x: EquationView| a.contains(x) <==> b.contains(x),
    ensures
        a == b,
    decreases a.len(),
{
    if a.len() == 0 {
        if b.len() > 0 {
            assert(b.contains(b[0]));
        }
        assert(a =~= b);
    } else if b.len() == 0 {
        assert(a.contains(a[0]));
    } else {
        // the first of each is the least of both
        assert(a.contains(a[0]));
        assert(b.contains(b[0]));
        let i = choose|i: int| 0 <= i < b.len() && b[i] == a[0];
        let j = choose|j: int| 0 <= j < a.len() && a[j] == b[0];
        lemma_equation_order(a[0], b[0], a[0]);
        if i > 0 {
            assert(b[0].before(b[i]));
        }
        if j > 0 {
            assert(a[0].before(a[j]));
        }
        assert(a[0] == b[0]);
        let ra = a.skip(1);
        let rb = b.skip(1);
        assert forall|x: EquationView| ra.contains(x) <==> rb.contains(x) by {
            lemma_equation_order(a[0], x, x);
            if ra.contains(x) {
                let k = choose|k: int| 0 <= k < ra.len() && ra[k] == x;
                assert(a[k + 1] == x);
                assert(a[0].before(a[k + 1]));
                assert(a.contains(x));
                let m = choose|m: int| 0 <= m < b.len() && b[m] == x;
                assert(rb[m - 1] == x);
            }
            if rb.contains(x) {
                let k = choose|k: int| 0 <= k < rb.len() && rb[k] == x;
                assert(b[k + 1] == x);
                assert(b[0].before(b[k + 1]));
                assert(b.contains(x));
                let m = choose|m: int| 0 <= m < a.len() && a[m] == x;
                assert(ra[m - 1] == x);
            }
        }
        assert forall|i: int, j: int| 0 <= i < j < ra.len() implies ra[i].before(ra[j]) by {
            assert(a[i + 1].before(a[j + 1]));
        }
        assert forall|i: int, j: int| 0 <= i < j < rb.len() implies rb[i].before(rb[j]) by {
            assert(b[i + 1].before(b[j + 1]));
        }
        lemma_rising_unique(ra, rb);
        assert(a =~= seq![a[0]] + ra);
        assert(b =~= seq![b[0]] + rb);
    }
}

impl EquationMap {
    /// A map without buckets.
    pub fn new() -> (r: EquationMap)
        ensures
            r@ == Seq::<BucketView>::empty(),
    {
        let r = EquationMap { buckets: Vec::new() };
        assert(r@ =~= Seq::<BucketView>::empty());
        r
    }

    /// Puts `equations` at the end of the bucket with the key `key`, or
    /// makes them a new last bucket where no bucket has that key.
    pub fn append(&mut self, key: usize, equations: Vec<Equation>)
        ensures
            final(self)@ == with_equations(old(self)@, key, views(equations@)),
            distinct_keys(old(self)@) ==> distinct_keys(final(self)@),
    {
        let mut i: usize = 0;
        proof {
            assert(self@.skip(0) =~= self@);
            lemma_with_equations(self@, key, views(equations@));
        }
        while i < self.buckets.len() && self.buckets[i].key != key
            invariant
                i <= self.buckets.len(),
                *self == *old(self),
                key_index(self@, key) == i + key_index(self@.skip(i as int), key),
            decreases self.buckets.len() - i,
        {
            proof {
                assert(self@.skip(i as int).skip(1) =~= self@.skip(i + 1));
            }
            i += 1;
        }
        let mut equations = equations;
        if i < self.buckets.len() {
            let mut bucket = self.buckets.remove(i);
            let ghost before = views(bucket.equations@);
            let ghost more = views(equations@);
            bucket.equations.append(&mut equations);
            proof {
                assert(views(bucket.equations@) =~= before + more);
            }
            self.buckets.insert(i, bucket);
            proof {
                assert(self@ =~= with_equations(old(self)@, key, more));
            }
        } else {
            self.buckets.push(Bucket { key, equations });
            proof {
                assert(self@ =~= with_equations(old(self)@, key, views(equations@)));
            }
        }
    }
}

/// Puts the buckets of `map2` into `map1`, one after the other: the
/// equations of a bucket come to stand at the end of the bucket of `map1`
/// with the same key, or the bucket becomes a new last bucket.
pub fn merge_maps(map1: &mut EquationMap, map2: EquationMap)
    ensures
        final(map1)@ == merged(old(map1)@, map2@),
        distinct_keys(old(map1)@) ==> distinct_keys(final(map1)@),
{
    let mut map2 = map2;
    let ghost all = map2@;
    let mut done: usize = 0;
    let total = map2.buckets.len();
    while map2.buckets.len() > 0
        invariant
            done + map2.buckets.len() == total,
            total == all.len(),
            map2@ == all.skip(done as int),
            map1@ == merged(old(map1)@, all.take(done as int)),
            distinct_keys(old(map1)@) ==> distinct_keys(map1@),
        decreases map2.buckets.len(),
    {
        let ghost prev = map2@;
        let bucket = map2.buckets.remove(0);
        proof {
            assert(bucket@ == prev[0]);
            assert(prev[0] == all[done as int]);
            assert forall|k: int| 0 <= k < map2@.len() implies map2@[k] == all.skip(done + 1)[k] by {
                assert(map2@[k] == prev[k + 1]);
            }
            assert(map2@ =~= all.skip(done + 1));
            assert(all.take(done + 1).drop_last() =~= all.take(done as int));
        }
        map1.append(bucket.key, bucket.equations);
        done += 1;
    }
    proof {
        assert(all.take(done as int) =~= all);
    }
}

/// Puts `eq` at its place in the rising list, where it is not in it yet.
pub fn insert_sorted(list: &mut Vec<Equation>, eq: Equation)
    requires
        rising(views(old(list)@)),
    ensures
        views(final(list)@) == with_equation(views(old(list)@), eq@),
        rising(views(final(list)@)),
{
    let ghost s = views(list@);
    let mut p: usize = 0;
    proof {
        assert(s.skip(0) =~= s);
        lemma_with_equation(s, eq@);
    }
    while p < list.len() && list[p].precedes(&eq)
        invariant
            p <= list.len(),
            *list == *old(list),
            s == views(list@),
            place(s, eq@) == p + place(s.skip(p as int), eq@),
        decreases list.len() - p,
    {
        proof {
            assert(s.skip(p as int).skip(1) =~= s.skip(p + 1));
        }
        p += 1;
    }
    if p < list.len() && list[p].same(&eq) {
    } else {
        list.insert(p, eq);
        proof {
            assert(views(list@) =~= s.insert(p as int, eq@));
        }
    }
}

/// All equations of the map, each once, in rising order.
pub fn merge_equations(map: &EquationMap) -> (merged_equations: Vec<Equation>)
    ensures
        views(merged_equations@) == sorted_set(flatten(map@)),
        rising(views(merged_equations@)),
        forall|x: EquationView| #[trigger]
            views(merged_equations@).contains(x) <==> flatten(map@).contains(x),
{
    let mut merged_equations: Vec<Equation> = Vec::new();
    let mut b: usize = 0;
    proof {
        assert(views(merged_equations@) =~= sorted_set(flatten(map@.take(0))));
    }
    while b < map.buckets.len()
        invariant
            b <= map.buckets.len(),
            views(merged_equations@) == sorted_set(flatten(map@.take(b as int))),
        decreases map.buckets.len() - b,
    {
        let eqs = &map.buckets[b].equations;
        let ghost start = flatten(map@.take(b as int));
        proof {
            lemma_flatten_take(map@, b as int);
            assert(map@[b as int].equations == views(eqs@));
            assert(start + views(eqs@).take(0) =~= start);
        }
        let mut e: usize = 0;
        while e < eqs.len()
            invariant
                e <= eqs.len(),
                views(merged_equations@) == sorted_set(start + views(eqs@).take(e as int)),
            decreases eqs.len() - e,
        {
            proof {
                lemma_sorted_set(start + views(eqs@).take(e as int));
                let longer = start + views(eqs@).take(e + 1);
                assert(longer.drop_last() =~= start + views(eqs@).take(e as int));
                assert(longer.last() == eqs@[e as int]@);
            }
            insert_sorted(&mut merged_equations, eqs[e].clone());
            e += 1;
        }
        proof {
            assert(views(eqs@).take(eqs.len() as int) =~= views(eqs@));
        }
        b += 1;
    }
    proof {
        assert(map@.take(map@.len() as int) =~= map@);
        lemma_sorted_set(flatten(map@));
    }
    merged_equations
}

/// Whether `v` is among `numbers`.
pub fn contains_number(numbers: &[i32], v: i32) -> (r: bool)
    ensures
        r == numbers@.contains(v),
{
    let mut i: usize = 0;
    while i < numbers.len()
        invariant
            i <= numbers.len(),
            forall|j: int| 0 <= j < i ==> numbers@[j] != v,
        decreases numbers.len() - i,
    {
        if numbers[i] == v {
            return true;
        }
        i += 1;
    }
    false
}

/// Looks among the known equations for one that gives a variable of
/// `analysis` other than `except`, and returns that variable with the right
/// side of the first such equation, or an error where there is none.
pub fn is_in_extracted(extracted: &EquationMap, analysis: &[i32], except: &i32) -> (r: Result<
    (i32, Expression),
    (),
>)
    requires
        solved_form(flatten(extracted@)),
    ensures
        match r {
            Ok((i, right)) => {
                let k = first_usable(flatten(extracted@), analysis@, *except);
                &&& 0 <= k < flatten(extracted@).len()
                &&& flatten(extracted@)[k].left == ExpressionView::Val(Value::Var(i))
                &&& right@ == flatten(extracted@)[k].right
            },
            Err(_) => first_usable(flatten(extracted@), analysis@, *except) == flatten(
                extracted@,
            ).len(),
        },
{
    let ghost all = flatten(extracted@);
    let mut b: usize = 0;
    while b < extracted.buckets.len()
        invariant
            b <= extracted.buckets.len(),
            all == flatten(extracted@),
            solved_form(all),
            flatten(extracted@.take(b as int)).len() <= all.len(),
            forall|j: int|
                0 <= j < flatten(extracted@.take(b as int)).len() ==> !usable(
                    #[trigger] all[j],
                    analysis@,
                    *except,
                ),
        decreases extracted.buckets.len() - b,
    {
        let eqs = &extracted.buckets[b].equations;
        let ghost start = flatten(extracted@.take(b as int)).len() as int;
        proof {
            lemma_flatten_take(extracted@, b as int);
            lemma_flatten_take(extracted@, b + 1);
            assert(extracted@[b as int].equations == views(eqs@));
        }
        let ghost upto = flatten(extracted@.take(b + 1));
        assert(upto.len() == start + eqs.len());
        assert forall|e: int| 0 <= e < eqs.len() implies all[start + e] == eqs@[e]@ by {
            assert(all.subrange(0, upto.len() as int)[start + e] == upto[start + e]);
        }
        let mut e: usize = 0;
        while e < eqs.len()
            invariant
                e <= eqs.len(),
                all == flatten(extracted@),
                solved_form(all),
                0 <= start,
                start + eqs.len() <= all.len(),
                forall|x: int| 0 <= x < eqs.len() ==> all[start + x] == (#[trigger] eqs@[x])@,
                forall|j: int| 0 <= j < start + e ==> !usable(#[trigger] all[j], analysis@, *except),
            decreases eqs.len() - e,
        {
            let eq = &eqs[e];
            assert(all[start + e] == eq@);
            if let Expression::Val(Value::Var(i)) = eq.left {
                if i != *except && contains_number(analysis, i) {
                    proof {
                        lemma_first_usable_is(all, analysis@, *except, start + e);
                    }
                    return Ok((i, eq.right.clone()));
                }
            }
            e += 1;
        }
        b += 1;
    }
    proof {
        assert(extracted@.take(extracted@.len() as int) =~= extracted@);
        lemma_first_usable_is(all, analysis@, *except, all.len() as int);
    }
    Err(())
}

/// What [`constants_of`] and [`partial_of`] pick has two terms, or another
/// number of them, and is in solved form where the list is.
pub proof fn lemma_filtered(s: Seq<EquationView>)
    ensures
        forall|k: int| 0 <= k < constants_of(s).len() ==> (#[trigger] constants_of(s)[k]).members() == 2,
        forall|k: int| 0 <= k < partial_of(s).len() ==> (#[trigger] partial_of(s)[k]).members() != 2,
        forall|x: EquationView| #[trigger] constants_of(s).contains(x) ==> s.contains(x),
        forall|x: EquationView| #[trigger] partial_of(s).contains(x) ==> s.contains(x),
        forall|x: EquationView| #[trigger]
            s.contains(x) ==> constants_of(s).contains(x) || partial_of(s).contains(x),
        solved_form(s) ==> solved_form(constants_of(s)) && solved_form(partial_of(s)),
    decreases s.len(),
{
    if s.len() > 0 {
        let short = s.drop_last();
        lemma_filtered(short);
        let c = constants_of(s);
        let p = partial_of(s);
        assert forall|x: EquationView| #[trigger] s.contains(x) implies c.contains(x)
            || p.contains(x) by {
            let k = choose|k: int| 0 <= k < s.len() && s[k] == x;
            if k < s.len() - 1 {
                assert(short[k] == x);
                assert(short.contains(x));
                if constants_of(short).contains(x) {
                    let j = choose|j: int|
                        0 <= j < constants_of(short).len() && constants_of(short)[j] == x;
                    assert(c[j] == x);
                } else {
                    let j = choose|j: int|
                        0 <= j < partial_of(short).len() && partial_of(short)[j] == x;
                    assert(p[j] == x);
                }
            } else if x.members() == 2 {
                assert(c[c.len() - 1] == x);
            } else {
                assert(p[p.len() - 1] == x);
            }
        }
        assert forall|x: EquationView| #[trigger] c.contains(x) implies s.contains(x) by {
            let j = choose|j: int| 0 <= j < c.len() && c[j] == x;
            if j < constants_of(short).len() {
                assert(constants_of(short)[j] == x);
                assert(constants_of(short).contains(x));
                assert(short.contains(x));
                let k = choose|k: int| 0 <= k < short.len() && short[k] == x;
                assert(s[k] == x);
            } else {
                assert(s[s.len() - 1] == x);
            }
        }
        assert forall|x: EquationView| #[trigger] p.contains(x) implies s.contains(x) by {
            let j = choose|j: int| 0 <= j < p.len() && p[j] == x;
            if j < partial_of(short).len() {
                assert(partial_of(short)[j] == x);
                assert(partial_of(short).contains(x));
                assert(short.contains(x));
                let k = choose|k: int| 0 <= k < short.len() && short[k] == x;
                assert(s[k] == x);
            } else {
                assert(s[s.len() - 1] == x);
            }
        }
        if solved_form(s) {
            assert forall|k: int| 0 <= k < short.len() implies (
            #[trigger] short[k]).left matches ExpressionView::Val(Value::Var(_)) by {
                assert(short[k] == s[k]);
            }
            assert(s[s.len() - 1] == s.last());
        }
    }
}

/// A list that holds only equations of another list shares what holds of
/// each equation of that list.
pub proof fn lemma_contained_form(all: Seq<EquationView>, part: Seq<EquationView>)
    requires
        forall|x: EquationView| #[trigger] part.contains(x) ==> all.contains(x),
    ensures
        solved_form(all) ==> solved_form(part),
        (forall|k: int| 0 <= k < all.len() ==> (#[trigger] all[k]).members() == 2) ==> (forall|
            k: int,
        |
            0 <= k < part.len() ==> (#[trigger] part[k]).members() == 2),
        (forall|k: int| 0 <= k < all.len() ==> (#[trigger] all[k]).members() != 2) ==> (forall|
            k: int,
        |
            0 <= k < part.len() ==> (#[trigger] part[k]).members() != 2),
{
    assert forall|k: int| 0 <= k < part.len() implies exists|j: int|
        0 <= j < all.len() && all[j] == #[trigger] part[k] by {
        assert(part.contains(part[k]));
    }
    if solved_form(all) {
        assert forall|k: int| 0 <= k < part.len() implies (
        #[trigger] part[k]).left matches ExpressionView::Val(Value::Var(_)) by {
            let j = choose|j: int| 0 <= j < all.len() && all[j] == part[k];
            assert(all[j].left matches ExpressionView::Val(Value::Var(_)));
        }
    }
    if forall|k: int| 0 <= k < all.len() ==> (#[trigger] all[k]).members() == 2 {
        assert forall|k: int| 0 <= k < part.len() implies (#[trigger] part[k]).members() == 2 by {
            let j = choose|j: int| 0 <= j < all.len() && all[j] == part[k];
            assert(all[j].members() == 2);
        }
    }
    if forall|k: int| 0 <= k < all.len() ==> (#[trigger] all[k]).members() != 2 {
        assert forall|k: int| 0 <= k < part.len() implies (#[trigger] part[k]).members() != 2 by {
            let j = choose|j: int| 0 <= j < all.len() && all[j] == part[k];
            assert(all[j].members() != 2);
        }
    }
}

/// What the pass has derived so far, in the order of derivation.
pub struct Known {
    /// The equations with two terms: a variable and what it equals.
    pub constants: Seq<EquationView>,
    /// The equations with more terms.
    pub equations: Seq<EquationView>,
}

/// The source equation solved for `var` with what is known of one other of
/// its left variables put in: the first usable constant equation, else the
/// first usable partial equation, else nothing. `None` where `var` comes
/// back on the right side.
pub open spec fn derived(source: EquationView, var: i32, known: Known) -> Option<EquationView> {
    let analysis = variables(source.left.terms());
    let c = first_usable(known.constants, analysis, var);
    let e = first_usable(known.equations, analysis, var);
    if c < known.constants.len() {
        source.evaluated(var, known.constants[c].left_variable(), known.constants[c].right.terms())
    } else if e < known.equations.len() {
        source.evaluated(var, known.equations[e].left_variable(), known.equations[e].right.terms())
    } else {
        source.evaluated(var, -1i32, Seq::empty())
    }
}

/// What the source equation gives for the first `n` of its left variables:
/// the derivations that succeed, in the order of the variables.
pub open spec fn derivations(source: EquationView, known: Known, n: nat) -> Seq<EquationView>
    decreases n,
{
    if n == 0 {
        Seq::empty()
    } else {
        let rest = derivations(source, known, (n - 1) as nat);
        match derived(source, variables(source.left.terms())[n - 1], known) {
            Some(e) => rest.push(e),
            None => rest,
        }
    }
}

/// The equations of `s` with two terms, in their order.
pub open spec fn constants_of(s: Seq<EquationView>) -> Seq<EquationView>
    decreases s.len(),
{
    if s.len() == 0 {
        Seq::empty()
    } else if s.last().members() == 2 {
        constants_of(s.drop_last()).push(s.last())
    } else {
        constants_of(s.drop_last())
    }
}

/// The equations of `s` with a number of terms other than two, in their
/// order.
pub open spec fn partial_of(s: Seq<EquationView>) -> Seq<EquationView>
    decreases s.len(),
{
    if s.len() == 0 {
        Seq::empty()
    } else if s.last().members() != 2 {
        partial_of(s.drop_last()).push(s.last())
    } else {
        partial_of(s.drop_last())
    }
}

/// What is known after the first `n` source equations: each source adds its
/// derivations, made with what was known before it.
pub open spec fn known_after(sources: Seq<EquationView>, n: nat) -> Known
    decreases n,
{
    if n == 0 {
        Known { constants: Seq::empty(), equations: Seq::empty() }
    } else {
        let before = known_after(sources, (n - 1) as nat);
        let source = sources[n - 1];
        let found = derivations(source, before, variables(source.left.terms()).len());
        Known {
            constants: before.constants + constants_of(found),
            equations: before.equations + partial_of(found),
        }
    }
}

/// No bucket or the one bucket `key` with `equations`, where there are any.
pub open spec fn bucket_of(key: usize, equations: Seq<EquationView>) -> Seq<BucketView> {
    if equations.len() == 0 {
        Seq::empty()
    } else {
        seq![BucketView { key, equations }]
    }
}

/// One more equation under `key` in what [`bucket_of`] describes.
pub proof fn lemma_bucket_of_push(key: usize, equations: Seq<EquationView>, e: EquationView)
    ensures
        with_equations(bucket_of(key, equations), key, seq![e]) == bucket_of(key, equations.push(e)),
{
    let m = bucket_of(key, equations);
    if equations.len() == 0 {
        assert(seq![e] =~= equations.push(e));
        assert(with_equations(m, key, seq![e]) =~= bucket_of(key, equations.push(e)));
    } else {
        assert(m[0].key == key);
        assert(key_index(m, key) == 0);
        assert(equations + seq![e] =~= equations.push(e));
        assert(with_equations(m, key, seq![e]) =~= bucket_of(key, equations.push(e)));
    }
}

/// What [`bucket_of`] describes comes into a map without its key as its
/// equations at the end.
pub proof fn lemma_merged_bucket(m: Seq<BucketView>, key: usize, equations: Seq<EquationView>)
    requires
        forall|j: int| 0 <= j < m.len() ==> (#[trigger] m[j]).key < key,
    ensures
        flatten(merged(m, bucket_of(key, equations))) == flatten(m) + equations,
        forall|j: int|
            0 <= j < merged(m, bucket_of(key, equations)).len() ==> (#[trigger] merged(
                m,
                bucket_of(key, equations),
            )[j]).key <= key,
{
    let b = bucket_of(key, equations);
    if equations.len() == 0 {
        assert(flatten(m) + equations =~= flatten(m));
    } else {
        assert(b.drop_last() =~= Seq::<BucketView>::empty());
        assert(merged(m, b.drop_last()) == m);
        lemma_with_equations(m, key, equations);
    }
}

/// A derived equation has its variable alone on the left.
pub proof fn lemma_derived_left(source: EquationView, var: i32, known: Known)
    ensures
        derived(source, var, known) matches Some(e) ==> e.left == ExpressionView::Val(Value::Var(var)),
{
}

/// The constant and the partial equations that the elimination pass gives.
pub struct Extraction {
    pub constants: Vec<Equation>,
    pub equations: Vec<Equation>,
}

/// Runs the elimination pass over the source equations, in their order.
///
/// Each source equation is solved for each variable of its left side. Where
/// an equation for another of its left variables is known by then, the first
/// such constant equation, or else the first such partial equation, is put
/// in before. A derivation in which the variable comes back on the right
/// side is dropped. What the equations of one source give becomes known only
/// when that source is done. The result holds each derived equation once,
/// in rising order: those with two terms as constants, the others as partial
/// equations.
pub fn extract(equations: &Vec<Equation>) -> (r: Extraction)
    ensures
        views(r.constants@) == sorted_set(
            known_after(views(equations@), equations.len() as nat).constants,
        ),
        views(r.equations@) == sorted_set(
            known_after(views(equations@), equations.len() as nat).equations,
        ),
        rising(views(r.constants@)),
        rising(views(r.equations@)),
        solved_form(views(r.constants@)),
        solved_form(views(r.equations@)),
        forall|k: int| 0 <= k < r.constants.len() ==> (#[trigger] r.constants@[k])@.members() == 2,
        forall|k: int| 0 <= k < r.equations.len() ==> (#[trigger] r.equations@[k])@.members() != 2,
{
    let ghost sources = views(equations@);
    let mut extracted_constants = EquationMap::new();
    let mut extracted_equations = EquationMap::new();

    let mut index: usize = 0;
    while index < equations.len()
        invariant
            index <= equations.len(),
            sources == views(equations@),
            flatten(extracted_constants@) == known_after(sources, index as nat).constants,
            flatten(extracted_equations@) == known_after(sources, index as nat).equations,
            solved_form(flatten(extracted_constants@)),
            solved_form(flatten(extracted_equations@)),
            forall|j: int|
                0 <= j < extracted_constants@.len() ==> (#[trigger] extracted_constants@[j]).key
                    < index,
            forall|j: int|
                0 <= j < extracted_equations@.len() ==> (#[trigger] extracted_equations@[j]).key
                    < index,
            forall|k: int|
                0 <= k < flatten(extracted_constants@).len() ==> (#[trigger] flatten(
                    extracted_constants@,
                )[k]).members() == 2,
            forall|k: int|
                0 <= k < flatten(extracted_equations@).len() ==> (#[trigger] flatten(
                    extracted_equations@,
                )[k]).members() != 2,
        decreases equations.len() - index,
    {
        let eq = &equations[index];
        let ghost known = known_after(sources, index as nat);
        let mut tmp_extracted_constants = EquationMap::new();
        let mut tmp_extracted_equations = EquationMap::new();

        let analysis = eq.analyse();
        let mut v: usize = 0;
        proof {
            assert(sources[index as int] == eq@);
            assert(tmp_extracted_constants@ =~= bucket_of(index, Seq::empty()));
            assert(tmp_extracted_equations@ =~= bucket_of(index, Seq::empty()));
        }
        while v < analysis.len()
            invariant
                v <= analysis.len(),
                analysis@ == variables(eq@.left.terms()),
                known.constants == flatten(extracted_constants@),
                known.equations == flatten(extracted_equations@),
                solved_form(flatten(extracted_constants@)),
                solved_form(flatten(extracted_equations@)),
                tmp_extracted_constants@ == bucket_of(
                    index,
                    constants_of(derivations(eq@, known, v as nat)),
                ),
                tmp_extracted_equations@ == bucket_of(
                    index,
                    partial_of(derivations(eq@, known, v as nat)),
                ),
                solved_form(derivations(eq@, known, v as nat)),
            decreases analysis.len() - v,
        {
            let var = analysis[v];
            let ghost found = derivations(eq@, known, v as nat);
            let (sub_for, ex) = match is_in_extracted(
                &extracted_constants,
                analysis.as_slice(),
                &var,
            ) {
                Ok(ok) => ok,
                Err(_) => {
                    match is_in_extracted(&extracted_equations, analysis.as_slice(), &var) {
                        Ok(ok) => ok,
                        Err(_) => (-1, Expression::Xor(Vec::new())),
                    }
                },
            };

            let sub = ex.to_terms();

            proof {
                assert(eq@.evaluated(var, sub_for, sub@) == derived(eq@, var, known));
                lemma_derived_left(eq@, var, known);
            }
            match eq.evaluate(&var, sub_for, sub) {
                Ok(derived_eq) => {
                    proof {
                        let longer = found.push(derived_eq@);
                        assert(derivations(eq@, known, (v + 1) as nat) == longer);
                        assert(longer.drop_last() =~= found);
                        lemma_bucket_of_push(index, constants_of(found), derived_eq@);
                        lemma_bucket_of_push(index, partial_of(found), derived_eq@);
                    }
                    let mut one: Vec<Equation> = Vec::new();
                    if derived_eq.right.term_count() < usize::MAX && derived_eq.count_members()
                        == 2 {
                        one.push(derived_eq);
                        proof {
                            assert(views(one@) =~= seq![one@[0]@]);
                        }
                        tmp_extracted_constants.append(index, one);
                    } else {
                        one.push(derived_eq);
                        proof {
                            assert(views(one@) =~= seq![one@[0]@]);
                        }
                        tmp_extracted_equations.append(index, one);
                    }
                },
                Err(_) => {
                    proof {
                        assert(derivations(eq@, known, (v + 1) as nat) == found);
                    }
                },
            }
            v += 1;
        }

        proof {
            let found = derivations(eq@, known, analysis@.len());
            lemma_merged_bucket(extracted_constants@, index, constants_of(found));
            lemma_merged_bucket(extracted_equations@, index, partial_of(found));
            lemma_filtered(found);
        }
        merge_maps(&mut extracted_constants, tmp_extracted_constants);
        merge_maps(&mut extracted_equations, tmp_extracted_equations);
        index += 1;
    }

    let constants = merge_equations(&extracted_constants);
    let partial = merge_equations(&extracted_equations);
    proof {
        lemma_contained_form(flatten(extracted_constants@), views(constants@));
        lemma_contained_form(flatten(extracted_equations@), views(partial@));
        assert forall|k: int| 0 <= k < constants.len() implies (#[trigger] constants@[k])@.members()
            == 2 by {
            assert(views(constants@)[k].members() == 2);
        }
        assert forall|k: int| 0 <= k < partial.len() implies (#[trigger] partial@[k])@.members()
            != 2 by {
            assert(views(partial@)[k].members() != 2);
        }
    }
    Extraction { constants, equations: partial }
}

/// Whether `e` gives a constant to a variable of the left side of one of
/// `sources`.
pub open spec fn constant_from(e: EquationView, sources: Seq<EquationView>) -> bool {
    &&& e.is_constant()
    &&& exists|i: int|
        0 <= i < sources.len() && (#[trigger] sources[i]).left.terms().contains(
            Value::Var(e.left_variable()),
        )
}

/// Whether each of `sources` has a constant alone on its right side.
pub open spec fn constant_right_sides(sources: Seq<EquationView>) -> bool {
    forall|i: int|
        0 <= i < sources.len() ==> (#[trigger] sources[i]).right == ExpressionView::Val(Value::True)
            || sources[i].right == ExpressionView::Val(Value::False)
}

/// Of a source with a constant alone on the right, each derivation with two
/// terms gives a constant to a variable of the left side.
pub proof fn lemma_derivations_constant(source: EquationView, known: Known, n: nat)
    requires
        source.right == ExpressionView::Val(Value::True) || source.right == ExpressionView::Val(
            Value::False,
        ),
        n <= variables(source.left.terms()).len(),
    ensures
        forall|k: int|
            0 <= k < derivations(source, known, n).len() ==> {
                let e = #[trigger] derivations(source, known, n)[k];
                &&& source.left.terms().contains(Value::Var(e.left_variable()))
                &&& e.left == ExpressionView::Val(Value::Var(e.left_variable()))
                &&& (e.members() == 2 ==> e.is_constant())
            },
    decreases n,
{
    if n > 0 {
        lemma_derivations_constant(source, known, (n - 1) as nat);
        let analysis = variables(source.left.terms());
        let var = analysis[n - 1];
        lemma_variables(source.left.terms());
        assert(analysis.contains(var));
        let c = first_usable(known.constants, analysis, var);
        let e = first_usable(known.equations, analysis, var);
        if c < known.constants.len() {
            lemma_evaluated_constant(
                source,
                var,
                known.constants[c].left_variable(),
                known.constants[c].right.terms(),
            );
        } else if e < known.equations.len() {
            lemma_evaluated_constant(
                source,
                var,
                known.equations[e].left_variable(),
                known.equations[e].right.terms(),
            );
        } else {
            lemma_evaluated_constant(source, var, -1i32, Seq::empty());
        }
    }
}

/// Where every source has a constant alone on its right side, every
/// equation with two terms that the pass derives gives a constant to a
/// variable of the left side of a source.
pub proof fn lemma_constants_from_sources(sources: Seq<EquationView>, n: nat)
    requires
        constant_right_sides(sources),
        n <= sources.len(),
    ensures
        forall|k: int|
            0 <= k < known_after(sources, n).constants.len() ==> constant_from(
                #[trigger] known_after(sources, n).constants[k],
                sources,
            ),
    decreases n,
{
    if n > 0 {
        lemma_constants_from_sources(sources, (n - 1) as nat);
        let before = known_after(sources, (n - 1) as nat);
        let source = sources[n - 1];
        let found = derivations(source, before, variables(source.left.terms()).len());
        lemma_derivations_constant(source, before, variables(source.left.terms()).len());
        lemma_filtered(found);
        let all = known_after(sources, n).constants;
        assert forall|k: int| 0 <= k < all.len() implies constant_from(#[trigger] all[k], sources) by {
            if k >= before.constants.len() {
                let x = constants_of(found)[k - before.constants.len()];
                assert(constants_of(found).contains(x));
                assert(found.contains(x));
                let j = choose|j: int| 0 <= j < found.len() && found[j] == x;
                assert(found[j].members() == 2);
                assert(sources[n - 1].left.terms().contains(Value::Var(x.left_variable())));
            }
        }
    }
}

} // verus!
