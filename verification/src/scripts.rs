//! From scripts to an answer: each script constrains the variables that name
//! it to an odd number of `true` values. The equations of the scripts go
//! through the elimination pass, smaller scripts first, and the search
//! counts the assignments that are left.

use crate::equation::{lemma_single_term, lemma_variables, occurrences, variables};
use crate::laws::{mentions_only, occurs_oddly, well_posed};
use crate::expr::{copy_terms, Equation, EquationView, Expression, ExpressionView, Value};
use crate::extract::{
    constant_from, constant_right_sides, contains_number, extract, known_after,
    lemma_constants_from_sources, lemma_sorted_set, sorted_set,
};
use crate::solver::{all_solutions, bitstring, solve, views};
use crate::text::{
    characters, field_numbers, fields, lemma_field, number_within, numbers_of, parse_number,
    split_fields,
};
use vstd::prelude::*;

verus! {

/// The lines as lists of numbers.
pub open spec fn line_views(lines: Seq<Vec<i32>>) -> Seq<Seq<i32>> {
    lines.map_values(|l: Vec<i32>| l@)
}

/// The term lists of a list of vectors.
pub open spec fn term_lists(lefts: Seq<Vec<Value>>) -> Seq<Seq<Value>> {
    lefts.map_values(|l: Vec<Value>| l@)
}

/// The variables among the first `n` whose line names the script `a`. The
/// variable of the `i`-th line, counted from 0, has the number `i + 1`.
pub open spec fn script_variables(lines: Seq<Seq<i32>>, a: i32, n: nat) -> Seq<Value>
    decreases n,
{
    if n == 0 {
        Seq::empty()
    } else if lines[n - 1].contains(a) {
        script_variables(lines, a, (n - 1) as nat).push(Value::Var(n as i32))
    } else {
        script_variables(lines, a, (n - 1) as nat)
    }
}

/// The variable lists of the scripts 1 to `m`, in the order of the scripts.
pub open spec fn raw_scripts(lines: Seq<Seq<i32>>, m: nat) -> Seq<Seq<Value>>
    decreases m,
{
    if m == 0 {
        Seq::empty()
    } else {
        raw_scripts(lines, (m - 1) as nat).push(script_variables(lines, m as i32, lines.len()))
    }
}

/// Index of the first list of `s` that is longer than `len`, or the length
/// of `s` where none is.
pub open spec fn place_by_length(s: Seq<Seq<Value>>, len: nat) -> int
    decreases s.len(),
{
    if s.len() == 0 || s[0].len() > len {
        0
    } else {
        1 + place_by_length(s.skip(1), len)
    }
}

/// The lists of `s` by rising length; lists of one length keep their order.
pub open spec fn sorted_by_length(s: Seq<Seq<Value>>) -> Seq<Seq<Value>>
    decreases s.len(),
{
    if s.len() == 0 {
        Seq::empty()
    } else {
        let sorted = sorted_by_length(s.drop_last());
        sorted.insert(place_by_length(sorted, s.last().len()), s.last())
    }
}

/// The constraint of one script: its variables come to `true`.
pub open spec fn script_equation(vars: Seq<Value>) -> EquationView {
    EquationView { left: ExpressionView::Xor(vars), right: ExpressionView::Val(Value::True) }
}

/// The equations of the scripts 1 to `script_count`, smaller scripts first.
pub open spec fn script_system(lines: Seq<Seq<i32>>, script_count: i32) -> Seq<EquationView> {
    sorted_by_length(
        raw_scripts(
            lines,
            if script_count > 0 {
                script_count as nat
            } else {
                0
            },
        ),
    ).map_values(|vars: Seq<Value>| script_equation(vars))
}

/// The variables 1 to `variable_count`.
pub open spec fn numbered(variable_count: i32) -> Seq<i32> {
    Seq::new(
        if variable_count > 0 {
            variable_count as nat
        } else {
            0
        },
        |i: int| (i + 1) as i32,
    )
}

/// What [`place_by_length`] returns lies in the list.
pub proof fn lemma_place_by_length(s: Seq<Seq<Value>>, len: nat)
    ensures
        0 <= place_by_length(s, len) <= s.len(),
    decreases s.len(),
{
    if s.len() == 0 || s[0].len() > len {
    } else {
        lemma_place_by_length(s.skip(1), len);
    }
}

/// Sorting by length keeps the number of lists and brings in no list.
pub proof fn lemma_sorted_by_length(s: Seq<Seq<Value>>)
    ensures
        sorted_by_length(s).len() == s.len(),
        forall|x: Seq<Value>| #[trigger] sorted_by_length(s).contains(x) ==> s.contains(x),
    decreases s.len(),
{
    if s.len() > 0 {
        let short = s.drop_last();
        let sorted = sorted_by_length(short);
        lemma_sorted_by_length(short);
        lemma_place_by_length(sorted, s.last().len());
        let p = place_by_length(sorted, s.last().len());
        let r = sorted_by_length(s);
        assert forall|x: Seq<Value>| #[trigger] r.contains(x) implies s.contains(x) by {
            let k = choose|k: int| 0 <= k < r.len() && r[k] == x;
            if k == p {
                assert(s[s.len() - 1] == x);
            } else {
                let k2 = if k < p { k } else { k - 1 };
                assert(sorted[k2] == x);
                assert(sorted.contains(x));
                assert(short.contains(x));
                let j = choose|j: int| 0 <= j < short.len() && short[j] == x;
                assert(s[j] == x);
            }
        }
    }
}

/// The variables of a script have numbers from 1 to the number of lines
/// looked at.
pub proof fn lemma_script_variables(lines: Seq<Seq<i32>>, a: i32, n: nat)
    requires
        n <= i32::MAX,
    ensures
        forall|k: int|
            0 <= k < script_variables(lines, a, n).len() ==> (#[trigger] script_variables(
                lines,
                a,
                n,
            )[k] matches Value::Var(v) && 1 <= v <= n),
    decreases n,
{
    if n > 0 {
        lemma_script_variables(lines, a, (n - 1) as nat);
    }
}

/// Each list of [`raw_scripts`] is the variable list of a script.
pub proof fn lemma_raw_scripts(lines: Seq<Seq<i32>>, m: nat)
    ensures
        raw_scripts(lines, m).len() == m,
        forall|k: int|
            0 <= k < m ==> #[trigger] raw_scripts(lines, m)[k] == script_variables(
                lines,
                (k + 1) as i32,
                lines.len(),
            ),
    decreases m,
{
    if m > 0 {
        lemma_raw_scripts(lines, (m - 1) as nat);
    }
}

/// The equations of the scripts have a constant alone on the right, and the
/// variables on their left sides have numbers from 1 to the number of
/// lines.
pub proof fn lemma_script_system(lines: Seq<Seq<i32>>, script_count: i32)
    requires
        lines.len() <= i32::MAX,
    ensures
        constant_right_sides(script_system(lines, script_count)),
        script_system(lines, script_count).len() == (if script_count > 0 {
            script_count as nat
        } else {
            0
        }),
        forall|i: int, v: i32|
            0 <= i < script_system(lines, script_count).len() && #[trigger] script_system(
                lines,
                script_count,
            )[i].left.terms().contains(Value::Var(v)) ==> 1 <= v <= lines.len(),
{
    let m: nat = if script_count > 0 { script_count as nat } else { 0 };
    let raw = raw_scripts(lines, m);
    let sorted = sorted_by_length(raw);
    let system = script_system(lines, script_count);
    lemma_sorted_by_length(raw);
    lemma_raw_scripts(lines, m);
    assert forall|i: int, v: i32|
        0 <= i < system.len() && #[trigger] system[i].left.terms().contains(
            Value::Var(v),
        ) implies 1 <= v <= lines.len() by {
        let vars = sorted[i];
        assert(sorted.contains(vars));
        assert(raw.contains(vars));
        let k = choose|k: int| 0 <= k < raw.len() && raw[k] == vars;
        lemma_script_variables(lines, (k + 1) as i32, lines.len());
        let j = choose|j: int| 0 <= j < vars.len() && vars[j] == Value::Var(v);
        assert(script_variables(lines, (k + 1) as i32, lines.len())[j] == Value::Var(v));
    }
}

/// A variable of a script occurs once among the variables of the script.
pub proof fn lemma_script_variables_once(lines: Seq<Seq<i32>>, a: i32, n: nat, v: i32)
    requires
        n <= i32::MAX,
    ensures
        occurrences(script_variables(lines, a, n), Value::Var(v)) == (if script_variables(
            lines,
            a,
            n,
        ).contains(Value::Var(v)) {
            1nat
        } else {
            0nat
        }),
    decreases n,
{
    if n > 0 {
        let short = script_variables(lines, a, (n - 1) as nat);
        let all = script_variables(lines, a, n);
        lemma_script_variables_once(lines, a, (n - 1) as nat, v);
        lemma_script_variables(lines, a, (n - 1) as nat);
        if lines[n - 1].contains(a) {
            assert(all.drop_last() =~= short);
            assert(all[all.len() - 1] == Value::Var(n as i32));
            if short.contains(Value::Var(v)) {
                let k = choose|k: int| 0 <= k < short.len() && short[k] == Value::Var(v);
                assert(all[k] == Value::Var(v));
                assert(v <= n - 1);
            }
            if all.contains(Value::Var(v)) && v != n {
                let k = choose|k: int| 0 <= k < all.len() && all[k] == Value::Var(v);
                assert(short[k] == Value::Var(v));
            }
        }
    }
}

/// The equations of the scripts can be solved for each of their variables,
/// and mention only the variables 1 to `variable_count`, where there are
/// no more lines than variables.
pub proof fn lemma_scripts_well_posed(lines: Seq<Seq<i32>>, script_count: i32, variable_count: i32)
    requires
        lines.len() <= variable_count || lines.len() == 0,
    ensures
        forall|i: int|
            0 <= i < script_system(lines, script_count).len() ==> well_posed(
                #[trigger] script_system(lines, script_count)[i],
            ),
        forall|i: int|
            0 <= i < script_system(lines, script_count).len() ==> mentions_only(
                #[trigger] script_system(lines, script_count)[i],
                numbered(variable_count),
            ),
{
    let m: nat = if script_count > 0 { script_count as nat } else { 0 };
    let raw = raw_scripts(lines, m);
    let sorted = sorted_by_length(raw);
    let system = script_system(lines, script_count);
    lemma_sorted_by_length(raw);
    lemma_raw_scripts(lines, m);
    lemma_script_system(lines, script_count);
    lemma_single_term(Value::True);
    assert forall|i: int| 0 <= i < system.len() implies well_posed(#[trigger] system[i])
        && mentions_only(system[i], numbered(variable_count)) by {
        let vars = sorted[i];
        assert(system[i] == script_equation(vars));
        assert(sorted.contains(vars));
        assert(raw.contains(vars));
        let k = choose|k: int| 0 <= k < raw.len() && raw[k] == vars;
        lemma_variables(vars);
        assert forall|v: i32| #[trigger] variables(system[i].left.terms()).contains(
            v,
        ) implies occurs_oddly(system[i], v) by {
            lemma_script_variables_once(lines, (k + 1) as i32, lines.len(), v);
        }
        assert forall|v: i32| #[trigger]
            system[i].left.terms().contains(Value::Var(v)) implies numbered(
            variable_count,
        ).contains(v) by {
            assert(1 <= v <= lines.len());
            assert(numbered(variable_count)[v - 1] == v);
        }
    }
}

/// The equations of the scripts 1 to `script_count`, one for each script:
/// the exclusive-or of the variables whose line names the script is `true`.
/// Scripts with fewer variables come first; scripts with the same number of
/// variables keep their order.
pub fn script_equations(script_count: i32, lines: &Vec<Vec<i32>>) -> (equations: Vec<Equation>)
    requires
        lines.len() <= i32::MAX,
    ensures
        views(equations@) == script_system(line_views(lines@), script_count),
{
    let ghost lv = line_views(lines@);
    let mut lefts: Vec<Vec<Value>> = Vec::new();
    let mut a: i32 = 0;
    proof {
        assert(term_lists(lefts@) =~= sorted_by_length(raw_scripts(lv, 0)));
    }
    while a < script_count
        invariant
            0 <= a,
            a <= script_count || a == 0,
            lines.len() <= i32::MAX,
            lv == line_views(lines@),
            term_lists(lefts@) == sorted_by_length(raw_scripts(lv, a as nat)),
        decreases script_count - a,
    {
        a += 1;

        let mut left: Vec<Value> = Vec::new();
        let mut i: usize = 0;
        while i < lines.len()
            invariant
                i <= lines.len(),
                lines.len() <= i32::MAX,
                lv == line_views(lines@),
                left@ == script_variables(lv, a, i as nat),
            decreases lines.len() - i,
        {
            assert(lv[i as int] == lines@[i as int]@);
            if contains_number(lines[i].as_slice(), a) {
                left.push(Value::Var(i as i32 + 1));
            }
            i += 1;
        }

        let ghost sorted = term_lists(lefts@);
        let mut p: usize = 0;
        proof {
            assert(sorted.skip(0) =~= sorted);
            let raw = raw_scripts(lv, a as nat);
            assert(raw.drop_last() =~= raw_scripts(lv, (a - 1) as nat));
            assert(raw.last() == left@);
        }
        while p < lefts.len() && lefts[p].len() <= left.len()
            invariant
                p <= lefts.len(),
                sorted == term_lists(lefts@),
                place_by_length(sorted, left@.len()) == p + place_by_length(
                    sorted.skip(p as int),
                    left@.len(),
                ),
            decreases lefts.len() - p,
        {
            proof {
                assert(sorted.skip(p as int).skip(1) =~= sorted.skip(p + 1));
                assert(sorted[p as int] == lefts@[p as int]@);
            }
            p += 1;
        }
        proof {
            if p < lefts.len() {
                assert(sorted[p as int] == lefts@[p as int]@);
            }
        }
        lefts.insert(p, left);
        proof {
            assert(term_lists(lefts@) =~= sorted.insert(p as int, left@));
        }
    }

    let mut equations: Vec<Equation> = Vec::new();
    let mut k: usize = 0;
    while k < lefts.len()
        invariant
            k <= lefts.len(),
            equations.len() == k,
            views(equations@) == term_lists(lefts@).take(k as int).map_values(
                |vars: Seq<Value>| script_equation(vars),
            ),
        decreases lefts.len() - k,
    {
        let ghost before = views(equations@);
        equations.push(
            Equation {
                left: Expression::Xor(copy_terms(&lefts[k])),
                right: Expression::Val(Value::True),
            },
        );
        proof {
            assert(equations@[k as int]@ == script_equation(lefts@[k as int]@));
            assert(views(equations@) =~= before.push(script_equation(lefts@[k as int]@)));
            assert(views(equations@) =~= term_lists(lefts@).take(k + 1).map_values(
                |vars: Seq<Value>| script_equation(vars),
            ));
        }
        k += 1;
    }
    proof {
        assert(term_lists(lefts@).take(lefts.len() as int) =~= term_lists(lefts@));
        if script_count <= 0 {
            assert(a == 0);
        }
    }
    equations
}

/// The variables 1 to `variable_count`, rising.
pub fn variable_list(variable_count: i32) -> (variables: Vec<i32>)
    ensures
        variables@ == numbered(variable_count),
        variables@.no_duplicates(),
{
    let mut variables: Vec<i32> = Vec::new();
    let mut v: i32 = 0;
    while v < variable_count
        invariant
            0 <= v,
            v <= variable_count || v == 0,
            variables@ == numbered(v),
        decreases variable_count - v,
    {
        v += 1;
        variables.push(v);
        proof {
            assert(variables@ =~= numbered(v));
        }
    }
    proof {
        assert(variables@ =~= numbered(variable_count));
    }
    variables
}

/// The number of solutions and the text of the first solution that the
/// search finds for the reduced equations of the scripts; `None` where
/// there is no script or no solution.
pub open spec fn scripts_answer(variable_count: i32, script_count: i32, lines: Seq<Seq<i32>>) -> Option<
    (nat, Seq<char>),
> {
    let system = script_system(lines, script_count);
    let known = known_after(system, system.len());
    let found = all_solutions(
        numbered(variable_count),
        sorted_set(known.constants),
        sorted_set(known.equations),
    );
    if script_count <= 0 || found.len() == 0 {
        None
    } else {
        Some((found.len(), bitstring(found[0])))
    }
}

/// Counts the assignments of the variables 1 to `variable_count` that
/// satisfy all scripts, and gives the first of them.
///
/// `lines[i]` holds the numbers of the scripts that name the variable
/// `i + 1`. The scripts 1 to `script_count` become equations, the
/// elimination pass reduces them, and the search goes through what is left.
/// Without a script there is no answer; otherwise the answer is the number
/// of solutions of the reduced system and the first solution in
/// lexicographic order, or an error where the reduced system has none.
pub fn solve_scripts(variable_count: i32, script_count: i32, lines: &Vec<Vec<i32>>) -> (r: Result<
    (usize, String),
    (),
>)
    requires
        lines.len() <= variable_count || lines.len() == 0,
    ensures
        match r {
            Ok((count, example)) => scripts_answer(
                variable_count,
                script_count,
                line_views(lines@),
            ) == Some((count as nat, example@)),
            Err(_) => scripts_answer(variable_count, script_count, line_views(lines@)) is None,
        },
{
    let equations = script_equations(script_count, lines);
    proof {
        lemma_script_system(line_views(lines@), script_count);
    }
    if equations.is_empty() {
        return Err(());
    }
    let variables = variable_list(variable_count);
    let extraction = extract(&equations);
    proof {
        let system = views(equations@);
        let known = known_after(system, system.len());
        lemma_constants_from_sources(system, system.len());
        lemma_sorted_set(known.constants);
        assert forall|i: int| 0 <= i < extraction.constants.len() implies (
        #[trigger] extraction.constants@[i])@.is_constant() && variables@.contains(
            extraction.constants@[i]@.left_variable(),
        ) by {
            let c = extraction.constants@[i]@;
            assert(views(extraction.constants@)[i] == c);
            assert(sorted_set(known.constants).contains(c));
            assert(known.constants.contains(c));
            let k = choose|k: int| 0 <= k < known.constants.len() && known.constants[k] == c;
            assert(constant_from(known.constants[k], system));
            let j = choose|j: int|
                0 <= j < system.len() && (#[trigger] system[j]).left.terms().contains(
                    Value::Var(c.left_variable()),
                );
            let v = c.left_variable();
            assert(system[j].left.terms().contains(Value::Var(v)));
            assert(1 <= v <= lines.len());
            assert(variables@[v - 1] == v);
        }
    }
    solve(variables, extraction.constants, extraction.equations)
}

/// What the first line of the input says: the number of variables and the
/// number of scripts, its first two fields. `None` where they are missing
/// or are no numbers.
pub open spec fn header_of(line: Seq<char>) -> Option<(i32, i32)> {
    let f = fields(line);
    if f.len() < 2 {
        None
    } else {
        match (
            number_within(f[0], i32::MIN as int, i32::MAX as int),
            number_within(f[1], i32::MIN as int, i32::MAX as int),
        ) {
            (Some(n), Some(m)) => Some((n as i32, m as i32)),
            _ => None,
        }
    }
}

/// The scripts that the line of a variable names: the numbers among its
/// fields after the first field.
pub open spec fn line_numbers(line: Seq<char>) -> Seq<i32> {
    if fields(line).len() >= 1 {
        numbers_of(fields(line).skip(1))
    } else {
        Seq::empty()
    }
}

/// Whether one of the numbers is a script from 1 to `script_count`.
pub open spec fn names_script(numbers: Seq<i32>, script_count: i32) -> bool {
    exists|k: int| 0 <= k < numbers.len() && 1 <= #[trigger] numbers[k] <= script_count
}

/// How many of the lines after the first are lines of variables.
pub open spec fn variable_lines(texts: Seq<Seq<char>>, variable_count: i32) -> nat {
    if variable_count <= 0 || texts.len() <= 1 {
        0
    } else if texts.len() - 1 <= variable_count {
        (texts.len() - 1) as nat
    } else {
        variable_count as nat
    }
}

/// The scripts that the lines of the variables name.
pub open spec fn script_lines(texts: Seq<Seq<char>>, variable_count: i32) -> Seq<Seq<i32>> {
    Seq::new(variable_lines(texts, variable_count), |i: int| line_numbers(texts[i + 1]))
}

/// Whether the input can be read: it has a first line with the two
/// numbers, and no line after those of the variables names a script.
pub open spec fn well_formed(texts: Seq<Seq<char>>) -> bool {
    &&& texts.len() >= 1
    &&& header_of(texts[0]) matches Some((n, m))
    &&& forall|i: int|
        variable_lines(texts, n) < i < texts.len() ==> !names_script(
            line_numbers(#[trigger] texts[i]),
            m,
        )
}

/// The texts of a list of lines.
pub open spec fn texts_of(lines: Seq<String>) -> Seq<Seq<char>> {
    lines.map_values(|l: String| l@)
}

/// Reads the first line of the input, see [`header_of`].
pub fn parse_header(line: &str) -> (r: Option<(i32, i32)>)
    ensures
        r == header_of(line@),
{
    let chars = characters(line);
    let bounds = split_fields(&chars);
    proof {
        assert(fields(chars@).len() == bounds.len());
    }
    if bounds.len() < 2 {
        return None;
    }
    proof {
        lemma_field(chars@, bounds@, 0);
        lemma_field(chars@, bounds@, 1);
    }
    let n = parse_number(&chars, bounds[0].0, bounds[0].1, i32::MIN as i64, i32::MAX as i64);
    let m = parse_number(&chars, bounds[1].0, bounds[1].1, i32::MIN as i64, i32::MAX as i64);
    match (n, m) {
        (Some(n), Some(m)) => Some((n as i32, m as i32)),
        _ => None,
    }
}

/// Whether one of the numbers is a script from 1 to `script_count`.
pub fn any_script(numbers: &Vec<i32>, script_count: i32) -> (r: bool)
    ensures
        r == names_script(numbers@, script_count),
{
    let mut k: usize = 0;
    while k < numbers.len()
        invariant
            k <= numbers.len(),
            forall|j: int| 0 <= j < k ==> !(1 <= #[trigger] numbers@[j] <= script_count),
        decreases numbers.len() - k,
    {
        if 1 <= numbers[k] && numbers[k] <= script_count {
            return true;
        }
        k += 1;
    }
    false
}

/// Answers the input, given as its lines.
///
/// The first line holds the number of variables and the number of scripts.
/// Each line after it stands for one variable, the second line for the
/// variable 1, and names the scripts of that variable after its first
/// field. The result is `None` where the input cannot be read, see
/// [`well_formed`]; otherwise it is what [`solve_scripts`] answers.
pub fn solve_text(lines: &Vec<String>) -> (r: Option<Result<(usize, String), ()>>)
    ensures
        r is Some <==> well_formed(texts_of(lines@)),
        r matches Some(answer) ==> {
            let header = header_of(texts_of(lines@)[0])->0;
            let expected = scripts_answer(
                header.0,
                header.1,
                script_lines(texts_of(lines@), header.0),
            );
            match answer {
                Ok((count, example)) => expected == Some((count as nat, example@)),
                Err(_) => expected is None,
            }
        },
{
    let ghost texts = texts_of(lines@);
    if lines.len() == 0 {
        return None;
    }
    assert(texts[0] == lines@[0]@);
    let (variable_count, script_count) = match parse_header(lines[0].as_str()) {
        Some(header) => header,
        None => {
            return None;
        },
    };
    let ghost counted = variable_lines(texts, variable_count);
    let mut numbers: Vec<Vec<i32>> = Vec::new();
    let mut i: usize = 1;
    proof {
        assert(line_views(numbers@) =~= script_lines(texts, variable_count).take(0));
    }
    while i < lines.len() && (i as i64) <= variable_count as i64
        invariant
            1 <= i <= lines.len(),
            texts == texts_of(lines@),
            counted == variable_lines(texts, variable_count),
            i - 1 <= counted,
            numbers.len() == i - 1,
            line_views(numbers@) == script_lines(texts, variable_count).take(i - 1),
        decreases lines.len() - i,
    {
        assert(texts[i as int] == lines@[i as int]@);
        let ghost before = line_views(numbers@);
        let line = field_numbers(lines[i].as_str(), 1);
        proof {
            assert(line@ == line_numbers(texts[i as int]));
        }
        numbers.push(line);
        proof {
            assert(line_views(numbers@) =~= before.push(line_numbers(texts[i as int])));
            assert(line_views(numbers@) =~= script_lines(texts, variable_count).take(i as int));
        }
        i += 1;
    }
    proof {
        assert(i - 1 == counted);
        assert(script_lines(texts, variable_count).take(counted as int) =~= script_lines(
            texts,
            variable_count,
        ));
    }
    while i < lines.len()
        invariant
            counted < i <= lines.len(),
            texts == texts_of(lines@),
            header_of(texts[0]) == Some((variable_count, script_count)),
            counted == variable_lines(texts, variable_count),
            numbers.len() == counted,
            line_views(numbers@) == script_lines(texts, variable_count),
            forall|j: int|
                counted < j < i ==> !names_script(line_numbers(#[trigger] texts[j]), script_count),
        decreases lines.len() - i,
    {
        assert(texts[i as int] == lines@[i as int]@);
        let line = field_numbers(lines[i].as_str(), 1);
        assert(line@ == line_numbers(texts[i as int]));
        if any_script(&line, script_count) {
            return None;
        }
        i += 1;
    }
    Some(solve_scripts(variable_count, script_count, &numbers))
}

} // verus!
