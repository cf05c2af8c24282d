//! The largest number that can be the size of a group of equal divisors,
//! found through a count of how many numbers each small divisor divides.

use crate::text::{field_numbers, fields, numbers_of};
use std::collections::HashMap;
use vstd::arithmetic::div_mod::{lemma_fundamental_div_mod, lemma_mod_multiples_basic};
use vstd::prelude::*;

verus! {

/// Divisors are looked for below this bound.
pub const DIVIDE_BY: i32 = 110;

/// The numbers from 1 to below `bound` that divide `number`, rising.
pub open spec fn dividers_below(number: int, bound: int) -> Seq<i32>
    decreases bound,
{
    if bound <= 1 {
        Seq::empty()
    } else if number % (bound - 1) == 0 {
        dividers_below(number, bound - 1).push((bound - 1) as i32)
    } else {
        dividers_below(number, bound - 1)
    }
}

/// Whether `a` is a number that the entry of `divider` with `count` allows:
/// the divider itself where it equals its count, else a divisor of the
/// divider below [`DIVIDE_BY`] that is not above the count. Only positive
/// dividers allow anything.
pub open spec fn allowed(divider: i32, count: i32, a: i32) -> bool {
    divider > 0 && if divider == count {
        a == divider
    } else {
        1 <= a < DIVIDE_BY && divider as int % a as int == 0 && a <= count
    }
}

/// Whether nothing that the entry of `divider` with `count` allows is above
/// `limit`.
pub open spec fn bounds(divider: i32, count: i32, limit: i32) -> bool {
    forall|a: i32| #[trigger] allowed(divider, count, a) ==> a <= limit
}

/// What a limit bounds, a larger limit bounds too.
pub proof fn lemma_bounds_grow(divider: i32, count: i32, limit: i32, larger: i32)
    requires
        bounds(divider, count, limit),
        limit <= larger,
    ensures
        bounds(divider, count, larger),
{
}

/// Whether `n` is the largest number that an entry of the map allows, or 0
/// where no entry allows any.
pub open spec fn is_biggest(dividers: Map<i32, i32>, n: i32) -> bool {
    &&& n >= 0
    &&& n == 0 || exists|divider: i32|
        dividers.contains_key(divider) && #[trigger] allowed(divider, dividers[divider], n)
    &&& forall|divider: i32, a: i32|
        dividers.contains_key(divider) && #[trigger] allowed(divider, dividers[divider], a) ==> a
            <= n
}

/// A number and its negation have the same divisors.
pub proof fn lemma_negation_divides(a: int, b: int)
    requires
        b > 0,
    ensures
        a % b == 0 <==> (-a) % b == 0,
{
    lemma_fundamental_div_mod(a, b);
    lemma_fundamental_div_mod(-a, b);
    if a % b == 0 {
        let q = a / b;
        assert(-a == (-q) * b) by (nonlinear_arith)
            requires
                a == b * q,
        ;
        lemma_mod_multiples_basic(-q, b);
    }
    if (-a) % b == 0 {
        let q = (-a) / b;
        assert(a == (-q) * b) by (nonlinear_arith)
            requires
                -a == b * q,
        ;
        lemma_mod_multiples_basic(-q, b);
    }
}

/// A divisor of a positive number is not above that number.
pub proof fn lemma_divisor_bound(d: int, a: int)
    requires
        d > 0,
        a > 0,
        d % a == 0,
    ensures
        a <= d,
{
    lemma_fundamental_div_mod(d, a);
    let q = d / a;
    assert(q >= 1 ==> a * q >= a) by (nonlinear_arith)
        requires
            a > 0,
    ;
    assert(q <= 0 ==> a * q <= 0) by (nonlinear_arith)
        requires
            a > 0,
    ;
}

/// What [`dividers_below`] holds: the divisors from 1 to below the bound,
/// rising.
pub proof fn lemma_dividers_below(number: int, bound: int)
    requires
        bound <= i32::MAX,
    ensures
        forall|k: int|
            0 <= k < dividers_below(number, bound).len() ==> {
                let a = #[trigger] dividers_below(number, bound)[k];
                1 <= a < bound && number % (a as int) == 0
            },
        forall|a: i32|
            1 <= a < bound && number % (a as int) == 0 ==> dividers_below(number, bound).contains(a),
        forall|i: int, j: int|
            0 <= i < j < dividers_below(number, bound).len() ==> dividers_below(number, bound)[i]
                < dividers_below(number, bound)[j],
    decreases bound,
{
    if bound > 1 {
        lemma_dividers_below(number, bound - 1);
        let short = dividers_below(number, bound - 1);
        let all = dividers_below(number, bound);
        assert forall|a: i32| 1 <= a < bound && number % (a as int) == 0 implies all.contains(
            a,
        ) by {
            if a < bound - 1 {
                assert(short.contains(a));
                let k = choose|k: int| 0 <= k < short.len() && short[k] == a;
                assert(all[k] == a);
            } else {
                assert(all[all.len() - 1] == a);
            }
        }
    }
}

/// The numbers from 1 to 109 that divide `numaa`, rising.
pub fn get_dividers(numaa: i32) -> (dividers: Vec<i32>)
    ensures
        dividers@ == dividers_below(numaa as int, DIVIDE_BY as int),
{
    let mut dividers: Vec<i32> = Vec::new();
    let mut i: i32 = 1;
    while i < DIVIDE_BY
        invariant
            1 <= i <= DIVIDE_BY,
            dividers@ == dividers_below(numaa as int, i as int),
        decreases DIVIDE_BY - i,
    {
        proof {
            lemma_negation_divides(numaa as int, i as int);
        }
        if numaa % i == 0 {
            dividers.push(i);
        }
        i += 1;
    }
    dividers
}

/// The largest number that an entry of the map allows, or 0 where no entry
/// allows any. `dividers` maps a divider to the count of the numbers that it
/// divides; what an entry allows is said by [`allowed`].
pub fn find_biggest_divider(dividers: HashMap<i32, i32>) -> (number_of_numbers: i32)
    ensures
        is_biggest(dividers@, number_of_numbers),
{
    let mut number_of_numbers: i32 = 0;

    for (divider, d_number_of_numbers) in it: dividers.iter()
        invariant
            forall|key: i32| #[trigger]
                dividers@.contains_key(key) ==> it.seq().contains((&key, &dividers@[key])),
            number_of_numbers >= 0,
            number_of_numbers == 0 || exists|key: i32|
                dividers@.contains_key(key) && #[trigger] allowed(
                    key,
                    dividers@[key],
                    number_of_numbers,
                ),
            forall|j: int|
                0 <= j < it.index() ==> bounds(
                    *(#[trigger] it.seq()[j]).0,
                    *it.seq()[j].1,
                    number_of_numbers,
                ),
    {
        assert(dividers@.contains_key(*divider) && dividers@[*divider] == *d_number_of_numbers);
        let ghost before = number_of_numbers;
        if *divider > number_of_numbers {
            if *divider == *d_number_of_numbers {
                // save
                number_of_numbers = *divider;
                assert(allowed(*divider, dividers@[*divider], number_of_numbers));
                assert(bounds(*divider, *d_number_of_numbers, number_of_numbers));
            } else {
                let others = get_dividers(*divider);
                proof {
                    lemma_dividers_below(*divider as int, DIVIDE_BY as int);
                }
                let mut k: usize = 0;
                while k < others.len()
                    invariant
                        k <= others.len(),
                        *divider > 0,
                        *divider != *d_number_of_numbers,
                        dividers@.contains_key(*divider),
                        dividers@[*divider] == *d_number_of_numbers,
                        others@ == dividers_below(*divider as int, DIVIDE_BY as int),
                        forall|x: int|
                            0 <= x < others.len() ==> {
                                let a = #[trigger] others@[x];
                                1 <= a < DIVIDE_BY && (*divider as int) % (a as int) == 0
                            },
                        number_of_numbers >= before,
                        number_of_numbers >= 0,
                        number_of_numbers == 0 || exists|key: i32|
                            dividers@.contains_key(key) && #[trigger] allowed(
                                key,
                                dividers@[key],
                                number_of_numbers,
                            ),
                        forall|x: int|
                            0 <= x < k && (#[trigger] others@[x]) <= *d_number_of_numbers
                                ==> others@[x] <= number_of_numbers,
                    decreases others.len() - k,
                {
                    let another_divider = others[k];
                    if another_divider <= *d_number_of_numbers && another_divider
                        > number_of_numbers {
                        // save
                        number_of_numbers = another_divider;
                        assert(allowed(*divider, dividers@[*divider], number_of_numbers));
                    }
                    k += 1;
                }
                assert forall|a: i32|
                    allowed(*divider, *d_number_of_numbers, a) implies a <= number_of_numbers by {
                    assert(others@.contains(a));
                    let x = choose|x: int| 0 <= x < others@.len() && others@[x] == a;
                    assert(others@[x] <= number_of_numbers);
                }
                assert(bounds(*divider, *d_number_of_numbers, number_of_numbers));
            }
        } else {
            assert forall|a: i32|
                allowed(*divider, *d_number_of_numbers, a) implies a <= number_of_numbers by {
                if *divider != *d_number_of_numbers {
                    lemma_divisor_bound(*divider as int, a as int);
                }
            }
            assert(bounds(*divider, *d_number_of_numbers, number_of_numbers));
        }
        proof {
            let now = number_of_numbers;
            assert forall|j: int| 0 <= j < it.index() implies bounds(
                *(#[trigger] it.seq()[j]).0,
                *it.seq()[j].1,
                now,
            ) by {
                lemma_bounds_grow(*it.seq()[j].0, *it.seq()[j].1, before, now);
            }
        }
    }
    proof {
        assert forall|divider: i32, a: i32|
            dividers@.contains_key(divider) && #[trigger] allowed(
                divider,
                dividers@[divider],
                a,
            ) implies a <= number_of_numbers by {
            assert(bounds(divider, dividers@[divider], number_of_numbers));
        }
    }

    number_of_numbers
}

/// How many of the numbers `d` divides.
pub open spec fn multiples(numbers: Seq<i32>, d: int) -> nat
    decreases numbers.len(),
{
    if numbers.len() == 0 {
        0
    } else {
        multiples(numbers.drop_last(), d) + if numbers.last() as int % d == 0 {
            1nat
        } else {
            0nat
        }
    }
}

/// For each number from 1 to 109 that divides one of the numbers, the
/// count of the numbers that it divides.
pub open spec fn counts(numbers: Seq<i32>) -> Map<i32, i32> {
    Map::new(
        |d: i32| 1 <= d < DIVIDE_BY && multiples(numbers, d as int) > 0,
        |d: i32| multiples(numbers, d as int) as i32,
    )
}

/// No more numbers are multiples than there are numbers.
pub proof fn lemma_multiples_bound(numbers: Seq<i32>, d: int)
    ensures
        multiples(numbers, d) <= numbers.len(),
    decreases numbers.len(),
{
    if numbers.len() > 0 {
        lemma_multiples_bound(numbers.drop_last(), d);
    }
}

/// For each number from 1 to 109 that divides one of `latencies`, the count
/// of the latencies that it divides.
pub fn count_dividers(latencies: &Vec<i32>) -> (dividers: HashMap<i32, i32>)
    requires
        latencies.len() <= i32::MAX,
    ensures
        dividers@ == counts(latencies@),
{
    let mut dividers: HashMap<i32, i32> = HashMap::new();
    let mut i: usize = 0;
    while i < latencies.len()
        invariant
            i <= latencies.len() <= i32::MAX,
            forall|d: i32| #[trigger]
                dividers@.contains_key(d) <==> 1 <= d < DIVIDE_BY && multiples(
                    latencies@.take(i as int),
                    d as int,
                ) > 0,
            forall|d: i32| #[trigger]
                dividers@.contains_key(d) ==> dividers@[d] == multiples(
                    latencies@.take(i as int),
                    d as int,
                ),
        decreases latencies.len() - i,
    {
        let one_latency = latencies[i];
        let ghost done = latencies@.take(i as int);
        let ghost start = dividers@;
        let found = get_dividers(one_latency);
        proof {
            lemma_dividers_below(one_latency as int, DIVIDE_BY as int);
            assert(latencies@.take(i + 1).drop_last() =~= done);
            assert(latencies@.take(i + 1).last() == one_latency);
        }
        let mut k: usize = 0;
        while k < found.len()
            invariant
                k <= found.len(),
                i < latencies.len() <= i32::MAX,
                done == latencies@.take(i as int),
                found@ == dividers_below(one_latency as int, DIVIDE_BY as int),
                forall|x: int|
                    0 <= x < found.len() ==> 1 <= #[trigger] found@[x] < DIVIDE_BY
                        && one_latency as int % (found@[x] as int) == 0,
                forall|x: int, y: int| 0 <= x < y < found.len() ==> found@[x] < found@[y],
                forall|d: i32| #[trigger]
                    start.contains_key(d) <==> 1 <= d < DIVIDE_BY && multiples(done, d as int) > 0,
                forall|d: i32| #[trigger] start.contains_key(d) ==> start[d] == multiples(
                    done,
                    d as int,
                ),
                forall|d: i32| #[trigger]
                    dividers@.contains_key(d) <==> start.contains_key(d) || found@.take(
                        k as int,
                    ).contains(d),
                forall|d: i32| #[trigger]
                    dividers@.contains_key(d) ==> dividers@[d] == multiples(done, d as int) + (
                    if found@.take(k as int).contains(d) {
                        1int
                    } else {
                        0int
                    }),
            decreases found.len() - k,
        {
            let d = found[k];
            let ghost before = dividers@;
            proof {
                lemma_multiples_bound(done, d as int);
                // the divisor has not been counted for this latency
                let counted = found@.take(k as int);
                if counted.contains(d) {
                    let x = choose|x: int| 0 <= x < counted.len() && counted[x] == d;
                    assert(found@[x] < found@[k as int]);
                }
            }
            let count = match dividers.get(&d) {
                Some(count) => *count,
                None => 0,
            };
            assert(count == multiples(done, d as int));
            dividers.insert(d, count + 1);
            proof {
                let counted = found@.take(k as int);
                let longer = found@.take(k + 1);
                assert forall|e: i32| #[trigger]
                    longer.contains(e) <==> counted.contains(e) || e == d by {
                    if longer.contains(e) {
                        let x = choose|x: int| 0 <= x < longer.len() && longer[x] == e;
                        if x < k {
                            assert(counted[x] == e);
                        }
                    }
                    if counted.contains(e) {
                        let x = choose|x: int| 0 <= x < counted.len() && counted[x] == e;
                        assert(longer[x] == e);
                    }
                    assert(longer[k as int] == d);
                }
            }
            k += 1;
        }
        proof {
            assert(found@.take(found.len() as int) =~= found@);
            assert forall|d: i32| #[trigger]
                found@.contains(d) <==> 1 <= d < DIVIDE_BY && one_latency as int % (d as int)
                    == 0 by {
                if found@.contains(d) {
                    let x = choose|x: int| 0 <= x < found@.len() && found@[x] == d;
                    assert(1 <= found@[x] < DIVIDE_BY);
                }
            }
        }
        i += 1;
    }
    proof {
        assert(latencies@.take(latencies.len() as int) =~= latencies@);
        assert(dividers@ =~= counts(latencies@));
    }
    dividers
}

/// The answer for one line of latencies: the largest number that the count
/// of the divisors of the numbers of the line allows, see
/// [`find_biggest_divider`]. Fields of the line that are no numbers are
/// passed over. `None` for a line of more numbers than can be counted.
pub fn answer_line(line: &str) -> (r: Option<i32>)
    ensures
        r is Some <==> numbers_of(fields(line@)).len() <= i32::MAX,
        r matches Some(n) ==> is_biggest(counts(numbers_of(fields(line@))), n),
{
    let latency = field_numbers(line, 0);
    proof {
        assert(fields(line@).skip(0) =~= fields(line@));
    }
    if latency.len() > i32::MAX as usize {
        return None;
    }
    let dividers = count_dividers(&latency);
    Some(find_biggest_divider(dividers))
}

/// How many lines of latencies an input of `n` lines has: the first line
/// is passed over, and of each pair of lines after it the second is a line
/// of latencies.
pub open spec fn latency_lines(n: nat) -> nat {
    if n >= 3 {
        ((n - 1) / 2) as nat
    } else {
        0
    }
}

/// The numbers of the `k`-th line of latencies, counted from 0: those of
/// the line `2 * k + 2` of the input.
pub open spec fn latencies_of(lines: Seq<String>, k: int) -> Seq<i32> {
    numbers_of(fields(lines[2 * k + 2]@))
}

/// The answers for the lines of latencies of the input, in their order, see
/// [`answer_line`]. `None` where one of the lines has more numbers than can
/// be counted.
pub fn answer_lines(lines: &Vec<String>) -> (r: Option<Vec<i32>>)
    ensures
        r is Some <==> forall|k: int|
            0 <= k < latency_lines(lines.len() as nat) ==> (#[trigger] latencies_of(lines@, k)).len()
                <= i32::MAX,
        r matches Some(found) ==> {
            &&& found.len() == latency_lines(lines.len() as nat)
            &&& forall|k: int|
                0 <= k < found.len() ==> is_biggest(
                    counts(latencies_of(lines@, k)),
                    #[trigger] found@[k],
                )
        },
{
    let count = if lines.len() >= 3 {
        (lines.len() - 1) / 2
    } else {
        0
    };
    let mut found: Vec<i32> = Vec::new();
    let mut k: usize = 0;
    while k < count
        invariant
            k <= count,
            count == latency_lines(lines.len() as nat),
            found.len() == k,
            forall|j: int| 0 <= j < k ==> (#[trigger] latencies_of(lines@, j)).len() <= i32::MAX,
            forall|j: int|
                0 <= j < k ==> is_biggest(counts(latencies_of(lines@, j)), #[trigger] found@[j]),
        decreases count - k,
    {
        match answer_line(lines[2 * k + 2].as_str()) {
            Some(n) => {
                found.push(n);
            },
            None => {
                proof {
                    assert(latencies_of(lines@, k as int).len() > i32::MAX);
                }
                return None;
            },
        }
        k += 1;
    }
    Some(found)
}

} // verus!
