//! Reading lines of text: fields between white space, and whole numbers in
//! decimal notation.

use vstd::prelude::*;
use vstd::string::StringExecFns;

verus! {

/// Whether `c` is white space: one of the characters with the Unicode
/// property `White_Space`.
pub open spec fn is_space(c: char) -> bool {
    let u = c as u32;
    ||| 0x09 <= u <= 0x0D
    ||| u == 0x20
    ||| u == 0x85
    ||| u == 0xA0
    ||| u == 0x1680
    ||| 0x2000 <= u <= 0x200A
    ||| u == 0x2028
    ||| u == 0x2029
    ||| u == 0x202F
    ||| u == 0x205F
    ||| u == 0x3000
}

/// Whether `c` is one of the digits `0` to `9`.
pub open spec fn is_digit(c: char) -> bool {
    0x30 <= c as u32 <= 0x39
}

/// Where the fields of `s` start and end: a field is a longest run of
/// characters that are not white space, and stands in `s` from the first
/// index of its pair up to, and without, the second.
pub open spec fn field_bounds(s: Seq<char>) -> Seq<(int, int)>
    decreases s.len(),
{
    if s.len() == 0 {
        Seq::empty()
    } else {
        let b = field_bounds(s.drop_last());
        let n = s.len() as int;
        if is_space(s.last()) {
            b
        } else if n >= 2 && !is_space(s[n - 2]) {
            b.drop_last().push((b.last().0, n))
        } else {
            b.push((n - 1, n))
        }
    }
}

/// The fields of `s`: its longest runs of characters that are not white
/// space, in their order.
pub open spec fn fields(s: Seq<char>) -> Seq<Seq<char>> {
    field_bounds(s).map_values(|b: (int, int)| s.subrange(b.0, b.1))
}

/// The bounds as pairs of integers.
pub open spec fn bound_views(b: Seq<(usize, usize)>) -> Seq<(int, int)> {
    b.map_values(|p: (usize, usize)| (p.0 as int, p.1 as int))
}

/// The number that the digits `d` write in decimal notation.
pub open spec fn digits_value(d: Seq<char>) -> int
    decreases d.len(),
{
    if d.len() == 0 {
        0
    } else {
        digits_value(d.drop_last()) * 10 + (d.last() as u32 - 0x30)
    }
}

/// Whether all characters of `d` are digits.
pub open spec fn all_digits(d: Seq<char>) -> bool {
    forall|i: int| 0 <= i < d.len() ==> is_digit(#[trigger] d[i])
}

/// The whole number that `s` writes: an optional sign `+` or `-` and at
/// least one digit, nothing else. `None` for every other text.
pub open spec fn number(s: Seq<char>) -> Option<int> {
    if s.len() == 0 {
        None
    } else {
        let d = if s[0] == '-' || s[0] == '+' {
            s.skip(1)
        } else {
            s
        };
        if d.len() == 0 || !all_digits(d) {
            None
        } else if s[0] == '-' {
            Some(-digits_value(d))
        } else {
            Some(digits_value(d))
        }
    }
}

/// The number that `s` writes where it lies from `lo` to `hi`.
pub open spec fn number_within(s: Seq<char>, lo: int, hi: int) -> Option<int> {
    match number(s) {
        Some(v) => if lo <= v <= hi {
            Some(v)
        } else {
            None
        },
        None => None,
    }
}

/// The bounds of the fields lie in the text, and a text that does not end
/// in white space ends in its last field.
pub proof fn lemma_field_bounds(s: Seq<char>)
    ensures
        forall|k: int|
            0 <= k < field_bounds(s).len() ==> 0 <= (#[trigger] field_bounds(s)[k]).0
                < field_bounds(s)[k].1 <= s.len(),
        s.len() > 0 && !is_space(s.last()) ==> field_bounds(s).len() > 0 && field_bounds(
            s,
        ).last().1 == s.len(),
    decreases s.len(),
{
    if s.len() > 0 {
        lemma_field_bounds(s.drop_last());
        let n = s.len() as int;
        let b = field_bounds(s.drop_last());
        let r = field_bounds(s);
        if n >= 2 {
            assert(s.drop_last().last() == s[n - 2]);
        }
        assert forall|k: int| 0 <= k < r.len() implies 0 <= (#[trigger] r[k]).0 < r[k].1
            <= s.len() by {
            if is_space(s.last()) {
                assert(r[k] == b[k]);
            } else if n >= 2 && !is_space(s[n - 2]) {
                if k < r.len() - 1 {
                    assert(r[k] == b[k]);
                } else {
                    assert(r[k] == (b[b.len() - 1].0, n));
                }
            } else {
                if k < r.len() - 1 {
                    assert(r[k] == b[k]);
                }
            }
        }
    }
}

/// Digits write a number that is not negative and does not fall when more
/// digits follow.
pub proof fn lemma_digits_value(d: Seq<char>, k: int)
    requires
        all_digits(d),
        0 <= k <= d.len(),
    ensures
        0 <= digits_value(d.take(k)) <= digits_value(d),
    decreases d.len() - k,
{
    lemma_digits_nonnegative(d.take(k));
    if k < d.len() {
        lemma_digits_value(d, k + 1);
        assert(d.take(k + 1).drop_last() =~= d.take(k));
        assert(is_digit(d[k]));
    } else {
        assert(d.take(k) =~= d);
    }
}

/// Digits write a number that is not negative.
pub proof fn lemma_digits_nonnegative(d: Seq<char>)
    requires
        all_digits(d),
    ensures
        0 <= digits_value(d),
    decreases d.len(),
{
    if d.len() > 0 {
        assert(is_digit(d[d.len() - 1]));
        lemma_digits_nonnegative(d.drop_last());
    }
}

/// Whether `c` is white space.
pub fn space(c: char) -> (r: bool)
    ensures
        r == is_space(c),
{
    let u = c as u32;
    (0x09 <= u && u <= 0x0D) || u == 0x20 || u == 0x85 || u == 0xA0 || u == 0x1680 || (0x2000 <= u
        && u <= 0x200A) || u == 0x2028 || u == 0x2029 || u == 0x202F || u == 0x205F || u == 0x3000
}

/// The characters of a text.
pub fn characters(s: &str) -> (r: Vec<char>)
    ensures
        r@ == s@,
{
    let mut r: Vec<char> = Vec::new();
    for c in it: s.chars()
        invariant
            it.seq() == s@,
            r@ == s@.take(it.index() as int),
    {
        r.push(c);
        proof {
            assert(r@ =~= s@.take(it.index() + 1));
        }
    }
    proof {
        assert(s@.take(s@.len() as int) =~= s@);
    }
    r
}

/// Where the fields of the text start and end, see [`field_bounds`].
pub fn split_fields(chars: &Vec<char>) -> (bounds: Vec<(usize, usize)>)
    ensures
        bound_views(bounds@) == field_bounds(chars@),
        forall|k: int|
            0 <= k < bounds.len() ==> (#[trigger] bounds@[k]).0 < bounds@[k].1 <= chars.len(),
{
    let mut bounds: Vec<(usize, usize)> = Vec::new();
    let mut i: usize = 0;
    proof {
        assert(bound_views(bounds@) =~= field_bounds(chars@.take(0)));
    }
    while i < chars.len()
        invariant
            i <= chars.len(),
            bound_views(bounds@) == field_bounds(chars@.take(i as int)),
        decreases chars.len() - i,
    {
        let ghost before = bound_views(bounds@);
        proof {
            assert(chars@.take(i + 1).drop_last() =~= chars@.take(i as int));
            lemma_field_bounds(chars@.take(i as int));
            if i > 0 {
                assert(chars@.take(i as int).last() == chars@[i - 1]);
            }
        }
        if !space(chars[i]) {
            if i > 0 && !space(chars[i - 1]) {
                let last = bounds.pop().unwrap();
                bounds.push((last.0, i + 1));
                proof {
                    assert(bound_views(bounds@) =~= before.drop_last().push(
                        (before.last().0, i + 1),
                    ));
                }
            } else {
                bounds.push((i, i + 1));
                proof {
                    assert(bound_views(bounds@) =~= before.push((i as int, i + 1)));
                }
            }
        }
        i += 1;
    }
    proof {
        assert(chars@.take(chars.len() as int) =~= chars@);
        lemma_field_bounds(chars@);
        assert forall|k: int| 0 <= k < bounds.len() implies (#[trigger] bounds@[k]).0
            < bounds@[k].1 <= chars.len() by {
            assert(bound_views(bounds@)[k] == (bounds@[k].0 as int, bounds@[k].1 as int));
        }
    }
    bounds
}

/// The whole number that the characters from `start` up to `end` write,
/// where it lies from `lo` to `hi`.
pub fn parse_number(chars: &Vec<char>, start: usize, end: usize, lo: i64, hi: i64) -> (r: Option<
    i64,
>)
    requires
        start <= end <= chars.len(),
        -0x1_0000_0000 <= lo <= 0 <= hi <= 0x1_0000_0000,
    ensures
        match r {
            Some(v) => number_within(chars@.subrange(start as int, end as int), lo as int, hi as int)
                == Some(v as int),
            None => number_within(chars@.subrange(start as int, end as int), lo as int, hi as int)
                is None,
        },
{
    let ghost s = chars@.subrange(start as int, end as int);
    if start == end {
        return None;
    }
    let first = chars[start];
    assert(s[0] == first);
    let negative = first == '-';
    let from = if first == '-' || first == '+' {
        start + 1
    } else {
        start
    };
    let ghost d = chars@.subrange(from as int, end as int);
    proof {
        assert(d =~= if s[0] == '-' || s[0] == '+' { s.skip(1) } else { s });
    }
    if from == end {
        return None;
    }
    let mut value: i64 = 0;
    let mut i: usize = from;
    proof {
        assert(d.take(0) =~= Seq::<char>::empty());
    }
    while i < end
        invariant
            from <= i <= end <= chars.len(),
            -0x1_0000_0000 <= lo <= 0 <= hi <= 0x1_0000_0000,
            s == chars@.subrange(start as int, end as int),
            s.len() > 0,
            d.len() > 0,
            d == (if s[0] == '-' || s[0] == '+' {
                s.skip(1)
            } else {
                s
            }),
            d == chars@.subrange(from as int, end as int),
            all_digits(d.take(i - from)),
            value == digits_value(d.take(i - from)),
            0 <= value <= 0x1_0000_0000,
        decreases end - i,
    {
        let c = chars[i];
        let u = c as u32;
        assert(d[i - from] == c);
        if !(0x30 <= u && u <= 0x39) {
            return None;
        }
        proof {
            assert(d.take(i - from + 1).drop_last() =~= d.take(i - from));
            assert(d.take(i - from + 1).last() == c);
        }
        value = value * 10 + (u - 0x30) as i64;
        if value > 0x1_0000_0000 {
            proof {
                if all_digits(d) {
                    lemma_digits_value(d, i - from + 1);
                }
            }
            return None;
        }
        i += 1;
    }
    proof {
        assert(d.take(end - from) =~= d);
    }
    let signed = if negative {
        -value
    } else {
        value
    };
    if lo <= signed && signed <= hi {
        Some(signed)
    } else {
        None
    }
}

/// The numbers that the fields write, in their order; fields that are not
/// numbers from `i32::MIN` to `i32::MAX` are passed over.
pub open spec fn numbers_of(f: Seq<Seq<char>>) -> Seq<i32>
    decreases f.len(),
{
    if f.len() == 0 {
        Seq::empty()
    } else {
        match number_within(f.last(), i32::MIN as int, i32::MAX as int) {
            Some(v) => numbers_of(f.drop_last()).push(v as i32),
            None => numbers_of(f.drop_last()),
        }
    }
}

/// The field that the pair `bounds[k]` stands for.
pub proof fn lemma_field(chars: Seq<char>, bounds: Seq<(usize, usize)>, k: int)
    requires
        bound_views(bounds) == field_bounds(chars),
        0 <= k < bounds.len(),
    ensures
        fields(chars).len() == bounds.len(),
        fields(chars)[k] == chars.subrange(bounds[k].0 as int, bounds[k].1 as int),
{
    assert(bound_views(bounds)[k] == (bounds[k].0 as int, bounds[k].1 as int));
}

/// The numbers among the fields of a line from the field `skip` on, see
/// [`numbers_of`].
pub fn field_numbers(line: &str, skip: usize) -> (numbers: Vec<i32>)
    ensures
        skip <= fields(line@).len() ==> numbers@ == numbers_of(fields(line@).skip(skip as int)),
        skip > fields(line@).len() ==> numbers@ == Seq::<i32>::empty(),
{
    let chars = characters(line);
    let bounds = split_fields(&chars);
    let mut numbers: Vec<i32> = Vec::new();
    proof {
        assert(fields(chars@).len() == bounds.len());
    }
    if skip > bounds.len() {
        return numbers;
    }
    let ghost rest = fields(chars@).skip(skip as int);
    let mut k: usize = skip;
    proof {
        assert(rest.take(0) =~= Seq::<Seq<char>>::empty());
    }
    while k < bounds.len()
        invariant
            skip <= k <= bounds.len(),
            bound_views(bounds@) == field_bounds(chars@),
            rest == fields(chars@).skip(skip as int),
            forall|j: int|
                0 <= j < bounds.len() ==> (#[trigger] bounds@[j]).0 < bounds@[j].1 <= chars.len(),
            numbers@ == numbers_of(rest.take(k - skip)),
        decreases bounds.len() - k,
    {
        proof {
            lemma_field(chars@, bounds@, k as int);
            assert(rest.take(k - skip + 1).drop_last() =~= rest.take(k - skip));
            assert(rest.take(k - skip + 1).last() == fields(chars@)[k as int]);
        }
        match parse_number(&chars, bounds[k].0, bounds[k].1, i32::MIN as i64, i32::MAX as i64) {
            Some(v) => {
                numbers.push(v as i32);
            },
            None => {},
        }
        k += 1;
    }
    proof {
        assert(rest.take(bounds.len() - skip) =~= rest);
    }
    numbers
}

/// The character for the digit `d`.
pub open spec fn digit_char(d: int) -> char {
    if d == 0 {
        '0'
    } else if d == 1 {
        '1'
    } else if d == 2 {
        '2'
    } else if d == 3 {
        '3'
    } else if d == 4 {
        '4'
    } else if d == 5 {
        '5'
    } else if d == 6 {
        '6'
    } else if d == 7 {
        '7'
    } else if d == 8 {
        '8'
    } else {
        '9'
    }
}

/// The digits that write the number `n`, which is not negative, in decimal
/// notation without leading zeros.
pub open spec fn digits_of(n: int) -> Seq<char>
    decreases n,
{
    if n < 10 {
        seq![digit_char(n)]
    } else {
        digits_of(n / 10).push(digit_char(n % 10))
    }
}

/// The text that writes the whole number `n` in decimal notation, with a
/// sign `-` where it is negative.
pub open spec fn decimal_text(n: int) -> Seq<char> {
    if n < 0 {
        seq!['-'] + digits_of(-n)
    } else {
        digits_of(n)
    }
}

/// The text of one digit.
pub fn digit_text(d: u32) -> (r: &'static str)
    requires
        d < 10,
    ensures
        r@ == seq![digit_char(d as int)],
{
    proof {
        reveal_strlit("0");
        reveal_strlit("1");
        reveal_strlit("2");
        reveal_strlit("3");
        reveal_strlit("4");
        reveal_strlit("5");
        reveal_strlit("6");
        reveal_strlit("7");
        reveal_strlit("8");
        reveal_strlit("9");
    }
    let r = if d == 0 {
        "0"
    } else if d == 1 {
        "1"
    } else if d == 2 {
        "2"
    } else if d == 3 {
        "3"
    } else if d == 4 {
        "4"
    } else if d == 5 {
        "5"
    } else if d == 6 {
        "6"
    } else if d == 7 {
        "7"
    } else if d == 8 {
        "8"
    } else {
        "9"
    };
    assert(r@ =~= seq![digit_char(d as int)]);
    r
}

/// Puts the digits of `n` at the end of `text`.
pub fn append_digits(text: &mut String, n: u32)
    ensures
        final(text)@ == old(text)@ + digits_of(n as int),
    decreases n,
{
    if n >= 10 {
        append_digits(text, n / 10);
    }
    text.append(digit_text(n % 10));
    proof {
        assert(text@ =~= old(text)@ + digits_of(n as int));
    }
}

/// Puts the decimal notation of `n` at the end of `text`.
pub fn append_decimal(text: &mut String, n: i32)
    ensures
        final(text)@ == old(text)@ + decimal_text(n as int),
{
    if n < 0 {
        proof {
            reveal_strlit("-");
        }
        text.append("-");
        let ghost signed = text@;
        assert(signed =~= old(text)@ + seq!['-']);
        append_digits(text, (-(n as i64)) as u32);
        proof {
            assert(text@ =~= old(text)@ + decimal_text(n as int));
        }
    } else {
        append_digits(text, n as u32);
    }
}

} // verus!
