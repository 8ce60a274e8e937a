//! The dice notation: what a piece of text writes, whether the dice of a
//! formula can be thrown, and whether a formula can be carried out on the
//! values that were thrown.

use vstd::prelude::*;
use vstd::std_specs::iter::IteratorSpec;

verus! {

/// The four operations of the notation.
#[derive(Clone, Copy, Debug, PartialEq, Eq, Structural)]
pub enum Operator {
    Add,
    Subtract,
    Multiply,
    Divide,
}

/// One item of a postfix formula.
#[derive(Clone, Copy, Debug, PartialEq, Eq, Structural)]
pub enum Item {
    /// An operator, which takes the two values before it.
    Operator(Operator),
    /// A constant, such as `15` or `-3`.
    Constant(i32),
    /// `count` dice of `sides` sides each, such as `2d6`.
    Dice { count: i32, sides: i32 },
    /// A piece of text that is neither.
    Unreadable,
}

/// The least and the greatest value that a part of a formula can take.
#[derive(Clone, Copy, Debug, PartialEq, Eq, Structural)]
pub struct Bounds {
    pub low: i32,
    pub high: i32,
}

/// The characters that are trimmed from both ends of a text: those with
/// the Unicode property `White_Space`.
pub open spec fn is_whitespace(c: char) -> bool {
    let code = c as u32;
    ||| 0x09 <= code <= 0x0d
    ||| code == 0x20
    ||| code == 0x85
    ||| code == 0xa0
    ||| code == 0x1680
    ||| 0x2000 <= code <= 0x200a
    ||| code == 0x2028
    ||| code == 0x2029
    ||| code == 0x202f
    ||| code == 0x205f
    ||| code == 0x3000
}

/// How many whitespace characters `s` starts with.
pub open spec fn leading_whitespace(s: Seq<char>) -> nat
    decreases s.len(),
{
    if s.len() > 0 && is_whitespace(s[0]) {
        1 + leading_whitespace(s.skip(1))
    } else {
        0
    }
}

/// How many whitespace characters `s` ends with.
pub open spec fn trailing_whitespace(s: Seq<char>) -> nat
    decreases s.len(),
{
    if s.len() > 0 && is_whitespace(s.last()) {
        1 + trailing_whitespace(s.drop_last())
    } else {
        0
    }
}

/// `s` without the whitespace at its ends.
pub open spec fn trimmed(s: Seq<char>) -> Seq<char> {
    let rest = s.skip(leading_whitespace(s) as int);
    rest.take(rest.len() - trailing_whitespace(rest))
}

/// The operator that a character writes, if it writes one. Division,
/// multiplication and subtraction each have a second spelling: U+00F7,
/// U+00D7 and U+2212.
pub open spec fn operator_of(c: char) -> Option<Operator> {
    if c == '+' {
        Some(Operator::Add)
    } else if c == '-' || c == '\u{2212}' {
        Some(Operator::Subtract)
    } else if c == '*' || c == '\u{d7}' {
        Some(Operator::Multiply)
    } else if c == '/' || c == '\u{f7}' {
        Some(Operator::Divide)
    } else {
        None
    }
}

/// The decimal digits, `0` to `9`.
pub open spec fn is_digit(c: char) -> bool {
    '0' as u32 <= c as u32 <= '9' as u32
}

/// The number that a digit writes.
pub open spec fn digit_value(c: char) -> nat {
    (c as u32 - '0' as u32) as nat
}

/// Every character is a digit.
pub open spec fn all_digits(s: Seq<char>) -> bool {
    forall|i: int| 0 <= i < s.len() ==> is_digit(#[trigger] s[i])
}

/// The number that a run of decimal digits writes.
pub open spec fn digits_value(digits: Seq<char>) -> nat
    decreases digits.len(),
{
    if digits.len() == 0 {
        0
    } else {
        digits_value(digits.drop_last()) * 10 + digit_value(digits.last())
    }
}

/// The `i32` that a text writes: a sign or none, then digits and nothing
/// else, with a value that `i32` holds.
pub open spec fn number(text: Seq<char>) -> Option<i32> {
    if text.len() == 0 {
        None
    } else {
        let signed = text[0] == '-' || text[0] == '+';
        let digits = if signed {
            text.skip(1)
        } else {
            text
        };
        let value = digits_value(digits);
        if digits.len() == 0 || !all_digits(digits) {
            None
        } else if text[0] == '-' {
            if value <= 0x8000_0000 {
                Some((-(value as int)) as i32)
            } else {
                None
            }
        } else if value <= 0x7fff_ffff {
            Some(value as i32)
        } else {
            None
        }
    }
}

/// Where the first `mark` of `text` stands; the length of `text` where it
/// has none.
pub open spec fn first_of(text: Seq<char>, mark: char) -> nat
    decreases text.len(),
{
    if text.len() == 0 || text[0] == mark {
        0
    } else {
        1 + first_of(text.skip(1), mark)
    }
}

/// The item that a piece of text writes.
///
/// A single operator character is an operator. A text that writes a number
/// is a constant. Any other text is cut at its first `d`: before it stands
/// the count, which is one where nothing stands there, and behind it the
/// sides, where `%` means a hundred.
pub open spec fn item_of(text: Seq<char>) -> Item {
    if text.len() == 1 && operator_of(text[0]) is Some {
        Item::Operator(operator_of(text[0])->0)
    } else if number(text) is Some {
        Item::Constant(number(text)->0)
    } else {
        let at = first_of(text, 'd') as int;
        let count = if at == 0 && text.len() > 0 {
            Some(1i32)
        } else {
            number(text.take(at))
        };
        let behind = if at < text.len() {
            text.skip(at + 1)
        } else {
            Seq::empty()
        };
        let sides = if number(behind) is Some {
            number(behind)
        } else if behind =~= seq!['%'] {
            Some(100i32)
        } else {
            None
        };
        if count is Some && sides is Some {
            Item::Dice { count: count->0, sides: sides->0 }
        } else {
            Item::Unreadable
        }
    }
}

/// The items that the pieces of a formula write, in the same order.
pub open spec fn written_items(pieces: Seq<Seq<char>>) -> Seq<Item> {
    Seq::new(pieces.len(), |i: int| item_of(pieces[i]))
}

/// Every piece of the formula could be read.
pub open spec fn readable(items: Seq<Item>) -> bool {
    forall|i: int| 0 <= i < items.len() ==> #[trigger] items[i] != Item::Unreadable
}

/// The bounds `low` to `high`, where they are in order and `i32` holds
/// both.
pub open spec fn within(low: int, high: int) -> Option<Bounds> {
    if i32::MIN <= low <= high <= i32::MAX {
        Some(Bounds { low: low as i32, high: high as i32 })
    } else {
        None
    }
}

/// The bounds of a term, where it can be rolled.
///
/// No die is rolled for a count below one. A die of one side shows 0 or 1,
/// any other die 1 to its sides. Dice cannot be rolled with less than one
/// side or with as many as `i32::MAX`, nor where their greatest sum leaves
/// `i32`.
pub open spec fn term_bounds(item: Item) -> Option<Bounds> {
    match item {
        Item::Constant(value) => Some(Bounds { low: value, high: value }),
        Item::Dice { count, sides } => if count <= 0 {
            Some(Bounds { low: 0, high: 0 })
        } else if sides < 1 || sides == i32::MAX {
            None
        } else if sides == 1 {
            Some(Bounds { low: 0, high: count })
        } else if count * sides > i32::MAX {
            None
        } else {
            Some(Bounds { low: count, high: (count * sides) as i32 })
        },
        _ => None,
    }
}

/// The dice of a formula can be thrown: every term can be rolled, up to the
/// first piece that cannot be read, where the throw ends.
pub open spec fn throwable(items: Seq<Item>) -> bool
    decreases items.len(),
{
    if items.len() == 0 {
        true
    } else {
        match items[0] {
            Item::Unreadable => true,
            Item::Operator(_) => throwable(items.skip(1)),
            _ => term_bounds(items[0]) is Some && throwable(items.skip(1)),
        }
    }
}

/// The smaller of two integers.
pub open spec fn lesser(x: int, y: int) -> int {
    if x <= y {
        x
    } else {
        y
    }
}

/// The larger of two integers.
pub open spec fn greater(x: int, y: int) -> int {
    if x >= y {
        x
    } else {
        y
    }
}

/// The greatest magnitude within bounds.
pub open spec fn magnitude(bounds: Bounds) -> int {
    greater(-(bounds.low as int), bounds.high as int)
}

/// How far from zero a quotient can lie whose dividend lies within
/// `magnitude`. Division is carried out in single precision and rounded:
/// up to two to the 24th the dividend is exact and the quotient no
/// larger; beyond, the quotient is no larger than twice the dividend, and
/// it is cut to `i32`.
pub open spec fn quotient_reach(magnitude: int) -> int {
    if magnitude <= 0x100_0000 {
        magnitude
    } else {
        lesser(2 * magnitude, 0x8000_0000)
    }
}

/// The quotient of `x` by `y` rounded down, for `y` above zero.
pub open spec fn floor_over(x: int, y: int) -> int {
    if x >= 0 {
        x / y
    } else {
        -((-x + y - 1) / y)
    }
}

/// The quotient of `x` by `y` rounded down, for `y` other than zero.
pub open spec fn rounded_down(x: int, y: int) -> int {
    if y > 0 {
        floor_over(x, y)
    } else {
        floor_over(-x, -y)
    }
}

/// The quotient of `x` by `y` rounded up, for `y` other than zero.
pub open spec fn rounded_up(x: int, y: int) -> int {
    -rounded_down(-x, y)
}

/// The quotient of `x` by `y` rounded to the nearest whole number, a half
/// away from zero, for `y` other than zero.
pub open spec fn rounded(x: int, y: int) -> int {
    let n = if x >= 0 {
        x
    } else {
        -x
    };
    let m = if y > 0 {
        y
    } else {
        -y
    };
    if (x < 0) == (y < 0) {
        (2 * n + m) / (2 * m)
    } else {
        -((2 * n + m) / (2 * m))
    }
}

/// Dividend and divisor are single values, the dividend closer to zero than
/// two to the 23rd and the divisor no further than two to the 24th and not
/// zero. Single precision then tells the quotient from every whole number
/// and a half, and the rounded quotient is the exact one, rounded.
pub open spec fn exactly_rounded(left: Bounds, right: Bounds) -> bool {
    &&& left.low == left.high
    &&& right.low == right.high
    &&& -0x80_0000 < left.low < 0x80_0000
    &&& -0x100_0000 <= right.low <= 0x100_0000
    &&& right.low != 0
}

/// Neither the dividend nor the divisor is further from zero than two to
/// the 24th, and the divisor cannot be zero. Single precision then holds
/// both exactly, and the rounded quotient lies between the least quotient
/// rounded down and the greatest rounded up.
pub open spec fn exactly_divided(left: Bounds, right: Bounds) -> bool {
    &&& -0x100_0000 <= left.low <= left.high <= 0x100_0000
    &&& -0x100_0000 <= right.low <= right.high <= 0x100_0000
    &&& !(right.low <= 0 <= right.high)
}

/// The bounds of `left` and `right` under an operator, where the operation
/// can be carried out: no sum, difference or product leaves `i32`, and no
/// divisor can be zero.
pub open spec fn combined(operator: Operator, left: Bounds, right: Bounds) -> Option<Bounds> {
    match operator {
        Operator::Add => within(left.low + right.low, left.high + right.high),
        Operator::Subtract => within(left.low - right.high, left.high - right.low),
        Operator::Multiply => within(
            lesser(
                lesser(left.low * right.low, left.low * right.high),
                lesser(left.high * right.low, left.high * right.high),
            ),
            greater(
                greater(left.low * right.low, left.low * right.high),
                greater(left.high * right.low, left.high * right.high),
            ),
        ),
        Operator::Divide => if right.low <= 0 <= right.high {
            None
        } else if exactly_rounded(left, right) {
            within(
                rounded(left.low as int, right.low as int),
                rounded(left.low as int, right.low as int),
            )
        } else if exactly_divided(left, right) {
            within(
                lesser(
                    lesser(
                        rounded_down(left.low as int, right.low as int),
                        rounded_down(left.low as int, right.high as int),
                    ),
                    lesser(
                        rounded_down(left.high as int, right.low as int),
                        rounded_down(left.high as int, right.high as int),
                    ),
                ),
                greater(
                    greater(
                        rounded_up(left.low as int, right.low as int),
                        rounded_up(left.low as int, right.high as int),
                    ),
                    greater(
                        rounded_up(left.high as int, right.low as int),
                        rounded_up(left.high as int, right.high as int),
                    ),
                ),
            )
        } else {
            within(
                -quotient_reach(magnitude(left)),
                lesser(quotient_reach(magnitude(left)), i32::MAX as int),
            )
        },
    }
}

/// The values that are held after one more item: a term adds its bounds,
/// an operator puts the bounds of its result in the place of the last two.
pub open spec fn advanced(held: Seq<Bounds>, item: Item) -> Option<Seq<Bounds>> {
    match item {
        Item::Operator(operator) => if held.len() >= 2 {
            match combined(operator, held[held.len() - 2], held[held.len() - 1]) {
                Some(bounds) => Some(held.take(held.len() - 2).push(bounds)),
                None => None,
            }
        } else {
            None
        },
        _ => match term_bounds(item) {
            Some(bounds) => Some(held.push(bounds)),
            None => None,
        },
    }
}

/// The values that are held after the items `rest`, where every step can
/// be taken.
pub open spec fn settled(rest: Seq<Item>, held: Seq<Bounds>) -> Option<Seq<Bounds>>
    decreases rest.len(),
{
    if rest.len() == 0 {
        Some(held)
    } else {
        match advanced(held, rest[0]) {
            Some(next) => settled(rest.skip(1), next),
            None => None,
        }
    }
}

/// The bounds of a postfix formula: those of the one value that is left
/// where every step can be taken.
pub open spec fn formula_bounds(items: Seq<Item>) -> Option<Bounds> {
    match settled(items, Seq::empty()) {
        Some(held) => if held.len() == 1 {
            Some(held[0])
        } else {
            None
        },
        None => None,
    }
}

/// The item that a text of thrown values starts with, and how many
/// characters write it: a value in square brackets or a bare operator,
/// with the blank behind it. Only a value at the very end has no blank
/// behind it.
pub open spec fn leading_thrown(text: Seq<char>) -> Option<(Item, nat)> {
    if text.len() == 0 {
        None
    } else if text[0] == '[' {
        let close = first_of(text, ']');
        if close >= text.len() {
            None
        } else {
            match number(text.subrange(1, close as int)) {
                None => None,
                Some(value) => if close + 1 == text.len() {
                    Some((Item::Constant(value), close + 1))
                } else if text[close as int + 1] == ' ' {
                    Some((Item::Constant(value), close + 2))
                } else {
                    None
                },
            }
        }
    } else if operator_of(text[0]) is Some && text.len() >= 2 && text[1] == ' ' {
        Some((Item::Operator(operator_of(text[0])->0), 2nat))
    } else {
        None
    }
}

/// The formula that a text of thrown values writes, where all of it can be
/// read.
pub open spec fn thrown_items(text: Seq<char>) -> Option<Seq<Item>>
    decreases text.len(),
{
    if text.len() == 0 {
        Some(Seq::empty())
    } else {
        match leading_thrown(text) {
            Some((item, length)) => if 0 < length <= text.len() {
                match thrown_items(text.skip(length as int)) {
                    Some(items) => Some(seq![item] + items),
                    None => None,
                }
            } else {
                None
            },
            None => None,
        }
    }
}

/// The bounds of the formula that a text of thrown values writes, where the
/// text can be read and the formula can be carried out. Only a division
/// leaves room between the bounds: every other step is exact.
pub open spec fn thrown_bounds(text: Seq<char>) -> Option<Bounds> {
    match thrown_items(text) {
        Some(items) => formula_bounds(items),
        None => None,
    }
}

/// `inner` lies within `outer`.
pub open spec fn inside(inner: Bounds, outer: Bounds) -> bool {
    outer.low <= inner.low <= inner.high <= outer.high
}

/// Every one of `inner` lies within its counterpart in `outer`.
pub open spec fn all_inside(inner: Seq<Bounds>, outer: Seq<Bounds>) -> bool {
    inner.len() == outer.len() && forall|i: int|
        0 <= i < inner.len() ==> inside(#[trigger] inner[i], outer[i])
}

/// `thrown` can come up for `written`: an operator stays as it is, and a
/// term becomes a value within its bounds.
pub open spec fn comes_up_for(thrown: Item, written: Item) -> bool {
    match written {
        Item::Operator(_) => thrown == written,
        _ => thrown is Constant && term_bounds(written) is Some && inside(
            Bounds { low: thrown->Constant_0, high: thrown->Constant_0 },
            term_bounds(written)->0,
        ),
    }
}

/// The formula `thrown` is a throw of the formula `written`.
pub open spec fn came_up(thrown: Seq<Item>, written: Seq<Item>) -> bool {
    thrown.len() == written.len() && forall|i: int|
        0 <= i < written.len() ==> comes_up_for(#[trigger] thrown[i], written[i])
}

proof fn lemma_floor_over(x: int, y: int)
    requires
        y > 0,
    ensures
        floor_over(x, y) * y <= x < (floor_over(x, y) + 1) * y,
{
    if x >= 0 {
        vstd::arithmetic::div_mod::lemma_fundamental_div_mod(x, y);
        let q = x / y;
        assert((q + 1) * y == q * y + y && q * y == y * q) by (nonlinear_arith);
    } else {
        let n = -x + y - 1;
        vstd::arithmetic::div_mod::lemma_fundamental_div_mod(n, y);
        let c = n / y;
        assert((-c) * y == -(y * c) && (-c + 1) * y == -(y * c) + y) by (nonlinear_arith);
    }
}

proof fn lemma_rounded_down(x: int, y: int)
    requires
        y != 0,
    ensures
        y > 0 ==> rounded_down(x, y) * y <= x < (rounded_down(x, y) + 1) * y,
        y < 0 ==> rounded_down(x, y) * y >= x > (rounded_down(x, y) + 1) * y,
{
    if y > 0 {
        lemma_floor_over(x, y);
    } else {
        lemma_floor_over(-x, -y);
        let q = rounded_down(x, y);
        assert(q * (-y) == -(q * y) && (q + 1) * (-y) == -((q + 1) * y)) by (nonlinear_arith);
    }
}

proof fn lemma_rounded_up(x: int, y: int)
    requires
        y != 0,
    ensures
        y > 0 ==> (rounded_up(x, y) - 1) * y < x <= rounded_up(x, y) * y,
        y < 0 ==> (rounded_up(x, y) - 1) * y > x >= rounded_up(x, y) * y,
{
    lemma_rounded_down(-x, y);
    let q = rounded_down(-x, y);
    assert((-q) * y == -(q * y) && (-q - 1) * y == -((q + 1) * y)) by (nonlinear_arith);
}

/// Whether `q` is no greater than the quotient of `x` by `y`.
spec fn under(q: int, x: int, y: int) -> bool {
    if y > 0 {
        q * y <= x
    } else {
        q * y >= x
    }
}

/// Whether `q` is no smaller than the quotient of `x` by `y`.
spec fn over(q: int, x: int, y: int) -> bool {
    if y > 0 {
        q * y >= x
    } else {
        q * y <= x
    }
}

proof fn lemma_down_is_greatest(q: int, x: int, y: int)
    requires
        y != 0,
        under(q, x, y),
    ensures
        q <= rounded_down(x, y),
{
    lemma_rounded_down(x, y);
    let f = rounded_down(x, y);
    if q > f {
        if y > 0 {
            assert(q * y >= (f + 1) * y) by (nonlinear_arith)
                requires
                    q >= f + 1,
                    y > 0,
            ;
        } else {
            assert(q * y <= (f + 1) * y) by (nonlinear_arith)
                requires
                    q >= f + 1,
                    y < 0,
            ;
        }
    }
}

proof fn lemma_up_is_least(q: int, x: int, y: int)
    requires
        y != 0,
        over(q, x, y),
    ensures
        rounded_up(x, y) <= q,
{
    lemma_rounded_up(x, y);
    let c = rounded_up(x, y);
    if q < c {
        if y > 0 {
            assert(q * y <= (c - 1) * y) by (nonlinear_arith)
                requires
                    q <= c - 1,
                    y > 0,
            ;
        } else {
            assert(q * y >= (c - 1) * y) by (nonlinear_arith)
                requires
                    q <= c - 1,
                    y < 0,
            ;
        }
    }
}

/// Within a box that keeps clear of a zero divisor, the quotient at some
/// corner is no greater than the quotient at `x` and `y`.
proof fn lemma_corner_under(x: int, y: int, a: int, b: int, c: int, d: int) -> (corner: (int, int))
    requires
        a <= x <= b,
        c <= y <= d,
        c > 0 || d < 0,
    ensures
        corner.0 == a || corner.0 == b,
        corner.1 == c || corner.1 == d,
        rounded_down(corner.0, corner.1) <= rounded_down(x, y),
{
    let x0 = if y > 0 {
        a
    } else {
        b
    };
    // Moving `x` to its corner lowers the quotient.
    lemma_rounded_down(x0, y);
    let q0 = rounded_down(x0, y);
    assert(under(q0, x, y));
    lemma_down_is_greatest(q0, x, y);
    // Moving `y` to its corner lowers it again.
    let y0 = if (q0 >= 0) == (y > 0) {
        d
    } else {
        c
    };
    lemma_rounded_down(x0, y0);
    let q1 = rounded_down(x0, y0);
    // `q1` is under the quotient of `x0` by `y0`; show it is under that by `y`.
    assert(q1 <= q0) by {
        if q1 > q0 {
            // then q1 >= q0 + 1, and (q0 + 1) bounds the quotient by y from above
            if y > 0 {
                // y0 > 0 as well
                assert(x0 < (q0 + 1) * y);
                assert(q1 * y0 <= x0);
                if q0 >= 0 {
                    // y0 == d >= y, q1 >= q0 + 1 >= 1
                    assert(q1 * y0 >= (q0 + 1) * y) by (nonlinear_arith)
                        requires
                            q1 >= q0 + 1,
                            q0 + 1 >= 1,
                            y0 >= y,
                            y > 0,
                    ;
                } else {
                    // y0 == c <= y, q0 + 1 <= 0
                    if q1 >= 0 {
                        assert(q1 * y0 >= 0) by (nonlinear_arith)
                            requires
                                q1 >= 0,
                                y0 > 0,
                        ;
                        assert((q0 + 1) * y <= 0) by (nonlinear_arith)
                            requires
                                q0 + 1 <= 0,
                                y > 0,
                        ;
                    } else {
                        assert(q1 * y0 >= (q0 + 1) * y) by (nonlinear_arith)
                            requires
                                q1 >= q0 + 1,
                                q1 < 0,
                                0 < y0 <= y,
                        ;
                    }
                }
            } else {
                assert(x0 > (q0 + 1) * y);
                assert(q1 * y0 >= x0);
                if q0 >= 0 {
                    // y0 == c <= y < 0, q1 >= 1
                    assert(q1 * y0 <= (q0 + 1) * y) by (nonlinear_arith)
                        requires
                            q1 >= q0 + 1,
                            q0 + 1 >= 1,
                            y0 <= y,
                            y < 0,
                    ;
                } else {
                    // y0 == d >= y, both below zero
                    if q1 >= 0 {
                        assert(q1 * y0 <= 0) by (nonlinear_arith)
                            requires
                                q1 >= 0,
                                y0 < 0,
                        ;
                        assert((q0 + 1) * y >= 0) by (nonlinear_arith)
                            requires
                                q0 + 1 <= 0,
                                y < 0,
                        ;
                    } else {
                        assert(q1 * y0 <= (q0 + 1) * y) by (nonlinear_arith)
                            requires
                                q1 >= q0 + 1,
                                q1 < 0,
                                y <= y0 < 0,
                        ;
                    }
                }
            }
        }
    }
    (x0, y0)
}

/// The counterpart of [`lemma_corner_under`] for quotients rounded up.
proof fn lemma_corner_over(x: int, y: int, a: int, b: int, c: int, d: int) -> (corner: (int, int))
    requires
        a <= x <= b,
        c <= y <= d,
        c > 0 || d < 0,
    ensures
        corner.0 == a || corner.0 == b,
        corner.1 == c || corner.1 == d,
        rounded_up(x, y) <= rounded_up(corner.0, corner.1),
{
    let mirrored = lemma_corner_under(-x, y, -b, -a, c, d);
    (-mirrored.0, mirrored.1)
}

/// A rounded quotient is no further from zero than the dividend, and
/// rounding down gives no more than rounding up.
proof fn lemma_quotient_reach(x: int, y: int)
    requires
        y != 0,
    ensures
        -x <= rounded_down(x, y) <= rounded_up(x, y) <= x || x <= rounded_down(x, y) <= rounded_up(
            x,
            y,
        ) <= -x,
{
    let size = if x >= 0 {
        x
    } else {
        -x
    };
    assert(under(-size, x, y) && over(size, x, y)) by (nonlinear_arith)
        requires
            y != 0,
            size >= x,
            size >= -x,
            size >= 0,
    ;
    lemma_down_is_greatest(-size, x, y);
    lemma_up_is_least(size, x, y);
    lemma_rounded_down(x, y);
    lemma_rounded_up(x, y);
    let f = rounded_down(x, y);
    let c = rounded_up(x, y);
    if f > c {
        if y > 0 {
            assert(f * y > c * y) by (nonlinear_arith)
                requires
                    f > c,
                    y > 0,
            ;
        } else {
            assert(f * y < c * y) by (nonlinear_arith)
                requires
                    f > c,
                    y < 0,
            ;
        }
    }
}

/// A quotient rounded to the nearest lies between the quotient rounded
/// down and the quotient rounded up.
proof fn lemma_rounded_between(x: int, y: int)
    requires
        y != 0,
    ensures
        rounded_down(x, y) <= rounded(x, y) <= rounded_up(x, y),
{
    let n = if x >= 0 {
        x
    } else {
        -x
    };
    let m = if y > 0 {
        y
    } else {
        -y
    };
    let q = (2 * n + m) / (2 * m);
    vstd::arithmetic::div_mod::lemma_fundamental_div_mod(2 * n + m, 2 * m);
    // (q - 1) * m < n < (q + 1) * m
    assert((q - 1) * m < n < (q + 1) * m) by (nonlinear_arith)
        requires
            2 * n + m == (2 * m) * q + (2 * n + m) % (2 * m),
            0 <= (2 * n + m) % (2 * m) < 2 * m,
            m > 0,
    ;
    lemma_floor_over(n, m);
    lemma_floor_over(-n, m);
    let f = floor_over(n, m);
    let c = -floor_over(-n, m);
    assert(f <= q) by (nonlinear_arith)
        requires
            f * m <= n,
            n < (q + 1) * m,
            m > 0,
    ;
    assert(q <= c) by (nonlinear_arith)
        requires
            (-c) * m <= -n,
            (q - 1) * m < n,
            m > 0,
    ;
}

/// The product of two values lies between the least and the greatest
/// product of the ends of their bounds.
proof fn lemma_product_within(x: int, y: int, a: int, b: int, c: int, d: int)
    requires
        a <= x <= b,
        c <= y <= d,
    ensures
        lesser(lesser(a * c, a * d), lesser(b * c, b * d)) <= x * y <= greater(
            greater(a * c, a * d),
            greater(b * c, b * d),
        ),
{
    // For `y` held, the product lies between those at the ends of `x`; for an
    // end of `x` held, between those at the ends of `y`.
    assert((a * y <= x * y <= b * y) || (b * y <= x * y <= a * y)) by (nonlinear_arith)
        requires
            a <= x <= b,
    ;
    assert((a * c <= a * y <= a * d) || (a * d <= a * y <= a * c)) by (nonlinear_arith)
        requires
            c <= y <= d,
    ;
    assert((b * c <= b * y <= b * d) || (b * d <= b * y <= b * c)) by (nonlinear_arith)
        requires
            c <= y <= d,
    ;
}

proof fn lemma_combined_within(
    operator: Operator,
    left: Bounds,
    right: Bounds,
    wider_left: Bounds,
    wider_right: Bounds,
)
    requires
        inside(left, wider_left),
        inside(right, wider_right),
        combined(operator, wider_left, wider_right) is Some,
    ensures
        combined(operator, left, right) is Some,
        inside(
            combined(operator, left, right)->0,
            combined(operator, wider_left, wider_right)->0,
        ),
{
    let (a, b) = (wider_left.low as int, wider_left.high as int);
    let (c, d) = (wider_right.low as int, wider_right.high as int);
    let (p, q) = (left.low as int, left.high as int);
    let (r, t) = (right.low as int, right.high as int);
    match operator {
        Operator::Add => {},
        Operator::Subtract => {},
        Operator::Multiply => {
            lemma_product_within(p, r, a, b, c, d);
            lemma_product_within(p, t, a, b, c, d);
            lemma_product_within(q, r, a, b, c, d);
            lemma_product_within(q, t, a, b, c, d);
        },
        Operator::Divide => {
            if exactly_rounded(left, right) {
                lemma_rounded_between(p, r);
                lemma_quotient_reach(p, r);
                if !exactly_rounded(wider_left, wider_right) && exactly_divided(
                    wider_left,
                    wider_right,
                ) {
                    lemma_corner_under(p, r, a, b, c, d);
                    lemma_corner_over(p, r, a, b, c, d);
                }
            } else if exactly_divided(left, right) {
                lemma_quotient_reach(p, r);
                lemma_quotient_reach(p, t);
                lemma_quotient_reach(q, r);
                lemma_quotient_reach(q, t);
                if exactly_divided(wider_left, wider_right) {
                    lemma_corner_under(p, r, a, b, c, d);
                    lemma_corner_under(p, t, a, b, c, d);
                    lemma_corner_under(q, r, a, b, c, d);
                    lemma_corner_under(q, t, a, b, c, d);
                    lemma_corner_over(p, r, a, b, c, d);
                    lemma_corner_over(p, t, a, b, c, d);
                    lemma_corner_over(q, r, a, b, c, d);
                    lemma_corner_over(q, t, a, b, c, d);
                }
            }
        },
    }
}

proof fn lemma_advanced_within(
    held: Seq<Bounds>,
    wider: Seq<Bounds>,
    thrown: Item,
    written: Item,
)
    requires
        all_inside(held, wider),
        comes_up_for(thrown, written),
        advanced(wider, written) is Some,
    ensures
        advanced(held, thrown) is Some,
        all_inside(advanced(held, thrown)->0, advanced(wider, written)->0),
{
    match written {
        Item::Operator(operator) => {
            let n = held.len() as int;
            lemma_combined_within(
                operator,
                held[n - 2],
                held[n - 1],
                wider[n - 2],
                wider[n - 1],
            );
        },
        _ => {},
    }
}

proof fn lemma_settled_within(
    thrown: Seq<Item>,
    written: Seq<Item>,
    held: Seq<Bounds>,
    wider: Seq<Bounds>,
)
    requires
        came_up(thrown, written),
        all_inside(held, wider),
        settled(written, wider) is Some,
    ensures
        settled(thrown, held) is Some,
        all_inside(settled(thrown, held)->0, settled(written, wider)->0),
    decreases written.len(),
{
    if written.len() > 0 {
        assert(comes_up_for(thrown[0], written[0]));
        lemma_advanced_within(held, wider, thrown[0], written[0]);
        assert forall|i: int| 0 <= i < written.skip(1).len() implies comes_up_for(
            #[trigger] thrown.skip(1)[i],
            written.skip(1)[i],
        ) by {
            assert(comes_up_for(thrown[i + 1], written[i + 1]));
        }
        lemma_settled_within(
            thrown.skip(1),
            written.skip(1),
            advanced(held, thrown[0])->0,
            advanced(wider, written[0])->0,
        );
    }
}

/// A throw stays within the bounds of what was written: where the written
/// formula has bounds, the formula can be carried out on whatever comes up
/// for it, and its value lies within those bounds.
pub proof fn law_a_throw_stays_within_bounds(thrown: Seq<Item>, written: Seq<Item>)
    requires
        came_up(thrown, written),
        formula_bounds(written) is Some,
    ensures
        formula_bounds(thrown) is Some,
        inside(formula_bounds(thrown)->0, formula_bounds(written)->0),
{
    lemma_settled_within(thrown, written, Seq::empty(), Seq::empty());
}

/// A formula that has bounds can be read, and its dice can be thrown.
pub proof fn law_what_has_bounds_can_be_thrown(items: Seq<Item>, held: Seq<Bounds>)
    requires
        settled(items, held) is Some,
    ensures
        readable(items),
        throwable(items),
    decreases items.len(),
{
    if items.len() > 0 {
        law_what_has_bounds_can_be_thrown(items.skip(1), advanced(held, items[0])->0);
        assert forall|i: int| 0 <= i < items.len() implies #[trigger] items[i]
            != Item::Unreadable by {
            if i > 0 {
                assert(items.skip(1)[i - 1] == items[i]);
            }
        }
    }
}

proof fn lemma_first_of(text: Seq<char>, mark: char, k: nat)
    requires
        k <= text.len(),
        forall|j: int| 0 <= j < k ==> #[trigger] text[j] != mark,
        k == text.len() || text[k as int] == mark,
    ensures
        first_of(text, mark) == k,
    decreases k,
{
    if k > 0 {
        let rest = text.skip(1);
        assert forall|j: int| 0 <= j < k - 1 implies #[trigger] rest[j] != mark by {
            assert(rest[j] == text[j + 1]);
        }
        lemma_first_of(rest, mark, (k - 1) as nat);
    }
}

fn digit_of(c: char) -> (d: Option<u32>)
    ensures
        d is Some == is_digit(c),
        d matches Some(v) ==> v == digit_value(c) && v <= 9,
{
    let code: u32 = c as u32;
    if 48 <= code && code <= 57 {
        Some(code - 48)
    } else {
        None
    }
}

fn operator_for(c: char) -> (r: Option<Operator>)
    ensures
        r == operator_of(c),
{
    if c == '+' {
        Some(Operator::Add)
    } else if c == '-' || c == '\u{2212}' {
        Some(Operator::Subtract)
    } else if c == '*' || c == '\u{d7}' {
        Some(Operator::Multiply)
    } else if c == '/' || c == '\u{f7}' {
        Some(Operator::Divide)
    } else {
        None
    }
}

/// All the characters of a text.
pub fn characters(text: &str) -> (all: Vec<char>)
    ensures
        all@ == text@,
{
    broadcast use vstd::string::group_string_axioms;

    let mut all: Vec<char> = Vec::new();
    let mut chars = text.chars();
    assert(all@ + chars.remaining() =~= text@);
    loop
        invariant
            chars.obeys_prophetic_iter_laws(),
            chars.decrease() is Some,
            all@ + chars.remaining() == text@,
        ensures
            all@ == text@,
        decreases chars.decrease()->0,
    {
        let ghost before = chars.remaining();
        let ghost so_far = all@;
        match chars.next() {
            None => {
                assert(so_far + before =~= so_far);
                break ;
            },
            Some(c) => {
                all.push(c);
                assert(all@ + chars.remaining() =~= so_far + before);
            },
        }
    }
    all
}

/// Reads the text from `from` up to `to` as a number.
#[verifier::loop_isolation(false)]
fn read_number(text: &Vec<char>, from: usize, to: usize) -> (r: Option<i32>)
    requires
        from <= to <= text.len(),
    ensures
        r == number(text@.subrange(from as int, to as int)),
{
    let ghost written = text@.subrange(from as int, to as int);
    if from == to {
        return None;
    }
    let first = text[from];
    assert(written[0] == first);
    let negative = first == '-';
    let start: usize = if first == '-' || first == '+' {
        from + 1
    } else {
        from
    };
    let ghost digits = text@.subrange(start as int, to as int);
    assert(digits =~= if first == '-' || first == '+' {
        written.skip(1)
    } else {
        written
    });
    if start == to {
        return None;
    }
    let mut value: u64 = 0;
    let mut fits: bool = true;
    let mut i: usize = start;
    while i < to
        invariant
            start <= i <= to <= text.len(),
            digits == text@.subrange(start as int, to as int),
            forall|j: int| start <= j < i ==> is_digit(#[trigger] text@[j]),
            fits ==> value <= 0x8000_0000 && value == digits_value(
                text@.subrange(start as int, i as int),
            ),
            !fits ==> digits_value(text@.subrange(start as int, i as int)) > 0x8000_0000,
        decreases to - i,
    {
        match digit_of(text[i]) {
            None => {
                assert(digits[i - start] == text@[i as int]);
                return None;
            },
            Some(d) => {
                proof {
                    let longer = text@.subrange(start as int, i + 1);
                    assert(longer.drop_last() =~= text@.subrange(start as int, i as int));
                    assert(longer.last() == text@[i as int]);
                }
                if fits {
                    let next: u64 = value * 10 + d as u64;
                    if next > 0x8000_0000 {
                        fits = false;
                    } else {
                        value = next;
                    }
                }
            },
        }
        i = i + 1;
    }
    assert(text@.subrange(start as int, i as int) =~= digits);
    assert(all_digits(digits)) by {
        assert forall|j: int| 0 <= j < digits.len() implies is_digit(#[trigger] digits[j]) by {
            assert(digits[j] == text@[start + j]);
        }
    }
    if !fits {
        None
    } else if negative {
        let magnitude: i64 = value as i64;
        Some((-magnitude) as i32)
    } else if value <= 0x7fff_ffff {
        Some(value as i32)
    } else {
        None
    }
}

/// Reads a piece of text as an item.
pub fn read_item(text: &Vec<char>) -> (item: Item)
    ensures
        item == item_of(text@),
{
    assert(text@.subrange(0, text.len() as int) =~= text@);
    if text.len() == 1 {
        if let Some(operator) = operator_for(text[0]) {
            return Item::Operator(operator);
        }
    }
    if let Some(value) = read_number(text, 0, text.len()) {
        return Item::Constant(value);
    }
    let mut at: usize = 0;
    while at < text.len() && text[at] != 'd'
        invariant
            at <= text.len(),
            forall|j: int| 0 <= j < at ==> #[trigger] text@[j] != 'd',
        decreases text.len() - at,
    {
        at = at + 1;
    }
    proof {
        lemma_first_of(text@, 'd', at as nat);
        assert(text@.take(at as int) =~= text@.subrange(0, at as int));
    }
    let count: Option<i32> = if at == 0 && text.len() > 0 {
        Some(1)
    } else {
        read_number(text, 0, at)
    };
    let ghost behind = if at < text.len() {
        text@.skip(at + 1)
    } else {
        Seq::empty()
    };
    let sides: Option<i32> = if at < text.len() {
        assert(behind =~= text@.subrange(at + 1, text.len() as int));
        match read_number(text, at + 1, text.len()) {
            Some(value) => Some(value),
            None => if text.len() - at == 2 && text[at + 1] == '%' {
                assert(behind =~= seq!['%']);
                Some(100)
            } else {
                assert(!(behind =~= seq!['%'])) by {
                    if behind.len() == 1 {
                        assert(behind[0] == text@[at + 1]);
                    }
                }
                None
            },
        }
    } else {
        None
    };
    match (count, sides) {
        (Some(count), Some(sides)) => Item::Dice { count, sides },
        _ => Item::Unreadable,
    }
}

fn fit(low: i64, high: i64) -> (r: Option<Bounds>)
    ensures
        r == within(low as int, high as int),
{
    if -0x8000_0000 <= low && low <= high && high <= 0x7fff_ffff {
        Some(Bounds { low: low as i32, high: high as i32 })
    } else {
        None
    }
}

fn times(x: i32, y: i32) -> (product: i64)
    ensures
        product == x * y,
{
    assert(-0x4000_0000_0000_0000 <= x * y <= 0x4000_0000_0000_0000) by (nonlinear_arith)
        requires
            -0x8000_0000 <= x <= 0x8000_0000,
            -0x8000_0000 <= y <= 0x8000_0000,
    ;
    x as i64 * y as i64
}

fn smaller(x: i64, y: i64) -> (r: i64)
    ensures
        r == lesser(x as int, y as int),
{
    if x <= y {
        x
    } else {
        y
    }
}

fn larger(x: i64, y: i64) -> (r: i64)
    ensures
        r == greater(x as int, y as int),
{
    if x >= y {
        x
    } else {
        y
    }
}

/// The bounds of a term, where it can be rolled.
pub fn term_limits(item: Item) -> (r: Option<Bounds>)
    ensures
        r == term_bounds(item),
{
    match item {
        Item::Constant(value) => Some(Bounds { low: value, high: value }),
        Item::Dice { count, sides } => if count <= 0 {
            Some(Bounds { low: 0, high: 0 })
        } else if sides < 1 || sides == i32::MAX {
            None
        } else if sides == 1 {
            Some(Bounds { low: 0, high: count })
        } else {
            let greatest: i64 = times(count, sides);
            if greatest > 0x7fff_ffff {
                None
            } else {
                assert(greatest >= 0) by (nonlinear_arith)
                    requires
                        greatest == count * sides,
                        count > 0,
                        sides > 0,
                ;
                Some(Bounds { low: count, high: greatest as i32 })
            }
        },
        _ => None,
    }
}

fn floor_quotient(x: i64, y: i64) -> (q: i64)
    requires
        -0x100_0000 <= x <= 0x100_0000,
        -0x100_0000 <= y <= 0x100_0000,
        y != 0,
    ensures
        q == rounded_down(x as int, y as int),
        -0x200_0000 <= q <= 0x200_0000,
{
    let over: i64 = if y > 0 {
        y
    } else {
        -y
    };
    let under: i64 = if y > 0 {
        x
    } else {
        -x
    };
    if under >= 0 {
        let q: i64 = under / over;
        assert(0 <= q <= under) by (nonlinear_arith)
            requires
                q == (under as int) / (over as int),
                under >= 0,
                over >= 1,
        ;
        q
    } else {
        let q: i64 = (-under + over - 1) / over;
        assert(0 <= q <= -under + over - 1) by (nonlinear_arith)
            requires
                q == (-under + over - 1) / (over as int),
                -under + over - 1 >= 0,
                over >= 1,
        ;
        -q
    }
}

fn round_quotient(x: i64, y: i64) -> (q: i64)
    requires
        -0x80_0000 < x < 0x80_0000,
        -0x100_0000 <= y <= 0x100_0000,
        y != 0,
    ensures
        q == rounded(x as int, y as int),
        -0x200_0000 <= q <= 0x200_0000,
{
    let n: i64 = if x >= 0 {
        x
    } else {
        -x
    };
    let m: i64 = if y > 0 {
        y
    } else {
        -y
    };
    let q: i64 = (2 * n + m) / (2 * m);
    assert(0 <= q <= 2 * n + m) by (nonlinear_arith)
        requires
            q == (2 * n + m) / (2 * m),
            2 * n + m >= 0,
            2 * m >= 1,
    ;
    assert(q <= 0x200_0000) by (nonlinear_arith)
        requires
            q == (2 * n + m) / (2 * m),
            0 <= n < 0x80_0000,
            m >= 1,
    ;
    if (x < 0) == (y < 0) {
        q
    } else {
        -q
    }
}

fn ceiling_quotient(x: i64, y: i64) -> (q: i64)
    requires
        -0x100_0000 <= x <= 0x100_0000,
        -0x100_0000 <= y <= 0x100_0000,
        y != 0,
    ensures
        q == rounded_up(x as int, y as int),
        -0x200_0000 <= q <= 0x200_0000,
{
    -floor_quotient(-x, y)
}

/// The bounds of `left` and `right` under an operator, where the operation
/// can be carried out.
pub fn combine(operator: Operator, left: Bounds, right: Bounds) -> (r: Option<Bounds>)
    ensures
        r == combined(operator, left, right),
{
    match operator {
        Operator::Add => fit(
            left.low as i64 + right.low as i64,
            left.high as i64 + right.high as i64,
        ),
        Operator::Subtract => fit(
            left.low as i64 - right.high as i64,
            left.high as i64 - right.low as i64,
        ),
        Operator::Multiply => {
            let a: i64 = times(left.low, right.low);
            let b: i64 = times(left.low, right.high);
            let c: i64 = times(left.high, right.low);
            let d: i64 = times(left.high, right.high);
            fit(smaller(smaller(a, b), smaller(c, d)), larger(larger(a, b), larger(c, d)))
        },
        Operator::Divide => if right.low <= 0 && 0 <= right.high {
            None
        } else if left.low == left.high && right.low == right.high && -0x80_0000 < left.low
            && left.low < 0x80_0000 && -0x100_0000 <= right.low && right.low <= 0x100_0000 {
            let quotient: i64 = round_quotient(left.low as i64, right.low as i64);
            fit(quotient, quotient)
        } else if -0x100_0000 <= left.low && left.low <= left.high && left.high <= 0x100_0000
            && -0x100_0000 <= right.low && right.low <= right.high && right.high <= 0x100_0000 {
            let a: i64 = floor_quotient(left.low as i64, right.low as i64);
            let b: i64 = floor_quotient(left.low as i64, right.high as i64);
            let c: i64 = floor_quotient(left.high as i64, right.low as i64);
            let d: i64 = floor_quotient(left.high as i64, right.high as i64);
            let e: i64 = ceiling_quotient(left.low as i64, right.low as i64);
            let f: i64 = ceiling_quotient(left.low as i64, right.high as i64);
            let g: i64 = ceiling_quotient(left.high as i64, right.low as i64);
            let h: i64 = ceiling_quotient(left.high as i64, right.high as i64);
            fit(smaller(smaller(a, b), smaller(c, d)), larger(larger(e, f), larger(g, h)))
        } else {
            let size: i64 = larger(-(left.low as i64), left.high as i64);
            let reach: i64 = if size <= 0x100_0000 {
                size
            } else {
                smaller(2 * size, 0x8000_0000)
            };
            fit(-reach, smaller(reach, 0x7fff_ffff))
        },
    }
}

/// The bounds of a postfix formula, where every step of it can be taken
/// and one value is left.
pub fn formula_limits(items: &Vec<Item>) -> (r: Option<Bounds>)
    ensures
        r == formula_bounds(items@),
{
    let mut held: Vec<Bounds> = Vec::new();
    let mut i: usize = 0;
    assert(items@.skip(0) =~= items@);
    while i < items.len()
        invariant
            i <= items.len(),
            settled(items@, Seq::empty()) == settled(items@.skip(i as int), held@),
        decreases items.len() - i,
    {
        let item = items[i];
        let ghost rest = items@.skip(i as int);
        let ghost before = held@;
        assert(rest[0] == item);
        assert(rest.skip(1) =~= items@.skip(i + 1));
        match item {
            Item::Operator(operator) => {
                let n: usize = held.len();
                if n < 2 {
                    return None;
                }
                match combine(operator, held[n - 2], held[n - 1]) {
                    None => {
                        return None;
                    },
                    Some(bounds) => {
                        held.pop();
                        held.pop();
                        held.push(bounds);
                        assert(held@ =~= before.take(before.len() - 2).push(bounds));
                    },
                }
            },
            _ => match term_limits(item) {
                None => {
                    return None;
                },
                Some(bounds) => {
                    held.push(bounds);
                },
            },
        }
        i = i + 1;
    }
    if held.len() == 1 {
        Some(held[0])
    } else {
        None
    }
}

/// Decides [`throwable`].
pub fn can_throw(items: &Vec<Item>) -> (b: bool)
    ensures
        b == throwable(items@),
{
    let mut i: usize = 0;
    assert(items@.skip(0) =~= items@);
    while i < items.len()
        invariant
            i <= items.len(),
            throwable(items@) == throwable(items@.skip(i as int)),
        decreases items.len() - i,
    {
        let item = items[i];
        let ghost rest = items@.skip(i as int);
        assert(rest[0] == item);
        assert(rest.skip(1) =~= items@.skip(i + 1));
        match item {
            Item::Unreadable => {
                return true;
            },
            Item::Operator(_) => {},
            _ => {
                if term_limits(item).is_none() {
                    return false;
                }
            },
        }
        i = i + 1;
    }
    true
}

/// Decides [`readable`].
pub fn can_read(items: &Vec<Item>) -> (b: bool)
    ensures
        b == readable(items@),
{
    let mut i: usize = 0;
    while i < items.len()
        invariant
            i <= items.len(),
            forall|j: int| 0 <= j < i ==> #[trigger] items@[j] != Item::Unreadable,
        decreases items.len() - i,
    {
        match items[i] {
            Item::Unreadable => {
                return false;
            },
            _ => {},
        }
        i = i + 1;
    }
    true
}

spec fn continued(done: Seq<Item>, rest: Option<Seq<Item>>) -> Option<Seq<Item>> {
    match rest {
        Some(items) => Some(done + items),
        None => None,
    }
}

fn read_leading_thrown(chars: &Vec<char>, start: usize) -> (r: Option<(Item, usize)>)
    requires
        start < chars.len(),
    ensures
        match r {
            Some((item, next)) => start < next <= chars.len() && leading_thrown(
                chars@.skip(start as int),
            ) == Some((item, (next - start) as nat)),
            None => leading_thrown(chars@.skip(start as int)) is None,
        },
{
    let ghost rest = chars@.skip(start as int);
    let c = chars[start];
    assert(rest[0] == c);
    if c == '[' {
        let mut close: usize = start;
        while close < chars.len() && chars[close] != ']'
            invariant
                start <= close <= chars.len(),
                forall|j: int| start <= j < close ==> #[trigger] chars@[j] != ']',
            decreases chars.len() - close,
        {
            close = close + 1;
        }
        proof {
            assert forall|j: int| 0 <= j < close - start implies #[trigger] rest[j] != ']' by {
                assert(rest[j] == chars@[start + j]);
            }
            if close < chars.len() {
                assert(rest[close - start] == chars@[close as int]);
            }
            lemma_first_of(rest, ']', (close - start) as nat);
        }
        if close >= chars.len() {
            return None;
        }
        assert(rest.subrange(1, close - start) =~= chars@.subrange(start + 1, close as int));
        match read_number(chars, start + 1, close) {
            None => None,
            Some(value) => if close + 1 == chars.len() {
                Some((Item::Constant(value), close + 1))
            } else {
                assert(rest[close - start + 1] == chars@[close + 1]);
                if chars[close + 1] == ' ' {
                    Some((Item::Constant(value), close + 2))
                } else {
                    None
                }
            },
        }
    } else {
        match operator_for(c) {
            None => None,
            Some(operator) => if start + 1 < chars.len() {
                assert(rest[1] == chars@[start + 1]);
                if chars[start + 1] == ' ' {
                    Some((Item::Operator(operator), start + 2))
                } else {
                    None
                }
            } else {
                None
            },
        }
    }
}

/// Reads a text of thrown values as a formula.
pub fn read_thrown(text: &str) -> (r: Option<Vec<Item>>)
    ensures
        match r {
            Some(items) => thrown_items(text@) == Some(items@),
            None => thrown_items(text@) is None,
        },
{
    let chars = characters(text);
    let mut items: Vec<Item> = Vec::new();
    let mut i: usize = 0;
    assert(chars@.skip(0) =~= chars@);
    assert(thrown_items(chars@) matches Some(all) ==> Seq::<Item>::empty() + all =~= all);
    while i < chars.len()
        invariant
            i <= chars.len(),
            chars@ == text@,
            thrown_items(chars@) == continued(items@, thrown_items(chars@.skip(i as int))),
        decreases chars.len() - i,
    {
        let ghost rest = chars@.skip(i as int);
        match read_leading_thrown(&chars, i) {
            None => {
                return None;
            },
            Some((item, next)) => {
                proof {
                    assert(rest.skip(next - i) =~= chars@.skip(next as int));
                    if let Some(more) = thrown_items(chars@.skip(next as int)) {
                        assert(items@ + (seq![item] + more) =~= items@.push(item) + more);
                    }
                }
                items.push(item);
                i = next;
            },
        }
    }
    assert(items@ + Seq::<Item>::empty() =~= items@);
    Some(items)
}

/// The bounds of the formula that a text of thrown values writes.
pub fn thrown_limits(text: &str) -> (r: Option<Bounds>)
    ensures
        r == thrown_bounds(text@),
{
    match read_thrown(text) {
        Some(items) => formula_limits(&items),
        None => None,
    }
}

} // verus!
