//! Cells written as text, `x_y`, for maps that are keyed by text.

use vstd::prelude::*;
use vstd::string::*;

verus! {

/// The character of a decimal digit.
pub open spec fn digit_char(d: int) -> char {
    if d == 0 {
        '0'
    } else if d == 1 {
        '1'
    } else if d == 2 {
        '2'
    } else if d == 3 {
        '3'
    } else if d == 4 {
        '4'
    } else if d == 5 {
        '5'
    } else if d == 6 {
        '6'
    } else if d == 7 {
        '7'
    } else if d == 8 {
        '8'
    } else {
        '9'
    }
}

/// The digit that a character stands for, if it is one.
pub open spec fn digit_value(c: char) -> Option<int> {
    if c == '0' {
        Some(0int)
    } else if c == '1' {
        Some(1int)
    } else if c == '2' {
        Some(2int)
    } else if c == '3' {
        Some(3int)
    } else if c == '4' {
        Some(4int)
    } else if c == '5' {
        Some(5int)
    } else if c == '6' {
        Some(6int)
    } else if c == '7' {
        Some(7int)
    } else if c == '8' {
        Some(8int)
    } else if c == '9' {
        Some(9int)
    } else {
        None
    }
}

/// The decimal digits of a number, the most significant first.
pub open spec fn digits(n: nat) -> Seq<char>
    decreases n,
{
    if n < 10 {
        seq![digit_char(n as int)]
    } else {
        digits(n / 10).push(digit_char((n % 10) as int))
    }
}

/// A number in decimal, with a minus sign if it is negative.
pub open spec fn decimal(v: int) -> Seq<char> {
    if v < 0 {
        seq!['-'] + digits((-v) as nat)
    } else {
        digits(v as nat)
    }
}

/// A cell as text: both coordinates in decimal with an underscore
/// between them.
pub open spec fn coord_text(x: int, y: int) -> Seq<char> {
    decimal(x) + seq!['_'] + decimal(y)
}

/// The number that decimal digits stand for; none if the text is empty or
/// holds anything but digits.
pub open spec fn digits_value(s: Seq<char>) -> Option<int>
    decreases s.len(),
{
    if s.len() == 0 {
        None
    } else if s.len() == 1 {
        digit_value(s[0])
    } else {
        match (digits_value(s.drop_last()), digit_value(s.last())) {
            (Some(high), Some(low)) => Some(10 * high + low),
            _ => None,
        }
    }
}

/// The number that a text stands for: decimal digits after an optional
/// sign; none if the number does not fit 32 bits.
pub open spec fn number_value(s: Seq<char>) -> Option<int> {
    let signed = s.len() > 0 && (s[0] == '-' || s[0] == '+');
    let size = if signed {
        digits_value(s.skip(1))
    } else {
        digits_value(s)
    };
    match size {
        Some(v) => {
            let value = if s[0] == '-' {
                -v
            } else {
                v
            };
            if i32::MIN <= value <= i32::MAX {
                Some(value)
            } else {
                None
            }
        },
        None => None,
    }
}

/// True when `k` is the place of the first underscore of the text.
pub open spec fn first_underscore(s: Seq<char>, k: int) -> bool {
    0 <= k < s.len() && s[k] == '_' && forall|j: int| 0 <= j < k ==> s[j] != '_'
}

/// The cell that a text stands for: two numbers with one underscore
/// between them.
pub open spec fn coord_value(s: Seq<char>) -> Option<(int, int)> {
    if exists|k: int| first_underscore(s, k) {
        let k = choose|k: int| first_underscore(s, k);
        match (number_value(s.subrange(0, k)), number_value(s.subrange(k + 1, s.len() as int))) {
            (Some(x), Some(y)) => Some((x, y)),
            _ => None,
        }
    } else {
        None
    }
}

/// The digits of a number stand for the number, and none of them is a
/// sign or an underscore.
pub proof fn lemma_digits_value(n: nat)
    ensures
        digits_value(digits(n)) == Some(n as int),
        digits(n).len() >= 1,
        forall|i: int| 0 <= i < digits(n).len() ==> digit_value(#[trigger] digits(n)[i]) is Some,
    decreases n,
{
    if n < 10 {
    } else {
        lemma_digits_value(n / 10);
        let high = digits(n / 10);
        let all = digits(n);
        assert(all.drop_last() =~= high);
        assert forall|i: int| 0 <= i < all.len() implies digit_value(#[trigger] all[i]) is Some by {
            if i < high.len() {
                assert(all[i] == high[i]);
            }
        }
    }
}

/// A number in decimal stands for the number.
pub proof fn lemma_decimal_value(v: int)
    requires
        i32::MIN <= v <= i32::MAX,
    ensures
        number_value(decimal(v)) == Some(v),
        forall|i: int| 0 <= i < decimal(v).len() ==> #[trigger] decimal(v)[i] != '_',
        decimal(v).len() >= 1,
{
    if v < 0 {
        let body = digits((-v) as nat);
        lemma_digits_value((-v) as nat);
        assert(decimal(v).skip(1) =~= body);
        assert forall|i: int| 0 <= i < decimal(v).len() implies #[trigger] decimal(v)[i] != '_' by {
            if i > 0 {
                assert(decimal(v)[i] == body[i - 1]);
            }
        }
    } else {
        lemma_digits_value(v as nat);
        assert(digit_value(decimal(v)[0]) is Some);
    }
}

/// Reading the text of a cell gives the cell back.
pub proof fn lemma_coord_text_roundtrip(x: int, y: int)
    requires
        i32::MIN <= x <= i32::MAX,
        i32::MIN <= y <= i32::MAX,
    ensures
        coord_value(coord_text(x, y)) == Some((x, y)),
{
    let s = coord_text(x, y);
    let k = decimal(x).len() as int;
    lemma_decimal_value(x);
    lemma_decimal_value(y);
    assert(s[k] == '_');
    assert forall|j: int| 0 <= j < k implies s[j] != '_' by {
        assert(s[j] == decimal(x)[j]);
    }
    assert(first_underscore(s, k));
    let chosen = choose|c: int| first_underscore(s, c);
    assert(chosen == k) by {
        if chosen < k {
            assert(s[chosen] == decimal(x)[chosen]);
        }
    }
    assert(s.subrange(0, k) =~= decimal(x));
    assert(s.subrange(k + 1, s.len() as int) =~= decimal(y));
}

fn digit_text(d: u8) -> (text: &'static str)
    requires
        d < 10,
    ensures
        text@ == seq![digit_char(d as int)],
{
    proof {
        reveal_strlit("0");
        reveal_strlit("1");
        reveal_strlit("2");
        reveal_strlit("3");
        reveal_strlit("4");
        reveal_strlit("5");
        reveal_strlit("6");
        reveal_strlit("7");
        reveal_strlit("8");
        reveal_strlit("9");
    }
    let text = if d == 0 {
        "0"
    } else if d == 1 {
        "1"
    } else if d == 2 {
        "2"
    } else if d == 3 {
        "3"
    } else if d == 4 {
        "4"
    } else if d == 5 {
        "5"
    } else if d == 6 {
        "6"
    } else if d == 7 {
        "7"
    } else if d == 8 {
        "8"
    } else {
        "9"
    };
    assert(text@ =~= seq![digit_char(d as int)]);
    text
}

fn append_digits(text: &mut String, n: u64)
    ensures
        final(text)@ == old(text)@ + digits(n as nat),
    decreases n,
{
    if n >= 10 {
        append_digits(text, n / 10);
    }
    text.append(digit_text((n % 10) as u8));
    assert(text@ =~= old(text)@ + digits(n as nat));
}

fn append_decimal(text: &mut String, v: i32)
    ensures
        final(text)@ == old(text)@ + decimal(v as int),
{
    if v < 0 {
        proof {
            reveal_strlit("-");
        }
        text.append("-");
        append_digits(text, (-(v as i64)) as u64);
        assert(text@ =~= old(text)@ + decimal(v as int));
    } else {
        append_digits(text, v as u64);
    }
}

/// The cell as text: `x_y`.
pub fn coord_to_string(x: i32, y: i32) -> (text: String)
    ensures
        text@ == coord_text(x as int, y as int),
{
    let mut text = String::new();
    append_decimal(&mut text, x);
    proof {
        reveal_strlit("_");
    }
    text.append("_");
    append_decimal(&mut text, y);
    assert(text@ =~= coord_text(x as int, y as int));
    text
}

fn digit_of(c: char) -> (d: Option<u8>)
    ensures
        match d {
            Some(v) => digit_value(c) == Some(v as int) && v < 10,
            None => digit_value(c) is None,
        },
{
    if c == '0' {
        Some(0)
    } else if c == '1' {
        Some(1)
    } else if c == '2' {
        Some(2)
    } else if c == '3' {
        Some(3)
    } else if c == '4' {
        Some(4)
    } else if c == '5' {
        Some(5)
    } else if c == '6' {
        Some(6)
    } else if c == '7' {
        Some(7)
    } else if c == '8' {
        Some(8)
    } else if c == '9' {
        Some(9)
    } else {
        None
    }
}

/// Digits stand for a number that is not negative, and more digits for
/// no smaller a number.
proof fn lemma_digits_grow(s: Seq<char>, k: int)
    requires
        1 <= k <= s.len(),
        digits_value(s) is Some,
    ensures
        digits_value(s.subrange(0, k)) is Some,
        0 <= digits_value(s.subrange(0, k))->0 <= digits_value(s)->0,
    decreases s.len(),
{
    if s.len() == 1 {
        assert(s.subrange(0, k) =~= s);
    } else if k == s.len() {
        assert(s.subrange(0, k) =~= s);
        lemma_digits_grow(s.drop_last(), s.len() - 1);
    } else {
        lemma_digits_grow(s.drop_last(), k);
        assert(s.drop_last().subrange(0, k) =~= s.subrange(0, k));
    }
}

/// The number that the characters from `from` to `to` stand for.
fn parse_number(s: &str, from: usize, to: usize) -> (value: Option<i32>)
    requires
        from <= to <= s@.len(),
    ensures
        match value {
            Some(v) => number_value(s@.subrange(from as int, to as int)) == Some(v as int),
            None => number_value(s@.subrange(from as int, to as int)) is None,
        },
{
    let ghost part = s@.subrange(from as int, to as int);
    if from == to {
        return None;
    }
    let first = s.get_char(from);
    assert(part[0] == first);
    let negative = first == '-';
    let start: usize = if first == '-' || first == '+' {
        from + 1
    } else {
        from
    };
    let ghost body = s@.subrange(start as int, to as int);
    assert(body =~= if first == '-' || first == '+' {
        part.skip(1)
    } else {
        part
    });
    if start == to {
        return None;
    }
    let mut acc: i64 = 0;
    let mut i: usize = start;
    while i < to
        invariant
            from <= start <= i <= to <= s@.len(),
            start < to,
            part == s@.subrange(from as int, to as int),
            body == s@.subrange(start as int, to as int),
            part.len() > 0,
            negative == (part[0] == '-'),
            body == (if part[0] == '-' || part[0] == '+' {
                part.skip(1)
            } else {
                part
            }),
            0 <= acc <= 0x8000_0000i64,
            i == start ==> acc == 0,
            i > start ==> digits_value(body.subrange(0, i - start)) == Some(acc as int),
        decreases to - i,
    {
        let c = s.get_char(i);
        let ghost prefix = body.subrange(0, i - start);
        let ghost longer = body.subrange(0, i + 1 - start);
        assert(longer.last() == c);
        assert(longer.drop_last() =~= prefix);
        match digit_of(c) {
            Some(d) => {
                let next: i64 = acc * 10 + d as i64;
                assert(digits_value(longer) == Some(next as int));
                if next > 0x8000_0000i64 {
                    proof {
                        if digits_value(body) is Some {
                            lemma_digits_grow(body, i + 1 - start);
                        }
                    }
                    return None;
                }
                acc = next;
            },
            None => {
                proof {
                    if digits_value(body) is Some {
                        lemma_digits_all(body, i - start);
                    }
                }
                return None;
            },
        }
        i = i + 1;
    }
    assert(body.subrange(0, to - start) =~= body);
    if negative {
        Some((-acc) as i32)
    } else if acc > 0x7FFF_FFFFi64 {
        None
    } else {
        Some(acc as i32)
    }
}

/// Where digits stand for a number, each character is a digit.
proof fn lemma_digits_all(s: Seq<char>, k: int)
    requires
        0 <= k < s.len(),
        digits_value(s) is Some,
    ensures
        digit_value(s[k]) is Some,
    decreases s.len(),
{
    if s.len() > 1 && k < s.len() - 1 {
        lemma_digits_all(s.drop_last(), k);
    }
}

/// The cell that a text stands for: two numbers of 32 bits in decimal,
/// each with an optional sign, with one underscore between them. Any
/// other text stands for no cell.
pub fn string_to_coord(s: &str) -> (cell: Option<(i32, i32)>)
    ensures
        match cell {
            Some(c) => coord_value(s@) == Some((c.0 as int, c.1 as int)),
            None => coord_value(s@) is None,
        },
{
    let len = s.unicode_len();
    let mut k: usize = 0;
    while k < len
        invariant
            k <= len == s@.len(),
            forall|j: int| 0 <= j < k ==> s@[j] != '_',
        decreases len - k,
    {
        if s.get_char(k) == '_' {
            proof {
                assert(first_underscore(s@, k as int));
                let chosen = choose|c: int| first_underscore(s@, c);
                assert(chosen == k);
            }
            let x = parse_number(s, 0, k);
            let y = parse_number(s, k + 1, len);
            return match (x, y) {
                (Some(a), Some(b)) => Some((a, b)),
                _ => None,
            };
        }
        k = k + 1;
    }
    None
}

} // verus!
