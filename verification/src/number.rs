//! Unsigned decimal numbers: parsing as `str::parse` does for unsigned
//! integer types, and rendering in the shortest decimal form.
use vstd::prelude::*;

verus! {

/// Why a text is not an unsigned integer (the kinds of `ParseIntError`).
#[derive(Debug, Clone, Copy, PartialEq, Eq, Structural)]
pub enum NumberError {
    /// The text is empty.
    Empty,
    /// A character is not a decimal digit (or a lone sign, or a minus sign).
    InvalidDigit,
    /// The value exceeds the largest value of the target type.
    PosOverflow,
}

pub open spec fn is_digit(c: char) -> bool {
    '0' <= c && c <= '9'
}

pub open spec fn digit_value(c: char) -> nat {
    (c as int - '0' as int) as nat
}

/// Digits read left to right on top of `acc`: the first character that is
/// not a digit gives `InvalidDigit`, the first digit that takes the value past
/// `max` gives `PosOverflow`.
pub open spec fn parse_digits(s: Seq<char>, acc: nat, max: nat) -> Result<nat, NumberError>
    decreases s.len(),
{
    if s.len() == 0 {
        Ok(acc)
    } else if !is_digit(s[0]) {
        Err(NumberError::InvalidDigit)
    } else if acc * 10 + digit_value(s[0]) > max {
        Err(NumberError::PosOverflow)
    } else {
        parse_digits(s.drop_first(), acc * 10 + digit_value(s[0]), max)
    }
}

/// The value of a text as an unsigned integer no larger than `max`: an
/// optional leading `+` followed by decimal digits.
pub open spec fn parse_unsigned(s: Seq<char>, max: nat) -> Result<nat, NumberError> {
    if s.len() == 0 {
        Err(NumberError::Empty)
    } else if s.len() == 1 && (s[0] == '+' || s[0] == '-') {
        Err(NumberError::InvalidDigit)
    } else if s[0] == '+' {
        parse_digits(s.drop_first(), 0, max)
    } else {
        parse_digits(s, 0, max)
    }
}

/// The character of a decimal digit.
pub open spec fn digit_char(d: nat) -> char {
    if d == 0 {
        '0'
    } else if d == 1 {
        '1'
    } else if d == 2 {
        '2'
    } else if d == 3 {
        '3'
    } else if d == 4 {
        '4'
    } else if d == 5 {
        '5'
    } else if d == 6 {
        '6'
    } else if d == 7 {
        '7'
    } else if d == 8 {
        '8'
    } else {
        '9'
    }
}

/// The shortest decimal form of `n`.
pub open spec fn decimal(n: nat) -> Seq<char>
    decreases n,
{
    if n < 10 {
        seq![digit_char(n)]
    } else {
        decimal(n / 10).push(digit_char(n % 10))
    }
}

/// Relates a parse result on a machine integer to the spec result.
pub open spec fn parsed_as(r: Result<u64, NumberError>, spec: Result<nat, NumberError>) -> bool {
    match r {
        Ok(v) => spec == Ok::<nat, NumberError>(v as nat),
        Err(e) => spec == Err::<nat, NumberError>(e),
    }
}

fn parse_bounded(v: &Vec<char>, max: u64) -> (r: Result<u64, NumberError>)
    ensures
        parsed_as(r, parse_unsigned(v@, max as nat)),
        r matches Ok(x) ==> x <= max,
{
    let n = v.len();
    if n == 0 {
        return Err(NumberError::Empty);
    }
    if n == 1 && (v[0] == '+' || v[0] == '-') {
        return Err(NumberError::InvalidDigit);
    }
    let mut i: usize = if v[0] == '+' {
        1
    } else {
        0
    };
    let ghost digits = if v@[0] == '+' {
        v@.drop_first()
    } else {
        v@
    };
    assert(v@.skip(i as int) =~= digits);
    let mut acc: u64 = 0;
    while i < n
        invariant
            i <= n,
            n == v@.len(),
            acc <= max,
            parse_unsigned(v@, max as nat) == parse_digits(v@.skip(i as int), acc as nat, max as nat),
        decreases n - i,
    {
        let c = v[i];
        assert(v@.skip(i as int)[0] == c);
        assert(v@.skip(i as int).drop_first() =~= v@.skip(i + 1));
        if !('0' <= c && c <= '9') {
            return Err(NumberError::InvalidDigit);
        }
        let d: u64 = (c as u32 - '0' as u32) as u64;
        assert(d as nat == digit_value(c));
        let next: u128 = acc as u128 * 10 + d as u128;
        if next > max as u128 {
            return Err(NumberError::PosOverflow);
        }
        acc = next as u64;
        i = i + 1;
    }
    assert(v@.skip(n as int) =~= Seq::<char>::empty());
    Ok(acc)
}

/// The text as a `u64`, as `s.parse::<u64>()` reads it.
pub fn parse_u64(s: &str) -> (r: Result<u64, NumberError>)
    ensures
        parsed_as(r, parse_unsigned(s@, u64::MAX as nat)),
{
    let v = crate::text::chars_of(s);
    parse_bounded(&v, u64::MAX)
}

/// The text as a `usize`, as `s.parse::<usize>()` reads it.
pub fn parse_usize(s: &str) -> (r: Result<usize, NumberError>)
    ensures
        match r {
            Ok(x) => parse_unsigned(s@, usize::MAX as nat) == Ok::<nat, NumberError>(x as nat),
            Err(e) => parse_unsigned(s@, usize::MAX as nat) == Err::<nat, NumberError>(e),
        },
{
    let v = crate::text::chars_of(s);
    match parse_bounded(&v, usize::MAX as u64) {
        Ok(x) => Ok(x as usize),
        Err(e) => Err(e),
    }
}

fn digit_str(d: u64) -> (r: &'static str)
    requires
        d < 10,
    ensures
        r@ == seq![digit_char(d as nat)],
{
    proof {
        reveal_strlit("0");
        reveal_strlit("1");
        reveal_strlit("2");
        reveal_strlit("3");
        reveal_strlit("4");
        reveal_strlit("5");
        reveal_strlit("6");
        reveal_strlit("7");
        reveal_strlit("8");
        reveal_strlit("9");
    }
    let r = if d == 0 {
        "0"
    } else if d == 1 {
        "1"
    } else if d == 2 {
        "2"
    } else if d == 3 {
        "3"
    } else if d == 4 {
        "4"
    } else if d == 5 {
        "5"
    } else if d == 6 {
        "6"
    } else if d == 7 {
        "7"
    } else if d == 8 {
        "8"
    } else {
        "9"
    };
    assert(r@ =~= seq![digit_char(d as nat)]);
    r
}

/// The shortest decimal form of `n` (what `n.to_string()` gives).
pub fn render_decimal(n: u64) -> (r: String)
    ensures
        r@ == decimal(n as nat),
    decreases n,
{
    if n < 10 {
        digit_str(n).to_owned()
    } else {
        let mut s = render_decimal(n / 10);
        s.append(digit_str(n % 10));
        s
    }
}

/// Reading one more digit after a successfully read prefix.
pub proof fn lemma_parse_digits_push(s: Seq<char>, c: char, acc: nat, max: nat, v: nat)
    requires
        parse_digits(s, acc, max) == Ok::<nat, NumberError>(v),
        is_digit(c),
    ensures
        parse_digits(s.push(c), acc, max) == (if v * 10 + digit_value(c) > max {
            Err::<nat, NumberError>(NumberError::PosOverflow)
        } else {
            Ok(v * 10 + digit_value(c))
        }),
    decreases s.len(),
{
    if s.len() == 0 {
        let t = s.push(c);
        assert(t.drop_first() =~= Seq::<char>::empty());
        assert(t[0] == c);
        assert(parse_digits(t.drop_first(), acc * 10 + digit_value(c), max) == Ok::<nat, NumberError>(
            acc * 10 + digit_value(c),
        ));
    } else {
        assert(s.push(c)[0] == s[0]);
        assert(s.push(c).drop_first() =~= s.drop_first().push(c));
        lemma_parse_digits_push(s.drop_first(), c, acc * 10 + digit_value(s[0]), max, v);
    }
}

/// Every character of a decimal form is a digit.
pub proof fn lemma_decimal_digits(n: nat)
    ensures
        decimal(n).len() >= 1,
        forall|i: int| 0 <= i < decimal(n).len() ==> #[trigger] is_digit(decimal(n)[i]),
    decreases n,
{
    if n >= 10 {
        lemma_decimal_digits(n / 10);
        let p = decimal(n / 10);
        assert forall|i: int| 0 <= i < decimal(n).len() implies #[trigger] is_digit(
            decimal(n)[i],
        ) by {
            if i < p.len() {
                assert(decimal(n)[i] == p[i]);
            }
        }
    }
}

/// Parsing the decimal form of a value within range gives the value back.
pub proof fn lemma_parse_decimal(n: nat, max: nat)
    requires
        n <= max,
    ensures
        parse_digits(decimal(n), 0, max) == Ok::<nat, NumberError>(n),
        parse_unsigned(decimal(n), max) == Ok::<nat, NumberError>(n),
    decreases n,
{
    lemma_decimal_digits(n);
    if n < 10 {
        let t = decimal(n);
        assert(digit_value(digit_char(n)) == n);
        assert(t.drop_first() =~= Seq::<char>::empty());
        assert(t[0] == digit_char(n));
        assert(parse_digits(t.drop_first(), n, max) == Ok::<nat, NumberError>(n));
    } else {
        assert(n == (n / 10) * 10 + n % 10);
        lemma_parse_decimal(n / 10, max);
        assert(digit_value(digit_char(n % 10)) == n % 10);
        lemma_parse_digits_push(decimal(n / 10), digit_char(n % 10), 0, max, n / 10);
    }
    assert(is_digit(decimal(n)[0]));
}

} // verus!
