//! Reading numbers from header text the way `str::parse` reads `i64`, `usize` and `f64`.

use vstd::prelude::*;

use crate::text::{ascii_lower, ascii_lower_char, to_ascii_lower_char};

verus! {

/// Why a text is not an integer of the wanted type; these are the kinds of
/// `std::num::ParseIntError`.
#[derive(Debug, Clone, Copy, PartialEq, Eq, Structural)]
pub enum IntErrorKind {
    /// The text is empty.
    Empty,
    /// A character other than an ASCII digit stands where a digit must.
    InvalidDigit,
    /// The value is above the type's maximum.
    PosOverflow,
    /// The value is below the type's minimum.
    NegOverflow,
}

/// Why a text is not a floating-point number.
#[derive(Debug, Clone, Copy, PartialEq, Eq, Structural)]
pub enum FloatErrorKind {
    /// The text is empty.
    Empty,
    /// The text is not a float literal.
    Invalid,
}

pub open spec fn is_digit(c: char) -> bool {
    '0' <= c && c <= '9'
}

pub open spec fn digit_value(c: char) -> int {
    (c as int) - ('0' as int)
}

/// Reads the digits `d` after the sign, starting from `acc`, as the decimal parser does:
/// left to right, a non-digit is an error at once, and a value leaving `[lo, hi]` is an
/// overflow in the direction of the sign.
pub open spec fn parse_digits(d: Seq<char>, acc: int, positive: bool, lo: int, hi: int) -> Result<
    int,
    IntErrorKind,
>
    decreases d.len(),
{
    if d.len() == 0 {
        Ok(acc)
    } else if !is_digit(d[0]) {
        Err(IntErrorKind::InvalidDigit)
    } else {
        let next = if positive {
            acc * 10 + digit_value(d[0])
        } else {
            acc * 10 - digit_value(d[0])
        };
        if next > hi {
            Err(IntErrorKind::PosOverflow)
        } else if next < lo {
            Err(IntErrorKind::NegOverflow)
        } else {
            parse_digits(d.drop_first(), next, positive, lo, hi)
        }
    }
}

/// What `str::parse` gives for an integer type whose values are `[lo, hi]`; `signed`
/// says whether a leading `-` is accepted.  An optional `+` (or, when signed, `-`) is
/// followed by decimal digits only.
pub open spec fn parse_integer(s: Seq<char>, signed: bool, lo: int, hi: int) -> Result<
    int,
    IntErrorKind,
> {
    if s.len() == 0 {
        Err(IntErrorKind::Empty)
    } else if s.len() == 1 && (s[0] == '+' || s[0] == '-') {
        Err(IntErrorKind::InvalidDigit)
    } else if s[0] == '+' {
        parse_digits(s.drop_first(), 0, true, lo, hi)
    } else if s[0] == '-' && signed {
        parse_digits(s.drop_first(), 0, false, lo, hi)
    } else {
        parse_digits(s, 0, true, lo, hi)
    }
}

/// What `str::parse::<i64>` gives.
pub open spec fn parse_i64_spec(s: Seq<char>) -> Result<int, IntErrorKind> {
    parse_integer(s, true, i64::MIN as int, i64::MAX as int)
}

/// What `str::parse::<usize>` gives.
pub open spec fn parse_usize_spec(s: Seq<char>) -> Result<int, IntErrorKind> {
    parse_integer(s, false, 0, usize::MAX as int)
}

proof fn lemma_parse_digits_in_range(d: Seq<char>, acc: int, positive: bool, lo: int, hi: int)
    requires
        lo <= acc <= hi,
    ensures
        parse_digits(d, acc, positive, lo, hi) matches Ok(v) ==> lo <= v <= hi,
    decreases d.len(),
{
    if d.len() > 0 && is_digit(d[0]) {
        let next = if positive {
            acc * 10 + digit_value(d[0])
        } else {
            acc * 10 - digit_value(d[0])
        };
        if lo <= next <= hi {
            lemma_parse_digits_in_range(d.drop_first(), next, positive, lo, hi);
        }
    }
}

/// A parsed integer lies in the type's range.
pub proof fn lemma_parse_integer_in_range(s: Seq<char>, signed: bool, lo: int, hi: int)
    requires
        lo <= 0 <= hi,
    ensures
        parse_integer(s, signed, lo, hi) matches Ok(v) ==> lo <= v <= hi,
{
    if s.len() > 0 {
        lemma_parse_digits_in_range(s.drop_first(), 0, true, lo, hi);
        lemma_parse_digits_in_range(s.drop_first(), 0, false, lo, hi);
        lemma_parse_digits_in_range(s, 0, true, lo, hi);
    }
}

/// Runs `parse_digits` over `chars[from..]`.
fn parse_digits_exec(chars: &[char], from: usize, positive: bool, lo: i128, hi: i128) -> (r: Result<
    i128,
    IntErrorKind,
>)
    requires
        from <= chars@.len(),
        lo <= 0 <= hi,
        -0x1_0000_0000_0000_0000 <= lo,
        hi <= 0x1_0000_0000_0000_0000,
    ensures
        match r {
            Ok(v) => parse_digits(chars@.skip(from as int), 0, positive, lo as int, hi as int)
                == Ok::<int, IntErrorKind>(v as int),
            Err(e) => parse_digits(chars@.skip(from as int), 0, positive, lo as int, hi as int)
                == Err::<int, IntErrorKind>(e),
        },
{
    let mut acc: i128 = 0;
    let mut i = from;
    let len = chars.len();
    while i < len
        invariant
            len == chars@.len(),
            from <= i <= len,
            lo <= acc <= hi,
            -0x1_0000_0000_0000_0000 <= lo <= 0 <= hi <= 0x1_0000_0000_0000_0000,
            parse_digits(chars@.skip(from as int), 0, positive, lo as int, hi as int)
                == parse_digits(chars@.skip(i as int), acc as int, positive, lo as int, hi as int),
        decreases len - i,
    {
        let c = chars[i];
        let ghost rest = chars@.skip(i as int);
        assert(rest[0] == c);
        assert(rest.drop_first() =~= chars@.skip(i + 1));
        if !('0' <= c && c <= '9') {
            return Err(IntErrorKind::InvalidDigit);
        }
        let dv: i128 = (c as u32 - '0' as u32) as i128;
        let next: i128 = if positive {
            acc * 10 + dv
        } else {
            acc * 10 - dv
        };
        if next > hi {
            return Err(IntErrorKind::PosOverflow);
        }
        if next < lo {
            return Err(IntErrorKind::NegOverflow);
        }
        acc = next;
        i = i + 1;
    }
    assert(chars@.skip(i as int) =~= Seq::<char>::empty());
    Ok(acc)
}

/// Runs `parse_integer` over `chars`.
fn parse_integer_exec(chars: &[char], signed: bool, lo: i128, hi: i128) -> (r: Result<
    i128,
    IntErrorKind,
>)
    requires
        lo <= 0 <= hi,
        -0x1_0000_0000_0000_0000 <= lo,
        hi <= 0x1_0000_0000_0000_0000,
    ensures
        match r {
            Ok(v) => parse_integer(chars@, signed, lo as int, hi as int) == Ok::<
                int,
                IntErrorKind,
            >(v as int) && lo <= v <= hi,
            Err(e) => parse_integer(chars@, signed, lo as int, hi as int) == Err::<
                int,
                IntErrorKind,
            >(e),
        },
{
    if chars.len() == 0 {
        return Err(IntErrorKind::Empty);
    }
    let first = chars[0];
    if chars.len() == 1 && (first == '+' || first == '-') {
        return Err(IntErrorKind::InvalidDigit);
    }
    let r = if first == '+' {
        parse_digits_exec(chars, 1, true, lo, hi)
    } else if first == '-' && signed {
        parse_digits_exec(chars, 1, false, lo, hi)
    } else {
        assert(chars@.skip(0) =~= chars@);
        parse_digits_exec(chars, 0, true, lo, hi)
    };
    proof {
        assert(chars@.skip(1) =~= chars@.drop_first());
        lemma_parse_digits_in_range(chars@.skip(1), 0, true, lo as int, hi as int);
        lemma_parse_digits_in_range(chars@.skip(1), 0, false, lo as int, hi as int);
        lemma_parse_digits_in_range(chars@, 0, true, lo as int, hi as int);
    }
    r
}

/// Parses `chars` as `str::parse::<i64>` does.
pub fn parse_i64(chars: &[char]) -> (r: Result<i64, IntErrorKind>)
    ensures
        match r {
            Ok(v) => parse_i64_spec(chars@) == Ok::<int, IntErrorKind>(v as int),
            Err(e) => parse_i64_spec(chars@) == Err::<int, IntErrorKind>(e),
        },
{
    match parse_integer_exec(chars, true, i64::MIN as i128, i64::MAX as i128) {
        Ok(v) => Ok(v as i64),
        Err(e) => Err(e),
    }
}

/// Parses `chars` as `str::parse::<usize>` does.
pub fn parse_usize(chars: &[char]) -> (r: Result<usize, IntErrorKind>)
    ensures
        match r {
            Ok(v) => parse_usize_spec(chars@) == Ok::<int, IntErrorKind>(v as int),
            Err(e) => parse_usize_spec(chars@) == Err::<int, IntErrorKind>(e),
        },
{
    match parse_integer_exec(chars, false, 0, usize::MAX as i128) {
        Ok(v) => Ok(v as usize),
        Err(e) => Err(e),
    }
}

// ---------------------------------------------------------------------------------------
// Float literals
// ---------------------------------------------------------------------------------------

pub open spec fn all_digits(s: Seq<char>) -> bool {
    forall|i: int| 0 <= i < s.len() ==> is_digit(#[trigger] s[i])
}

/// The position of the first `c` in `s`, or `s.len()` when there is none.
pub open spec fn first_index_of(s: Seq<char>, c: char) -> int
    decreases s.len(),
{
    if s.len() == 0 {
        0
    } else if s[0] == c {
        0
    } else {
        1 + first_index_of(s.drop_first(), c)
    }
}

/// `Digit+ | Digit+ '.' Digit* | Digit* '.' Digit+`.
pub open spec fn is_mantissa(m: Seq<char>) -> bool {
    let p = first_index_of(m, '.');
    if p == m.len() {
        m.len() > 0 && all_digits(m)
    } else {
        &&& all_digits(m.subrange(0, p))
        &&& all_digits(m.subrange(p + 1, m.len() as int))
        &&& m.len() > 1
    }
}

/// `'e' Sign? Digit+`.
pub open spec fn is_exponent(e: Seq<char>) -> bool {
    &&& e.len() >= 2
    &&& e[0] == 'e'
    &&& {
        let r = if e[1] == '+' || e[1] == '-' {
            e.subrange(2, e.len() as int)
        } else {
            e.subrange(1, e.len() as int)
        };
        r.len() > 0 && all_digits(r)
    }
}

/// `Number ::= Mantissa Exp?`, split at the first `e`.
pub open spec fn is_decimal(b: Seq<char>) -> bool {
    let p = first_index_of(b, 'e');
    is_mantissa(b.subrange(0, p)) && (p == b.len() || is_exponent(b.subrange(p, b.len() as int)))
}

pub open spec fn inf_word() -> Seq<char> {
    seq!['i', 'n', 'f']
}

pub open spec fn infinity_word() -> Seq<char> {
    seq!['i', 'n', 'f', 'i', 'n', 'i', 't', 'y']
}

pub open spec fn nan_word() -> Seq<char> {
    seq!['n', 'a', 'n']
}

/// Whether `s` is accepted by `str::parse::<f64>`: its documentation gives the grammar
/// `Sign? ( 'inf' | 'infinity' | 'nan' | Number )`, matched after lowercasing.
pub open spec fn is_float_literal(s: Seq<char>) -> bool {
    let t = ascii_lower(s);
    let b = if t.len() > 0 && (t[0] == '+' || t[0] == '-') {
        t.drop_first()
    } else {
        t
    };
    b == inf_word() || b == infinity_word() || b == nan_word() || is_decimal(b)
}

/// The error `str::parse::<f64>` reports, if any.
pub open spec fn float_check_spec(s: Seq<char>) -> Option<FloatErrorKind> {
    if s.len() == 0 {
        Some(FloatErrorKind::Empty)
    } else if is_float_literal(s) {
        None
    } else {
        Some(FloatErrorKind::Invalid)
    }
}

/// Whether `chars[from..to]` are all ASCII digits.
fn all_digits_exec(chars: &[char], from: usize, to: usize) -> (r: bool)
    requires
        from <= to <= chars@.len(),
    ensures
        r == all_digits(chars@.subrange(from as int, to as int)),
{
    let mut i = from;
    while i < to
        invariant
            from <= i <= to <= chars@.len(),
            forall|j: int| from <= j < i ==> is_digit(#[trigger] chars@[j]),
        decreases to - i,
    {
        let c = chars[i];
        if !('0' <= c && c <= '9') {
            assert(!is_digit(chars@.subrange(from as int, to as int)[i - from]));
            return false;
        }
        i = i + 1;
    }
    assert forall|j: int| 0 <= j < to - from implies is_digit(
        #[trigger] chars@.subrange(from as int, to as int)[j],
    ) by {
        assert(is_digit(chars@[from + j]));
    }
    true
}

proof fn lemma_first_index_of_bounds(s: Seq<char>, c: char)
    ensures
        0 <= first_index_of(s, c) <= s.len(),
        first_index_of(s, c) < s.len() ==> s[first_index_of(s, c)] == c,
        forall|j: int| 0 <= j < first_index_of(s, c) ==> s[j] != c,
    decreases s.len(),
{
    if s.len() > 0 && s[0] != c {
        lemma_first_index_of_bounds(s.drop_first(), c);
        assert forall|j: int| 0 <= j < first_index_of(s, c) implies s[j] != c by {
            if j > 0 {
                assert(s[j] == s.drop_first()[j - 1]);
            }
        }
    }
}

proof fn lemma_first_index_of_unique(s: Seq<char>, c: char, p: int)
    requires
        0 <= p <= s.len(),
        p < s.len() ==> s[p] == c,
        forall|j: int| 0 <= j < p ==> s[j] != c,
    ensures
        first_index_of(s, c) == p,
    decreases s.len(),
{
    if s.len() > 0 && p > 0 {
        assert forall|j: int| 0 <= j < p - 1 implies s.drop_first()[j] != c by {
            assert(s[j + 1] != c);
        }
        lemma_first_index_of_unique(s.drop_first(), c, p - 1);
    }
}

/// The position of the first `c` in `chars[from..to]`, relative to `from`.
fn find_char(chars: &[char], from: usize, to: usize, c: char) -> (p: usize)
    requires
        from <= to <= chars@.len(),
    ensures
        p == first_index_of(chars@.subrange(from as int, to as int), c),
        from + p <= to,
{
    let mut i = from;
    while i < to && chars[i] != c
        invariant
            from <= i <= to <= chars@.len(),
            forall|j: int| from <= j < i ==> chars@[j] != c,
        decreases to - i,
    {
        i = i + 1;
    }
    proof {
        let s = chars@.subrange(from as int, to as int);
        assert forall|j: int| 0 <= j < i - from implies s[j] != c by {
            assert(chars@[from + j] != c);
        }
        lemma_first_index_of_unique(s, c, i - from);
    }
    i - from
}

/// Whether `chars[from..to]` equals the word `w`.
fn equals_word(chars: &[char], from: usize, to: usize, w: &[char]) -> (r: bool)
    requires
        from <= to <= chars@.len(),
    ensures
        r == (chars@.subrange(from as int, to as int) == w@),
{
    if to - from != w.len() {
        return false;
    }
    let mut i: usize = 0;
    while i < w.len()
        invariant
            from <= to <= chars@.len(),
            to - from == w@.len(),
            i <= w@.len(),
            forall|j: int| 0 <= j < i ==> chars@[from + j] == w@[j],
        decreases w@.len() - i,
    {
        if chars[from + i] != w[i] {
            assert(chars@.subrange(from as int, to as int)[i as int] != w@[i as int]);
            return false;
        }
        i = i + 1;
    }
    assert(chars@.subrange(from as int, to as int) =~= w@);
    true
}

/// Checks whether `chars` (already ASCII-lowercased) is `Mantissa Exp?`.
fn is_decimal_exec(chars: &[char], from: usize) -> (r: bool)
    requires
        from <= chars@.len(),
    ensures
        r == is_decimal(chars@.subrange(from as int, chars@.len() as int)),
{
    let len = chars.len();
    let ghost b = chars@.subrange(from as int, len as int);
    let pe = find_char(chars, from, len, 'e');
    let mend = from + pe;
    proof {
        lemma_first_index_of_bounds(b, 'e');
        assert(b.subrange(0, pe as int) =~= chars@.subrange(from as int, mend as int));
    }
    // mantissa = chars[from..mend]
    let pd = find_char(chars, from, mend, '.');
    let ghost m = chars@.subrange(from as int, mend as int);
    proof {
        lemma_first_index_of_bounds(m, '.');
    }
    let mantissa_ok = if pd == mend - from {
        mend > from && all_digits_exec(chars, from, mend)
    } else {
        let dot = from + pd;
        proof {
            assert(m.subrange(0, pd as int) =~= chars@.subrange(from as int, dot as int));
            assert(m.subrange(pd + 1, m.len() as int) =~= chars@.subrange(dot + 1, mend as int));
        }
        all_digits_exec(chars, from, dot) && all_digits_exec(chars, dot + 1, mend) && mend - from
            > 1
    };
    if !mantissa_ok {
        return false;
    }
    if mend == len {
        return true;
    }
    // exponent = chars[mend..len]
    let ghost e = chars@.subrange(mend as int, len as int);
    proof {
        assert(b.subrange(pe as int, b.len() as int) =~= e);
    }
    if len - mend < 2 {
        return false;
    }
    let sign = chars[mend + 1];
    let digits_from = if sign == '+' || sign == '-' {
        mend + 2
    } else {
        mend + 1
    };
    proof {
        assert(e.subrange(2, e.len() as int) =~= chars@.subrange(mend + 2, len as int));
        assert(e.subrange(1, e.len() as int) =~= chars@.subrange(mend + 1, len as int));
    }
    len > digits_from && all_digits_exec(chars, digits_from, len)
}

/// Lowercases `chars` in ASCII into a new vector.
fn ascii_lower_vec(chars: &[char]) -> (v: Vec<char>)
    ensures
        v@ == ascii_lower(chars@),
{
    let mut v: Vec<char> = Vec::new();
    let mut i: usize = 0;
    while i < chars.len()
        invariant
            i <= chars@.len(),
            v@ == ascii_lower(chars@.subrange(0, i as int)),
        decreases chars@.len() - i,
    {
        let c = to_ascii_lower_char(chars[i]);
        v.push(c);
        i = i + 1;
        assert(v@ =~= ascii_lower(chars@.subrange(0, i as int)));
    }
    assert(chars@.subrange(0, chars@.len() as int) =~= chars@);
    v
}

/// Checks `chars` against the grammar that `str::parse::<f64>` accepts, and gives the
/// error it would report.
pub fn check_float(chars: &[char]) -> (r: Option<FloatErrorKind>)
    ensures
        r == float_check_spec(chars@),
{
    if chars.len() == 0 {
        return Some(FloatErrorKind::Empty);
    }
    let t = ascii_lower_vec(chars);
    let from: usize = if t[0] == '+' || t[0] == '-' {
        1
    } else {
        0
    };
    let len = t.len();
    let ghost b = if t@.len() > 0 && (t@[0] == '+' || t@[0] == '-') {
        t@.drop_first()
    } else {
        t@
    };
    proof {
        assert(b =~= t@.subrange(from as int, len as int));
    }
    let inf: Vec<char> = vec!['i', 'n', 'f'];
    let infinity: Vec<char> = vec!['i', 'n', 'f', 'i', 'n', 'i', 't', 'y'];
    let nan: Vec<char> = vec!['n', 'a', 'n'];
    proof {
        assert(inf@ =~= inf_word());
        assert(infinity@ =~= infinity_word());
        assert(nan@ =~= nan_word());
    }
    let ok = equals_word(&t, from, len, &inf) || equals_word(&t, from, len, &infinity)
        || equals_word(&t, from, len, &nan) || is_decimal_exec(&t, from);
    if ok {
        None
    } else {
        Some(FloatErrorKind::Invalid)
    }
}

} // verus!

verus! {

// ---------------------------------------------------------------------------------------
// Decimal text of integers
// ---------------------------------------------------------------------------------------

pub open spec fn digit_char(d: nat) -> char {
    ((d + 48) as u32) as char
}

/// The decimal digits of `n`, most significant first, with no leading zeros.
pub open spec fn nat_digits(n: nat) -> Seq<char>
    decreases n,
{
    if n < 10 {
        seq![digit_char(n)]
    } else {
        nat_digits(n / 10).push(digit_char(n % 10))
    }
}

/// The decimal text of `n`, as `i64::to_string` writes it.
pub open spec fn decimal_text(n: int) -> Seq<char> {
    if n < 0 {
        seq!['-'] + nat_digits((-n) as nat)
    } else {
        nat_digits(n as nat)
    }
}

fn push_digits(s: &mut String, n: u64)
    ensures
        final(s)@ == old(s)@ + nat_digits(n as nat),
    decreases n,
{
    if n >= 10 {
        push_digits(s, n / 10);
    }
    let d: u8 = (n % 10) as u8;
    let c: char = (d + 48) as char;
    assert(c == digit_char((n % 10) as nat));
    crate::text::push_char(s, c);
    proof {
        if n >= 10 {
            assert(nat_digits(n as nat) == nat_digits((n / 10) as nat).push(digit_char((n % 10) as nat)));
        }
    }
    assert(s@ =~= old(s)@ + nat_digits(n as nat));
}

/// The decimal text of `n`.
pub fn i64_to_string(n: i64) -> (s: String)
    ensures
        s@ == decimal_text(n as int),
{
    let mut s = String::new();
    if n < 0 {
        crate::text::push_char(&mut s, '-');
        let m: u64 = if n == i64::MIN {
            9223372036854775808u64
        } else {
            (-n) as u64
        };
        push_digits(&mut s, m);
    } else {
        push_digits(&mut s, n as u64);
    }
    assert(s@ =~= decimal_text(n as int));
    s
}

} // verus!

verus! {

/// Reading one more digit after `s`.
proof fn lemma_parse_digits_snoc(s: Seq<char>, c: char, acc: int, positive: bool, lo: int, hi: int)
    ensures
        parse_digits(s.push(c), acc, positive, lo, hi) == match parse_digits(s, acc, positive, lo, hi) {
            Err(e) => Err(e),
            Ok(v) => parse_digits(seq![c], v, positive, lo, hi),
        },
    decreases s.len(),
{
    if s.len() == 0 {
        assert(s.push(c) =~= seq![c]);
    } else {
        assert(s.push(c).drop_first() =~= s.drop_first().push(c));
        assert(s.push(c)[0] == s[0]);
        if is_digit(s[0]) {
            let next = if positive {
                acc * 10 + digit_value(s[0])
            } else {
                acc * 10 - digit_value(s[0])
            };
            lemma_parse_digits_snoc(s.drop_first(), c, next, positive, lo, hi);
        }
    }
}

proof fn lemma_digit_char(d: nat)
    requires
        d < 10,
    ensures
        is_digit(digit_char(d)),
        digit_value(digit_char(d)) == d,
        digit_char(d) != '+' && digit_char(d) != '-',
{
}

proof fn lemma_nat_digits_parse(m: nat, positive: bool, lo: int, hi: int)
    requires
        lo <= 0 <= hi,
        positive ==> m <= hi,
        !positive ==> -m >= lo,
    ensures
        parse_digits(nat_digits(m), 0, positive, lo, hi) == Ok::<int, IntErrorKind>(
            if positive {
                m as int
            } else {
                -m
            },
        ),
        nat_digits(m).len() >= 1,
        is_digit(nat_digits(m)[0]),
    decreases m,
{
    if m < 10 {
        lemma_digit_char(m);
        let s = nat_digits(m);
        assert(s == seq![digit_char(m)]);
        assert(s.drop_first() =~= Seq::<char>::empty());
        assert(parse_digits(s.drop_first(), if positive { m as int } else { -m }, positive, lo, hi)
            == Ok::<int, IntErrorKind>(if positive { m as int } else { -m }));
    } else {
        let q = (m / 10) as nat;
        let d = (m % 10) as nat;
        lemma_digit_char(d);
        lemma_nat_digits_parse(q, positive, lo, hi);
        lemma_parse_digits_snoc(nat_digits(q), digit_char(d), 0, positive, lo, hi);
        let v: int = if positive {
            q as int
        } else {
            -q
        };
        let one = seq![digit_char(d)];
        assert(q * 10 + d == m);
        assert(nat_digits(m) == nat_digits(q).push(digit_char(d)));
        assert(one.drop_first() =~= Seq::<char>::empty());
        let w: int = if positive { m as int } else { -m };
        assert(parse_digits(one.drop_first(), w, positive, lo, hi) == Ok::<int, IntErrorKind>(w));
        assert(parse_digits(one, v, positive, lo, hi) == Ok::<int, IntErrorKind>(w));
        assert(nat_digits(m)[0] == nat_digits(q)[0]);
    }
}

/// The decimal text of an `i64` reads back as that number: `i64::to_string` and
/// `str::parse::<i64>` undo each other.
pub proof fn law_decimal_text_roundtrip(n: i64)
    ensures
        parse_i64_spec(decimal_text(n as int)) == Ok::<int, IntErrorKind>(n as int),
{
    let lo = i64::MIN as int;
    let hi = i64::MAX as int;
    if n < 0 {
        let m = (-n) as nat;
        lemma_nat_digits_parse(m, false, lo, hi);
        let s = decimal_text(n as int);
        assert(s[0] == '-');
        assert(s.drop_first() =~= nat_digits(m));
    } else {
        lemma_nat_digits_parse(n as nat, true, lo, hi);
        lemma_digit_char(0);
    }
}

} // verus!

verus! {

/// The decimal text of `n`, as `usize::to_string` writes it.
pub fn usize_to_string(n: usize) -> (s: String)
    ensures
        s@ == nat_digits(n as nat),
{
    let mut s = String::new();
    push_digits(&mut s, n as u64);
    assert(s@ =~= nat_digits(n as nat));
    s
}

} // verus!
