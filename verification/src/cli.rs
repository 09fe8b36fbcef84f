use vstd::prelude::*;
use crate::text::{decimal, digit_char};

verus! {

/// Checks that at most one of the two searches is asked for.
pub fn validate_flags(dupfiles: bool, emptydirs: bool) -> (r: Result<(), String>)
    ensures
        r is Ok <==> !(dupfiles && emptydirs),
        r matches Err(msg) ==> msg@ == "Please choose one of the two flags --emptydirs OR --dupfiles 0"@,
{
    if dupfiles && emptydirs {
        Err(String::from_str("Please choose one of the two flags --emptydirs OR --dupfiles 0"))
    } else {
        Ok(())
    }
}

/// The minimum size of a file searched for duplicates, in bytes, from the
/// minimum in megabytes.
pub fn min_file_size(dup_minsize: Option<usize>) -> (bytes: u64)
    requires
        dup_minsize is Some,
        dup_minsize.unwrap() * 1048576 <= u64::MAX,
    ensures
        bytes == dup_minsize.unwrap() * 1048576,
{
    let mb = dup_minsize.unwrap() as u64;
    mb * 1024 * 1024
}

/// Why a text is not a number.
#[derive(Clone, Copy, Debug, PartialEq, Eq, Structural)]
pub enum ParseErrorKind {
    /// The text is empty.
    Empty,
    /// The text holds something other than a digit.
    InvalidDigit,
    /// The number is too large.
    PosOverflow,
}

/// `c` is a decimal digit.
pub open spec fn is_digit(c: char) -> bool {
    '0' <= c && c <= '9'
}

/// The value of a decimal digit.
pub open spec fn digit_val(c: char) -> nat {
    (c as nat - 48) as nat
}

/// Reads the digits `ds` from index `i` on, with `acc` the value so far: the
/// first character that is not a digit fails, and so does the first digit
/// that takes the value beyond the largest `usize`.
pub open spec fn parse_from(ds: Seq<char>, i: int, acc: nat) -> Result<nat, ParseErrorKind>
    decreases ds.len() - i,
{
    if i < 0 || i >= ds.len() {
        Ok(acc)
    } else if !is_digit(ds[i]) {
        Err(ParseErrorKind::InvalidDigit)
    } else if acc * 10 + digit_val(ds[i]) > usize::MAX {
        Err(ParseErrorKind::PosOverflow)
    } else {
        parse_from(ds, i + 1, acc * 10 + digit_val(ds[i]))
    }
}

/// What `str::parse::<usize>` makes of a text: an optional `+` and then
/// decimal digits, at most the largest `usize`.
pub open spec fn parse_usize_spec(s: Seq<char>) -> Result<usize, ParseErrorKind> {
    if s.len() == 0 {
        Err(ParseErrorKind::Empty)
    } else if s[0] == '+' && s.len() == 1 {
        Err(ParseErrorKind::InvalidDigit)
    } else {
        let ds = if s[0] == '+' { s.drop_first() } else { s };
        match parse_from(ds, 0, 0) {
            Ok(v) => Ok(v as usize),
            Err(e) => Err(e),
        }
    }
}

/// The message of a parse error, as std writes it.
pub open spec fn parse_error_message(e: ParseErrorKind) -> Seq<char> {
    match e {
        ParseErrorKind::Empty => "cannot parse integer from empty string"@,
        ParseErrorKind::InvalidDigit => "invalid digit found in string"@,
        ParseErrorKind::PosOverflow => "number too large to fit in target type"@,
    }
}

proof fn lemma_parse_from_bound(ds: Seq<char>, i: int, acc: nat)
    requires
        acc <= usize::MAX,
    ensures
        parse_from(ds, i, acc) matches Ok(v) ==> acc <= v <= usize::MAX,
    decreases ds.len() - i,
{
    if 0 <= i < ds.len() && is_digit(ds[i]) && acc * 10 + digit_val(ds[i]) <= usize::MAX {
        lemma_parse_from_bound(ds, i + 1, acc * 10 + digit_val(ds[i]));
    }
}

/// One more character read after the value `v`.
pub open spec fn parse_step(v: nat, c: char) -> Result<nat, ParseErrorKind> {
    if !is_digit(c) {
        Err(ParseErrorKind::InvalidDigit)
    } else if v * 10 + digit_val(c) > usize::MAX {
        Err(ParseErrorKind::PosOverflow)
    } else {
        Ok(v * 10 + digit_val(c))
    }
}

proof fn lemma_parse_push(s: Seq<char>, c: char, i: int, acc: nat)
    requires
        0 <= i <= s.len(),
    ensures
        parse_from(s.push(c), i, acc) == match parse_from(s, i, acc) {
            Ok(v) => parse_step(v, c),
            Err(e) => Err(e),
        },
    decreases s.len() - i,
{
    let t = s.push(c);
    assert(t[i] == if i == s.len() { c } else { s[i] });
    if i == s.len() {
        if is_digit(c) && acc * 10 + digit_val(c) <= usize::MAX {
            assert(parse_from(t, i + 1, acc * 10 + digit_val(c)) == Ok::<nat, ParseErrorKind>(acc * 10 + digit_val(c)));
        }
    } else {
        if is_digit(s[i]) && acc * 10 + digit_val(s[i]) <= usize::MAX {
            lemma_parse_push(s, c, i + 1, acc * 10 + digit_val(s[i]));
        }
    }
}

proof fn lemma_decimal_digits(n: nat)
    ensures
        decimal(n).len() >= 1,
        forall|i: int| 0 <= i < decimal(n).len() ==> is_digit(#[trigger] decimal(n)[i]),
    decreases n,
{
    if n >= 10 {
        lemma_decimal_digits(n / 10);
        let d = decimal(n / 10);
        assert forall|i: int| 0 <= i < decimal(n).len() implies is_digit(#[trigger] decimal(n)[i]) by {
            if i < d.len() {
                assert(decimal(n)[i] == d[i]);
            }
        }
    }
}

proof fn lemma_parse_decimal(n: nat)
    requires
        n <= usize::MAX,
    ensures
        parse_from(decimal(n), 0, 0) == Ok::<nat, ParseErrorKind>(n),
    decreases n,
{
    let c = digit_char(n % 10);
    assert(is_digit(c));
    assert(digit_val(c) == n % 10);
    if n < 10 {
        assert(decimal(n) == Seq::<char>::empty().push(c));
        lemma_parse_push(Seq::<char>::empty(), c, 0, 0);
    } else {
        lemma_parse_decimal(n / 10);
        lemma_parse_push(decimal(n / 10), c, 0, 0);
        assert((n / 10) * 10 + n % 10 == n);
    }
}

/// Reading back the decimal text of a number gives the number: what the tool
/// prints as a count it would accept again as a value.
pub proof fn lemma_parse_decimal_roundtrip(n: usize)
    ensures
        parse_usize_spec(decimal(n as nat)) == Ok::<usize, ParseErrorKind>(n),
{
    lemma_decimal_digits(n as nat);
    lemma_parse_decimal(n as nat);
    assert(is_digit(decimal(n as nat)[0]));
}

/// Reads a text as `str::parse::<usize>` does.
pub fn parse_decimal_usize(s: &str) -> (r: Result<usize, ParseErrorKind>)
    ensures
        r == parse_usize_spec(s@),
{
    let n = s.unicode_len();
    if n == 0 {
        return Err(ParseErrorKind::Empty);
    }
    let first = s.get_char(0);
    if first == '+' && n == 1 {
        return Err(ParseErrorKind::InvalidDigit);
    }
    let start: usize = if first == '+' { 1 } else { 0 };
    let ghost ds = if s@[0] == '+' { s@.drop_first() } else { s@ };
    let mut acc: usize = 0;
    let mut i: usize = start;
    while i < n
        invariant
            n == s@.len(),
            start <= i <= n,
            start == 0 || start == 1,
            s@.len() > 0,
            !(s@[0] == '+' && s@.len() == 1),
            start == (if s@[0] == '+' { 1usize } else { 0usize }),
            ds == (if s@[0] == '+' { s@.drop_first() } else { s@ }),
            ds == s@.subrange(start as int, n as int),
            parse_from(ds, 0, 0) == parse_from(ds, i - start, acc as nat),
        decreases n - i,
    {
        let c = s.get_char(i);
        assert(c == ds[i - start]);
        if !('0' <= c && c <= '9') {
            return Err(ParseErrorKind::InvalidDigit);
        }
        let d = (c as u32 - 48) as usize;
        assert(d == digit_val(c));
        if acc > (usize::MAX - d) / 10 {
            assert(acc * 10 + d > usize::MAX) by (nonlinear_arith)
                requires
                    acc > (usize::MAX - d) / 10,
                    d <= 9,
            ;
            return Err(ParseErrorKind::PosOverflow);
        }
        assert(acc * 10 + d <= usize::MAX) by (nonlinear_arith)
            requires
                acc <= (usize::MAX - d) / 10,
                d <= 9,
        ;
        acc = acc * 10 + d;
        i = i + 1;
    }
    proof {
        lemma_parse_from_bound(ds, 0, 0);
    }
    Ok(acc)
}

/// The value given for an option, read as a number: nothing when no value
/// was given; an error naming the option when the value is not a number.
pub fn parse_usize(value: Option<&str>, flag: &str) -> (r: Result<Option<usize>, String>)
    ensures
        value is None ==> r == Ok::<Option<usize>, String>(None),
        value matches Some(x) ==> match parse_usize_spec(x@) {
            Ok(v) => r == Ok::<Option<usize>, String>(Some(v)),
            Err(e) => r matches Err(msg) && msg@ == "failed to parse --"@ + flag@ + " as a number: "@
                + parse_error_message(e),
        },
{
    match value {
        None => Ok(None),
        Some(x) => match parse_decimal_usize(x) {
            Ok(v) => Ok(Some(v)),
            Err(e) => {
                let mut msg = String::from_str("failed to parse --");
                msg.append(flag);
                msg.append(" as a number: ");
                match e {
                    ParseErrorKind::Empty => msg.append("cannot parse integer from empty string"),
                    ParseErrorKind::InvalidDigit => msg.append("invalid digit found in string"),
                    ParseErrorKind::PosOverflow => msg.append("number too large to fit in target type"),
                }
                Err(msg)
            },
        },
    }
}

} // verus!
