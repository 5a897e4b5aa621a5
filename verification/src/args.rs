use vstd::prelude::*;

verus! {

/// The value of a decimal numeral, most significant digit first.
pub open spec fn decimal_value(digits: Seq<char>) -> int
    decreases digits.len(),
{
    if digits.len() == 0 {
        0
    } else {
        decimal_value(digits.drop_last()) * 10 + (digits.last() as int - '0' as int)
    }
}

/// Whether every character is an ASCII decimal digit.
pub open spec fn all_digits(s: Seq<char>) -> bool {
    forall|i: int| 0 <= i < s.len() ==> '0' <= #[trigger] s[i] <= '9'
}

/// What `usize::from_str` gives for `s`: an optional `+` followed by one or
/// more decimal digits whose value fits in a `usize`; nothing otherwise.
pub open spec fn usize_from_str(s: Seq<char>) -> Option<usize> {
    let digits = if s.len() > 0 && s[0] == '+' {
        s.drop_first()
    } else {
        s
    };
    if digits.len() > 0 && all_digits(digits) && decimal_value(digits) <= usize::MAX {
        Some(decimal_value(digits) as usize)
    } else {
        None
    }
}

/// `usize::from_str`: by its documentation, the string must be an optional
/// `+` sign followed by only ASCII digits, and the value must fit in the type;
/// any other string is an error.
#[verifier::external_body]
fn parse_usize(s: &str) -> (r: Option<usize>)
    ensures
        r == usize_from_str(s@),
{
    match <usize as std::str::FromStr>::from_str(s) {
        Ok(n) => Some(n),
        Err(_) => None,
    }
}

/// What `parse_args` returns for an argument, or for no argument.
pub open spec fn count_or_default(arg: Option<Seq<char>>, default: usize) -> usize {
    match arg {
        Some(s) => match usize_from_str(s) {
            Some(n) => n,
            None => default,
        },
        None => default,
    }
}

/// The character of a decimal digit.
pub open spec fn digit_char(d: int) -> char {
    if d == 0 {
        '0'
    } else if d == 1 {
        '1'
    } else if d == 2 {
        '2'
    } else if d == 3 {
        '3'
    } else if d == 4 {
        '4'
    } else if d == 5 {
        '5'
    } else if d == 6 {
        '6'
    } else if d == 7 {
        '7'
    } else if d == 8 {
        '8'
    } else {
        '9'
    }
}

/// The decimal numeral of `k`, without leading zeros.
pub open spec fn numeral(k: nat) -> Seq<char>
    decreases k,
{
    if k < 10 {
        seq![digit_char(k as int)]
    } else {
        numeral(k / 10).push(digit_char(k as int % 10))
    }
}

/// The numeral of `k` is a string of digits whose value is `k`.
proof fn lemma_numeral_value(k: nat)
    ensures
        numeral(k).len() > 0,
        all_digits(numeral(k)),
        decimal_value(numeral(k)) == k,
    decreases k,
{
    if k >= 10 {
        lemma_numeral_value(k / 10);
        let s = numeral(k / 10);
        let c = digit_char(k as int % 10);
        assert(numeral(k).drop_last() =~= s);
        assert(numeral(k).last() == c);
        assert(c as int - '0' as int == k as int % 10);
        assert(decimal_value(numeral(k)) == decimal_value(s) * 10 + (c as int - '0' as int));
        assert((k / 10) * 10 + k % 10 == k) by (nonlinear_arith);
        assert forall|i: int| 0 <= i < numeral(k).len() implies '0' <= #[trigger] numeral(k)[i] <= '9' by {
            if i < s.len() {
                assert(numeral(k)[i] == s[i]);
            }
        }
    } else {
        assert(digit_char(k as int) as int - '0' as int == k);
        assert(numeral(k).drop_last() =~= Seq::<char>::empty());
        assert(decimal_value(Seq::<char>::empty()) == 0);
    }
}

/// Every count reads back as itself: the decimal numeral of a `usize`, with
/// or without a leading `+`, parses to that very number (and so a count on
/// the command line is never replaced by the default).
pub proof fn lemma_numeral_parses(k: usize)
    ensures
        usize_from_str(numeral(k as nat)) == Some(k),
        usize_from_str(seq!['+'] + numeral(k as nat)) == Some(k),
{
    let s = numeral(k as nat);
    lemma_numeral_value(k as nat);
    assert('0' <= s[0] <= '9');
    let t = seq!['+'] + s;
    assert(t[0] == '+');
    assert(t.drop_first() =~= s);
}

/// An argument that parses as a count gives that count, whatever the
/// default; only an argument that does not parse gives the default.
pub proof fn lemma_count_is_parsed_value(s: Seq<char>, default: usize)
    ensures
        usize_from_str(s) matches Some(k) ==> count_or_default(Some(s), default) == k,
        usize_from_str(s) is None ==> count_or_default(Some(s), default) == default,
        count_or_default(None, default) == default,
        forall|d1: usize, d2: usize|
            usize_from_str(s) is Some ==> count_or_default(Some(s), d1) == count_or_default(Some(s), d2),
{
}

/// Reads a count from the command-line arguments `args`, of which the first
/// `*consumed` have been read already: takes the argument at position
/// `index` (counted from the start of the command line, so calls come in
/// ascending order of `index`) and marks it and all before it as read. Gives
/// `default` when there is no such argument, when it was read already, or when
/// it is not a decimal count.
pub fn parse_args(args: &Vec<String>, consumed: &mut usize, index: usize, default: usize) -> (n: usize)
    requires
        *old(consumed) <= args.len(),
    ensures
        *old(consumed) <= index < args.len() ==> {
            &&& *final(consumed) == index + 1
            &&& n == count_or_default(Some(args@[index as int]@), default)
        },
        *old(consumed) <= index < args.len() && usize_from_str(args@[index as int]@) is Some
            ==> Some(n) == usize_from_str(args@[index as int]@),
        *old(consumed) <= index < args.len() && usize_from_str(args@[index as int]@) is None
            ==> n == default,
        index < *old(consumed) ==> {
            &&& *final(consumed) == *old(consumed)
            &&& n == default
        },
        *old(consumed) <= index && index >= args.len() ==> {
            &&& *final(consumed) == args.len()
            &&& n == default
        },
{
    if index < *consumed {
        default
    } else if index < args.len() {
        *consumed = index + 1;
        match parse_usize(args[index].as_str()) {
            Some(n) => n,
            None => default,
        }
    } else {
        *consumed = args.len();
        default
    }
}

} // verus!
