//! Percentages as exact signed decimals, and the change token of the
//! command line: `+<number>`, `-<number>` or `<number>`.
use crate::number::{digits_value, is_digit, pow10};
use vstd::prelude::*;

verus! {

/// Most decimal digits a number token may hold.
pub const MAX_DIGITS: u64 = 19;

/// A signed rational amount of percent: `numer / denom`, negated when
/// `negative` is set.
#[derive(Debug, Clone, Copy, PartialEq, Eq, Structural)]
pub struct Percent {
    pub negative: bool,
    pub numer: u64,
    pub denom: u64,
}

impl Percent {
    pub open spec fn wf(self) -> bool {
        self.denom > 0
    }

    /// The numerator with its sign: the value is `signed_numer() / denom`.
    pub open spec fn signed_numer(self) -> int {
        if self.negative {
            -(self.numer as int)
        } else {
            self.numer as int
        }
    }

    pub open spec fn negated(self) -> Percent {
        Percent { negative: !self.negative, ..self }
    }
}

/// What the command line asks of a device.
#[derive(Debug, Clone, Copy, PartialEq, Eq, Structural)]
pub enum Change {
    /// Set the brightness to this percentage of the maximum.
    Absolute(Percent),
    /// Move the brightness by this percentage of the maximum.
    Relative(Percent),
}

impl Change {
    pub open spec fn wf(self) -> bool {
        match self {
            Change::Absolute(p) => p.wf(),
            Change::Relative(p) => p.wf(),
        }
    }
}

/// A number or a change token that does not parse.
#[derive(Debug, Clone, Copy, PartialEq, Eq, Structural)]
pub struct ParseError;

pub open spec fn count_dots(s: Seq<char>) -> nat
    decreases s.len(),
{
    if s.len() == 0 {
        0
    } else {
        count_dots(s.drop_last()) + if s.last() == '.' { 1nat } else { 0nat }
    }
}

pub open spec fn count_digits(s: Seq<char>) -> nat
    decreases s.len(),
{
    if s.len() == 0 {
        0
    } else {
        count_digits(s.drop_last()) + if is_digit(s.last()) { 1nat } else { 0nat }
    }
}

/// Number of characters after the decimal point.
pub open spec fn frac_len(s: Seq<char>) -> nat
    decreases s.len(),
{
    if s.len() == 0 || s.last() == '.' {
        0
    } else if count_dots(s.drop_last()) > 0 {
        frac_len(s.drop_last()) + 1
    } else {
        0
    }
}

/// Digits with at most one decimal point, at least one digit and at most
/// `MAX_DIGITS` of them: `12`, `12.5`, `.5`, `12.`.
pub open spec fn is_decimal(s: Seq<char>) -> bool {
    &&& forall|i: int| 0 <= i < s.len() ==> is_digit(#[trigger] s[i]) || s[i] == '.'
    &&& count_dots(s) <= 1
    &&& 1 <= count_digits(s) <= MAX_DIGITS
}

pub open spec fn has_sign(s: Seq<char>) -> bool {
    s.len() > 0 && (s[0] == '+' || s[0] == '-')
}

/// A number token: a decimal with an optional sign.
pub open spec fn number_of(s: Seq<char>) -> Option<Percent> {
    let body = if has_sign(s) { s.drop_first() } else { s };
    if is_decimal(body) {
        Some(
            Percent {
                negative: s.len() > 0 && s[0] == '-',
                numer: digits_value(body) as u64,
                denom: pow10(frac_len(body)) as u64,
            },
        )
    } else {
        None
    }
}

/// A change token: a leading `+` or `-` makes a relative change of the
/// number after it (negated after `-`); any other token is an absolute target.
pub open spec fn change_of(s: Seq<char>) -> Option<Change> {
    if s.len() > 0 && s[0] == '+' {
        match number_of(s.drop_first()) {
            Some(p) => Some(Change::Relative(p)),
            None => None,
        }
    } else if s.len() > 0 && s[0] == '-' {
        match number_of(s.drop_first()) {
            Some(p) => Some(Change::Relative(p.negated())),
            None => None,
        }
    } else {
        match number_of(s) {
            Some(p) => Some(Change::Absolute(p)),
            None => None,
        }
    }
}

proof fn lemma_pow10_mono(a: nat, b: nat)
    requires
        a <= b,
    ensures
        pow10(a) <= pow10(b),
    decreases b,
{
    if a < b {
        lemma_pow10_mono(a, (b - 1) as nat);
    }
}

proof fn lemma_pow10_max()
    ensures
        pow10(MAX_DIGITS as nat) == 10_000_000_000_000_000_000nat,
{
    reveal_with_fuel(pow10, 20);
}

proof fn lemma_counts_prefix(s: Seq<char>, k: int)
    requires
        0 <= k <= s.len(),
    ensures
        count_dots(s.subrange(0, k)) <= count_dots(s),
        count_digits(s.subrange(0, k)) <= count_digits(s),
    decreases s.len(),
{
    if k < s.len() {
        assert(s.drop_last().subrange(0, k) =~= s.subrange(0, k));
        lemma_counts_prefix(s.drop_last(), k);
    } else {
        assert(s.subrange(0, k) =~= s);
    }
}

proof fn lemma_frac_bound(s: Seq<char>)
    requires
        count_dots(s) <= 1,
        forall|i: int| 0 <= i < s.len() ==> is_digit(#[trigger] s[i]) || s[i] == '.',
    ensures
        frac_len(s) <= count_digits(s),
    decreases s.len(),
{
    if s.len() > 0 {
        let t = s.drop_last();
        assert forall|i: int| 0 <= i < t.len() implies is_digit(#[trigger] t[i]) || t[i] == '.' by {
            assert(t[i] == s[i]);
        }
        lemma_frac_bound(t);
    }
}

/// Reads the number token that starts at character `start` of `s`.
fn number_at(s: &str, start: usize) -> (r: Option<Percent>)
    requires
        start <= s@.len(),
    ensures
        r == number_of(s@.subrange(start as int, s@.len() as int)),
        r matches Some(p) ==> p.wf(),
{
    let n = s.unicode_len();
    let ghost tok = s@.subrange(start as int, n as int);
    let mut i = start;
    let mut negative = false;
    if i < n && (s.get_char(i) == '+' || s.get_char(i) == '-') {
        negative = s.get_char(i) == '-';
        i = i + 1;
    }
    let ghost body = if has_sign(tok) { tok.drop_first() } else { tok };
    assert(body =~= s@.subrange(i as int, n as int));
    let first = i;
    let mut numer: u64 = 0;
    let mut denom: u64 = 1;
    let mut digits: u64 = 0;
    let mut dots: u64 = 0;
    let mut frac: u64 = 0;
    proof {
        lemma_pow10_max();
    }
    while i < n
        invariant
            first <= i <= n,
            n == s@.len(),
            body == s@.subrange(first as int, n as int),
            start <= n,
            tok == s@.subrange(start as int, n as int),
            body == (if has_sign(tok) { tok.drop_first() } else { tok }),
            pow10(MAX_DIGITS as nat) == 10_000_000_000_000_000_000nat,
            ({
                let pre = s@.subrange(first as int, i as int);
                &&& forall|k: int| 0 <= k < pre.len() ==> is_digit(#[trigger] pre[k]) || pre[k] == '.'
                &&& dots == count_dots(pre) && dots <= 1
                &&& digits == count_digits(pre) && digits <= MAX_DIGITS
                &&& frac == frac_len(pre) && frac <= digits
                &&& numer == digits_value(pre) && numer < pow10(digits as nat)
                &&& denom == pow10(frac as nat)
            }),
        decreases n - i,
    {
        let c = s.get_char(i);
        let ghost pre = s@.subrange(first as int, i as int);
        let ghost next = s@.subrange(first as int, i + 1);
        assert(next.drop_last() =~= pre);
        assert(next.last() == c);
        assert(body[next.len() - 1] == c);
        if c == '.' {
            if dots > 0 {
                proof {
                    lemma_counts_prefix(body, next.len() as int);
                    assert(body.subrange(0, next.len() as int) =~= next);
                }
                return None;
            }
            dots = 1;
        } else if '0' <= c && c <= '9' {
            if digits == MAX_DIGITS {
                proof {
                    lemma_counts_prefix(body, next.len() as int);
                    assert(body.subrange(0, next.len() as int) =~= next);
                }
                return None;
            }
            let v = (c as u32 - '0' as u32) as u64;
            proof {
                lemma_pow10_mono(digits as nat + 1, MAX_DIGITS as nat);
                let p = pow10(digits as nat);
                assert(numer * 10 + v < 10 * p) by (nonlinear_arith)
                    requires numer < p, v <= 9;
                lemma_pow10_mono(frac as nat + 1, MAX_DIGITS as nat);
            }
            numer = numer * 10 + v;
            digits = digits + 1;
            if dots > 0 {
                denom = denom * 10;
                frac = frac + 1;
            }
        } else {
            assert(!(is_digit(body[next.len() - 1]) || body[next.len() - 1] == '.'));
            return None;
        }
        assert forall|k: int| 0 <= k < next.len() implies is_digit(#[trigger] next[k]) || next[k] == '.' by {
            if k < pre.len() {
                assert(next[k] == pre[k]);
            }
        }
        i = i + 1;
    }
    assert(s@.subrange(first as int, i as int) == body);
    if digits == 0 {
        return None;
    }
    proof {
        lemma_frac_bound(body);
        lemma_pow10_mono(frac as nat, MAX_DIGITS as nat);
        lemma_pow10_mono(0, frac as nat);
    }
    Some(Percent { negative, numer, denom })
}

/// Reads a number token: an optionally signed decimal such as `12`, `-3.5`,
/// `+.25`.
pub fn parse_number(s: &str) -> (r: Result<Percent, ParseError>)
    ensures
        r matches Ok(p) ==> p.wf() && number_of(s@) == Some(p),
        r is Err <==> number_of(s@) is None,
{
    let n = s.unicode_len();
    proof {
        assert(s@.subrange(0, n as int) =~= s@);
    }
    match number_at(s, 0) {
        Some(p) => Ok(p),
        None => Err(ParseError),
    }
}

/// Reads a change token.
pub fn parse_change(s: &str) -> (r: Result<Change, ParseError>)
    ensures
        r matches Ok(c) ==> c.wf() && change_of(s@) == Some(c),
        r is Err <==> change_of(s@) is None,
{
    let n = s.unicode_len();
    if n > 0 && s.get_char(0) == '+' {
        assert(s@.drop_first() =~= s@.subrange(1, n as int));
        match number_at(s, 1) {
            Some(p) => Ok(Change::Relative(p)),
            None => Err(ParseError),
        }
    } else if n > 0 && s.get_char(0) == '-' {
        assert(s@.drop_first() =~= s@.subrange(1, n as int));
        match number_at(s, 1) {
            Some(p) => Ok(Change::Relative(Percent { negative: !p.negative, ..p })),
            None => Err(ParseError),
        }
    } else {
        assert(s@ =~= s@.subrange(0, n as int));
        match number_at(s, 0) {
            Some(p) => Ok(Change::Absolute(p)),
            None => Err(ParseError),
        }
    }
}

} // verus!
