//! One backlight device: its maximum count, its current count, and the
//! clamped percentage operations on them.
use crate::change::{Change, Percent};
use crate::number::{count_of, decimal, parse_count, push_decimal};
use vstd::prelude::*;

verus! {

/// What a device is, mathematically.
pub struct DeviceView {
    pub path: Seq<char>,
    pub name: Seq<char>,
    pub max: nat,
    pub current: nat,
}

/// A backlight device, read from a directory holding `max_brightness` and
/// `brightness`.
#[derive(Debug)]
pub struct Device {
    path: String,
    name: String,
    max: u32,
    current: u32,
}

/// Why a directory does not make a device.
#[derive(Debug, Clone, Copy, PartialEq, Eq, Structural)]
pub enum DeviceError {
    /// The path has no final component to name the device by.
    NoName,
    /// `max_brightness` does not hold an unsigned integer.
    BadMax,
    /// `brightness` does not hold an unsigned integer.
    BadCurrent,
    /// `max_brightness` is zero, so no percentage can be taken of it.
    ZeroMax,
}

impl View for Device {
    type V = DeviceView;

    closed spec fn view(&self) -> DeviceView {
        DeviceView {
            path: self.path@,
            name: self.name@,
            max: self.max as nat,
            current: self.current as nat,
        }
    }
}

/// A raw count `num / den` (with `den > 0`) brought into `[0, max]`: below
/// zero gives 0, `max` or above gives `max`, anything between is truncated.
pub open spec fn clamp_count(num: int, den: int, max: int) -> int {
    if num < 0 {
        0
    } else if num >= max * den {
        max
    } else {
        num / den
    }
}

/// The count that `set(p)` gives: `p / 100 * max`, clamped. Capping `p` at
/// 100 beforehand makes no difference, as any target of 100 or more gives
/// `max`.
pub open spec fn set_count(max: nat, p: Percent) -> nat {
    clamp_count(p.signed_numer() * max, 100 * p.denom, max as int) as nat
}

/// The count that `change(d)` gives: `current + d / 100 * max`, clamped.
pub open spec fn change_count(current: nat, max: nat, d: Percent) -> nat {
    clamp_count(
        current * (100 * (d.denom as int)) + d.signed_numer() * max,
        100 * (d.denom as int),
        max as int,
    ) as nat
}

/// The count that applying `c` gives.
pub open spec fn applied_count(current: nat, max: nat, c: Change) -> nat {
    match c {
        Change::Absolute(p) => set_count(max, p),
        Change::Relative(d) => change_count(current, max, d),
    }
}

pub open spec fn name_view(name: Option<String>) -> Option<Seq<char>> {
    match name {
        Some(n) => Some(n@),
        None => None,
    }
}

/// What reading a device directory gives.
pub open spec fn device_of(
    path: Seq<char>,
    name: Option<Seq<char>>,
    max_text: Seq<char>,
    current_text: Seq<char>,
) -> Result<DeviceView, DeviceError> {
    match name {
        None => Err(DeviceError::NoName),
        Some(n) => match (count_of(max_text), count_of(current_text)) {
            (None, _) => Err(DeviceError::BadMax),
            (Some(_), None) => Err(DeviceError::BadCurrent),
            (Some(m), Some(c)) => if m == 0 {
                Err(DeviceError::ZeroMax)
            } else {
                Ok(DeviceView { path, name: n, max: m as nat, current: c as nat })
            },
        },
    }
}

/// Width of the name column in a device's line.
pub const NAME_WIDTH: usize = 15;

/// `s` followed by spaces up to `width` characters.
pub open spec fn padded(s: Seq<char>, width: nat) -> Seq<char> {
    if s.len() >= width {
        s
    } else {
        s + Seq::new((width - s.len()) as nat, |i: int| ' ')
    }
}

/// The line that shows a device: its padded name, its whole percentage
/// (truncated) and its counts, as in `intel_backlight 27% (388/1388)`.
pub open spec fn display_text(v: DeviceView) -> Seq<char> {
    padded(v.name, NAME_WIDTH as nat) + seq![' '] + decimal(v.current * 100 / v.max) + seq!['%', ' ', '(']
        + decimal(v.current) + seq!['/'] + decimal(v.max) + seq![')']
}

/// Setting a percentage `p` with `0 <= p <= 100` leaves a count within
/// `[0, max]` whose percentage is `p` up to the truncation of the count:
/// `count <= p / 100 * max < count + 1`.
pub proof fn lemma_set_within_one_count(max: nat, p: Percent)
    requires
        max > 0,
        p.wf(),
        0 <= p.signed_numer() <= 100 * p.denom,
    ensures
        set_count(max, p) <= max,
        set_count(max, p) * (100 * (p.denom as int)) <= p.signed_numer() * max,
        p.signed_numer() * max < (set_count(max, p) + 1) * (100 * (p.denom as int)),
{
    let num = p.signed_numer() * max;
    let den = 100 * (p.denom as int);
    assert(0 <= num <= max * den) by (nonlinear_arith)
        requires 0 <= p.signed_numer() <= den, max > 0, num == p.signed_numer() * max;
    let c = set_count(max, p);
    if num >= max * den {
        assert(c == max);
        assert(c * den == num) by (nonlinear_arith)
            requires num <= max * den, num >= max * den, c == max;
        assert(num < (c + 1) * den) by (nonlinear_arith)
            requires c * den == num, den > 0;
    } else {
        assert(c == num / den);
        assert(c * den <= num < (c + 1) * den) by (nonlinear_arith)
            requires c == num / den, den > 0, num >= 0;
        assert(c <= max) by (nonlinear_arith)
            requires c == num / den, den > 0, num >= 0, num < max * den;
    }
}

/// A change by `d` followed by a change by `-d` gives back the count it
/// started from, when `d / 100 * max` is a whole number of counts and the
/// first change stays inside `[0, max)`, so that neither truncation nor
/// clamping takes anything away.
pub proof fn lemma_change_round_trip(current: nat, max: nat, d: Percent)
    requires
        max > 0,
        current <= max,
        d.wf(),
        (d.numer * max) % (100 * (d.denom as int)) == 0,
        0 <= current * (100 * (d.denom as int)) + d.signed_numer() * max < max * (100 * (d.denom as int)),
    ensures
        change_count(change_count(current, max, d), max, d.negated()) == current,
{
    let den = 100 * (d.denom as int);
    let k = (d.numer * max) / den;
    assert(d.numer * max == k * den) by (nonlinear_arith)
        requires (d.numer * max) % den == 0, k == (d.numer * max) / den, den > 0;
    let sk: int = if d.negative { -k } else { k };
    assert(d.signed_numer() * max == sk * den) by (nonlinear_arith)
        requires d.numer * max == k * den, sk == (if d.negative { -k } else { k }),
            d.signed_numer() == (if d.negative { -(d.numer as int) } else { d.numer as int });
    assert(d.negated().signed_numer() * max == -sk * den) by (nonlinear_arith)
        requires d.signed_numer() * max == sk * den,
            d.negated().signed_numer() == -d.signed_numer();
    let raw1 = current * den + d.signed_numer() * max;
    assert(raw1 == (current + sk) * den) by (nonlinear_arith)
        requires raw1 == current * den + d.signed_numer() * max, d.signed_numer() * max == sk * den;
    assert(raw1 / den == current + sk) by (nonlinear_arith)
        requires raw1 == (current + sk) * den, den > 0;
    let c1 = change_count(current, max, d);
    assert(c1 == current + sk);
    let raw2 = c1 * den + d.negated().signed_numer() * max;
    assert(raw2 == current * den) by (nonlinear_arith)
        requires raw2 == c1 * den + d.negated().signed_numer() * max,
            d.negated().signed_numer() * max == -sk * den, c1 == current + sk;
    assert(0 <= current * den) by (nonlinear_arith)
        requires den > 0;
    if current < max {
        assert(current * den < max * den) by (nonlinear_arith)
            requires current < max, den > 0;
        assert((current * den) / den == current) by (nonlinear_arith)
            requires den > 0;
    } else {
        assert(current * den == max * den);
    }
}

/// `num / den` clamped to `[0, max]`, for a `num` that is not negative.
fn clamp(num: u128, den: u128, max: u32) -> (r: u32)
    requires
        0 < den < 0x1_0000_0000_0000_0000_0000,
    ensures
        r as int == clamp_count(num as int, den as int, max as int),
{
    assert((max as int) * (den as int) < 0x1_0000_0000_0000_0000_0000_0000_0000) by (nonlinear_arith)
        requires max < 0x1_0000_0000int, den < 0x1_0000_0000_0000_0000_0000int;
    let top = max as u128 * den;
    if num >= top {
        max
    } else {
        assert(num / den < max) by (nonlinear_arith)
            requires num < max * den, den > 0;
        (num / den) as u32
    }
}

impl Device {
    pub open spec fn wf(&self) -> bool {
        self@.max > 0
    }

    /// Builds a device from its path, the final component of that path (if
    /// it has one) and the text of its two files.
    pub fn from_contents(path: String, name: Option<String>, max_text: &str, current_text: &str) -> (r: Result<Device, DeviceError>)
        ensures
            r matches Ok(d) ==> d.wf() && device_of(path@, name_view(name), max_text@, current_text@) == Ok::<DeviceView, DeviceError>(d@),
            r matches Err(e) ==> device_of(path@, name_view(name), max_text@, current_text@) == Err::<DeviceView, DeviceError>(e),
    {
        let name = match name {
            None => return Err(DeviceError::NoName),
            Some(n) => n,
        };
        let max = match parse_count(max_text) {
            None => return Err(DeviceError::BadMax),
            Some(m) => m,
        };
        let current = match parse_count(current_text) {
            None => return Err(DeviceError::BadCurrent),
            Some(c) => c,
        };
        if max == 0 {
            return Err(DeviceError::ZeroMax);
        }
        Ok(Device { path, name, max, current })
    }

    pub fn path(&self) -> (r: &String)
        ensures
            r@ == self@.path,
    {
        &self.path
    }

    pub fn name(&self) -> (r: &String)
        ensures
            r@ == self@.name,
    {
        &self.name
    }

    pub fn max(&self) -> (r: u32)
        ensures
            r == self@.max,
    {
        self.max
    }

    pub fn current(&self) -> (r: u32)
        ensures
            r == self@.current,
    {
        self.current
    }

    /// The brightness as a percentage of the maximum: `current * 100 / max`.
    pub fn percent(&self) -> (r: Percent)
        requires
            self.wf(),
        ensures
            r.wf(),
            !r.negative,
            r.numer == self@.current * 100,
            r.denom == self@.max,
    {
        Percent { negative: false, numer: self.current as u64 * 100, denom: self.max as u64 }
    }

    /// The line that shows this device.
    pub fn display(&self) -> (r: String)
        requires
            self.wf(),
        ensures
            r@ == display_text(self@),
    {
        let mut out = String::new();
        out.append(self.name.as_str());
        let len = self.name.as_str().unicode_len();
        let mut k = len;
        while k < NAME_WIDTH
            invariant
                len == self.name@.len(),
                len <= k <= NAME_WIDTH || (k == len && len >= NAME_WIDTH),
                out@ == self.name@ + Seq::new((k - len) as nat, |i: int| ' '),
            decreases NAME_WIDTH - k,
        {
            out.append(" ");
            proof {
                reveal_strlit(" ");
            }
            assert(out@ =~= self.name@ + Seq::new((k + 1 - len) as nat, |i: int| ' '));
            k = k + 1;
        }
        assert(out@ =~= padded(self.name@, NAME_WIDTH as nat));
        out.append(" ");
        push_decimal(&mut out, self.current as u64 * 100 / self.max as u64);
        out.append("% (");
        push_decimal(&mut out, self.current as u64);
        out.append("/");
        push_decimal(&mut out, self.max as u64);
        out.append(")");
        proof {
            reveal_strlit(" ");
            reveal_strlit("% (");
            reveal_strlit("/");
            reveal_strlit(")");
        }
        assert(out@ =~= display_text(self@));
        out
    }

    /// The text that goes into the `brightness` file: the current count in
    /// decimal.
    pub fn brightness_text(&self) -> (r: String)
        ensures
            r@ == decimal(self@.current),
    {
        let mut out = String::new();
        push_decimal(&mut out, self.current as u64);
        assert(out@ =~= decimal(self@.current));
        out
    }

    /// Moves the brightness by `d` percent of the maximum, clamped to
    /// `[0, max]`.
    pub fn change(&mut self, d: Percent)
        requires
            old(self).wf(),
            d.wf(),
        ensures
            final(self).wf(),
            final(self)@ == (DeviceView { current: change_count(old(self)@.current, old(self)@.max, d), ..old(self)@ }),
    {
        let den: u128 = 100 * d.denom as u128;
        let ghost c = self.current as int;
        let ghost m = self.max as int;
        let ghost dn = den as int;
        let ghost sn = d.signed_numer();
        assert(c * dn < 0x1_0000_0000_0000_0000_0000_0000_0000) by (nonlinear_arith)
            requires c < 0x1_0000_0000int, dn < 0x1_0000_0000_0000_0000_0000int, c >= 0, dn >= 0;
        assert((d.numer as int) * m < 0x1_0000_0000_0000_0000_0000_0000) by (nonlinear_arith)
            requires d.numer < 0x1_0000_0000_0000_0000int, m < 0x1_0000_0000int, m >= 0;
        let base: u128 = self.current as u128 * den;
        let delta: u128 = d.numer as u128 * self.max as u128;
        if d.negative {
            assert(sn * m == -(delta as int)) by (nonlinear_arith)
                requires sn == -(d.numer as int), delta == d.numer * m;
            if delta > base {
                self.current = 0;
            } else {
                self.current = clamp(base - delta, den, self.max);
            }
        } else {
            assert(sn * m == delta as int) by (nonlinear_arith)
                requires sn == d.numer as int, delta == d.numer * m;
            self.current = clamp(base + delta, den, self.max);
        }
    }

    /// Sets the brightness to `p` percent of the maximum (at most 100),
    /// clamped to `[0, max]`.
    pub fn set(&mut self, p: Percent)
        requires
            old(self).wf(),
            p.wf(),
        ensures
            final(self).wf(),
            final(self)@ == (DeviceView { current: set_count(old(self)@.max, p), ..old(self)@ }),
    {
        let den: u128 = 100 * p.denom as u128;
        let ghost m = self.max as int;
        let ghost sn = p.signed_numer();
        if p.negative {
            assert(sn * m <= 0) by (nonlinear_arith)
                requires sn <= 0, m >= 0;
            assert(m * (den as int) > 0) by (nonlinear_arith)
                requires m > 0, den > 0;
            proof {
                if sn * m == 0 {
                    assert(0int / (den as int) == 0);
                }
            }
            self.current = 0;
        } else {
            assert((p.numer as int) * m < 0x1_0000_0000_0000_0000_0000_0000) by (nonlinear_arith)
                requires p.numer < 0x1_0000_0000_0000_0000int, m < 0x1_0000_0000int, m >= 0;
            let num: u128 = p.numer as u128 * self.max as u128;
            self.current = clamp(num, den, self.max);
        }
    }

    /// Carries out a change: `set` for an absolute one, `change` for a
    /// relative one.
    pub fn apply(&mut self, c: Change)
        requires
            old(self).wf(),
            c.wf(),
        ensures
            final(self).wf(),
            final(self)@ == (DeviceView { current: applied_count(old(self)@.current, old(self)@.max, c), ..old(self)@ }),
    {
        match c {
            Change::Absolute(p) => self.set(p),
            Change::Relative(d) => self.change(d),
        }
    }
}

} // verus!
