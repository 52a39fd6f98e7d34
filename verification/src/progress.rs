//! Transfer progress on stderr: silent for fast transfers, a single rewriting
//! line once 250ms have elapsed — which catches both "big file" and "small
//! file, slow link" — cleared again on completion so the normal success
//! message stands alone.

use vstd::prelude::*;

use crate::binary64;
use crate::binary64::{Binary64, Binary64View};
use crate::proto;
use crate::proto::put_u32;
use crate::text;
use crate::text::{decimal_text, same};

verus! {

/// How long a transfer takes before it is shown, in nanoseconds.
pub const SHOW_AFTER_NS: u64 = 250_000_000;

/// How often the line is redrawn at most, in nanoseconds.
pub const REDRAW_EVERY_NS: u64 = 50_000_000;

/// How many cells the bar has.
pub const CELLS: u64 = 24;

/// How much is written at once.
pub const CHUNK: usize = 131_072;

// ---- amounts ----

/// A time in seconds: the whole ones, and the fraction.
pub open spec fn seconds(ns: nat) -> Binary64View {
    binary64::sum(ns / 1_000_000_000, binary64::nearest(ns % 1_000_000_000, 1_000_000_000, 0))
}

/// An amount of bytes in MiB.
pub open spec fn mebibytes(bytes: nat) -> Binary64View {
    binary64::quotient(binary64::whole(bytes), binary64::whole(1_048_576))
}

/// One thousandth, below which no time counts.
pub open spec fn millisecond() -> Binary64View {
    binary64::nearest(1, 1000, 0)
}

/// MiB per second.
pub open spec fn rate(bytes: nat, ns: nat) -> Binary64View {
    let secs = seconds(ns);
    binary64::quotient(
        mebibytes(bytes),
        if binary64::less(secs, millisecond()) {
            millisecond()
        } else {
            secs
        },
    )
}

/// The part of a transfer that is done, from 0 to 1; an empty one is done.
pub open spec fn fraction(sent: nat, total: nat) -> Binary64View {
    let one = binary64::whole(1);
    if total == 0 {
        one
    } else {
        let f = binary64::quotient(binary64::whole(sent), binary64::whole(total));
        if binary64::less(one, f) {
            one
        } else {
            f
        }
    }
}

/// How many cells of the bar are filled.
pub open spec fn filled_cells(sent: nat, total: nat) -> nat {
    let n = binary64::half_up(binary64::multiple(fraction(sent, total), CELLS as nat));
    if n < CELLS {
        n
    } else {
        CELLS as nat
    }
}

/// The part that is done, in percent.
pub open spec fn percent(sent: nat, total: nat) -> nat {
    binary64::scaled_even(binary64::multiple(fraction(sent, total), 100), 1)
}

/// A number with one place behind the point.
pub open spec fn one_place(x: Binary64View) -> Seq<char> {
    let tenths = binary64::scaled_even(x, 10);
    text::decimal(tenths / 10) + "."@ + text::decimal(tenths % 10)
}

/// `n` times the character `c`.
pub open spec fn run_of(c: char, n: nat) -> Seq<char> {
    Seq::new(n, |i: int| c)
}

/// A text, set to the right in three places.
pub open spec fn three_places(s: Seq<char>) -> Seq<char> {
    if s.len() < 3 {
        run_of(' ', (3 - s.len()) as nat) + s
    } else {
        s
    }
}

/// The line that shows a transfer.
pub open spec fn line(label: Seq<char>, sent: nat, total: nat, ns: nat) -> Seq<char> {
    let filled = filled_cells(sent, total);
    label + ": ["@ + run_of('#', filled) + run_of('-', (CELLS - filled) as nat) + "] "@
        + three_places(text::decimal(percent(sent, total))) + "% "@ + one_place(mebibytes(sent))
        + "/"@ + one_place(mebibytes(total)) + " MiB ("@ + one_place(rate(sent, ns)) + " MiB/s)"@
}

/// A time in seconds.
fn seconds_of(ns: u64) -> (r: Binary64)
    ensures
        r@ == seconds(ns as nat),
        r@.normal(),
        r.exp <= 6,
        -300 <= r.exp,
{
    let nanos: u64 = ns % 1_000_000_000;
    let part = Binary64::ratio(nanos, 1_000_000_000);
    proof {
        if nanos > 0 {
            vstd::arithmetic::power2::lemma2_to64();
            vstd::arithmetic::power2::lemma2_to64_rest();
            vstd::arithmetic::power2::lemma_pow2_adds(60, 22);
            assert(nanos as nat * vstd::arithmetic::power2::pow2(82) >= 1_000_000_000
                * binary64::LOW) by (nonlinear_arith)
                requires
                    nanos > 0,
                    vstd::arithmetic::power2::pow2(82) == 0x4_0000_0000_0000_0000_0000,
                    binary64::LOW == 0x10_0000_0000_0000,
            ;
            binary64::law_nearest_floor(nanos as nat, 1_000_000_000, 0, 82);
            binary64::law_nearest_ceiling(nanos as nat, 1_000_000_000, 0, 0);
        }
    }
    part.plus(ns / 1_000_000_000)
}

/// An amount of bytes in MiB.
fn mebibytes_of(bytes: u64) -> (r: Binary64)
    ensures
        r@ == mebibytes(bytes as nat),
        r@.normal(),
        r.exp <= -7 || r.mant == 0,
        -2200 <= r.exp,
{
    let unit = Binary64::of_u64(1_048_576);
    proof {
        vstd::arithmetic::power2::lemma2_to64();
        vstd::arithmetic::power2::lemma2_to64_rest();
        binary64::law_nearest_floor(1_048_576, 1, 0, 32);
    }
    Binary64::of_u64(bytes).divided_by(unit)
}

/// MiB per second.
fn rate_of(bytes: u64, ns: u64) -> (r: Binary64)
    ensures
        r@ == rate(bytes as nat, ns as nat),
        r@.normal(),
        r.exp <= 6,
        -2200 <= r.exp,
{
    let secs = seconds_of(ns);
    let milli = Binary64::ratio(1, 1000);
    proof {
        vstd::arithmetic::power2::lemma2_to64();
        vstd::arithmetic::power2::lemma2_to64_rest();
        binary64::law_nearest_floor(1, 1000, 0, 62);
    }
    let time = if secs.is_less(milli) {
        milli
    } else {
        secs
    };
    let amount = mebibytes_of(bytes);
    proof {
        if amount.mant > 0 {
            assert(amount.exp >= -1000) by {
                lemma_mebibytes_floor(bytes);
            }
        }
    }
    amount.divided_by(time)
}

/// One byte is not so little of a MiB.
proof fn lemma_mebibytes_floor(bytes: u64)
    ensures
        mebibytes(bytes as nat).exp >= -200,
{
    vstd::arithmetic::power2::lemma2_to64();
    vstd::arithmetic::power2::lemma2_to64_rest();
    let b = binary64::whole(bytes as nat);
    let unit = binary64::whole(1_048_576);
    binary64::law_nearest_normal(bytes as nat, 1, 0);
    binary64::law_nearest_normal(1_048_576, 1, 0);
    if bytes > 0 {
        assert(bytes as nat * vstd::arithmetic::power2::pow2(52) >= binary64::LOW)
            by (nonlinear_arith)
            requires
                bytes > 0,
                vstd::arithmetic::power2::pow2(52) == binary64::LOW,
        ;
        binary64::law_nearest_floor(bytes as nat, 1, 0, 52);
        binary64::law_nearest_ceiling(1_048_576, 1, 0, 21);
        assert(b.mant * vstd::arithmetic::power2::pow2(53) >= unit.mant * binary64::LOW)
            by (nonlinear_arith)
            requires
                b.mant >= 0x10_0000_0000_0000,
                0 <= unit.mant < 0x20_0000_0000_0000,
                vstd::arithmetic::power2::pow2(53) == 0x20_0000_0000_0000,
                binary64::LOW == 0x10_0000_0000_0000,
        ;
        binary64::law_nearest_floor(b.mant, unit.mant, b.exp - unit.exp, 53);
    }
}

/// The part of a transfer that is done.
fn fraction_of(sent: u64, total: u64) -> (r: Binary64)
    ensures
        r@ == fraction(sent as nat, total as nat),
        r@.normal(),
        r.exp <= -51 || r.mant == 0,
        -2000 <= r.exp,
{
    let one = Binary64::of_u64(1);
    proof {
        vstd::arithmetic::power2::lemma2_to64();
        binary64::law_nearest_ceiling(1, 1, 0, 1);
    }
    if total == 0 {
        return one;
    }
    let s = Binary64::of_u64(sent);
    let t = Binary64::of_u64(total);
    let f = s.divided_by(t);
    proof {
        if sent > 0 {
            vstd::arithmetic::power2::lemma2_to64_rest();
            assert(s@.mant * vstd::arithmetic::power2::pow2(53) >= t@.mant * binary64::LOW)
                by (nonlinear_arith)
                requires
                    s@.mant >= 0x10_0000_0000_0000,
                    0 <= t@.mant < 0x20_0000_0000_0000,
                    vstd::arithmetic::power2::pow2(53) == 0x20_0000_0000_0000,
                    binary64::LOW == 0x10_0000_0000_0000,
            ;
            binary64::law_nearest_floor(s@.mant, t@.mant, s@.exp - t@.exp, 53);
        }
    }
    if one.is_less(f) {
        one
    } else {
        f
    }
}

/// A number with one place behind the point.
fn one_place_of(x: Binary64) -> (r: String)
    requires
        x@.normal(),
        -5000 <= x.exp <= 6,
    ensures
        r@ == one_place(x@),
{
    let tenths: u64 = x.scaled(10);
    decimal_text(tenths / 10).concat(".").concat(decimal_text(tenths % 10).as_str())
}

/// `n` times the character `c`.
fn repeated(c: char, n: u64) -> (r: String)
    ensures
        r@ == run_of(c, n as nat),
{
    let mut out = String::new();
    let mut i: u64 = 0;
    assert(out@ =~= run_of(c, 0));
    while i < n
        invariant
            i <= n,
            out@ == run_of(c, i as nat),
        decreases n - i,
    {
        out.push(c);
        assert(run_of(c, i as nat).push(c) =~= run_of(c, (i + 1) as nat));
        i += 1;
    }
    out
}

/// A number, set to the right in three places.
fn padded(n: u64) -> (r: String)
    ensures
        r@ == three_places(text::decimal(n as nat)),
{
    let digits = decimal_text(n);
    let len: usize = text::chars_of(digits.as_str()).len();
    if len < 3 {
        repeated(' ', (3 - len) as u64).concat(digits.as_str())
    } else {
        digits
    }
}

/// The line that shows a transfer: a bar, how much of it is done, and how
/// fast.
pub fn render(label: &str, sent: u64, total: u64, elapsed_ns: u64) -> (r: String)
    ensures
        r@ == line(label@, sent as nat, total as nat, elapsed_ns as nat),
{
    let frac = fraction_of(sent, total);
    let cells: u64 = frac.times(CELLS).rounded();
    let filled: u64 = if cells < CELLS {
        cells
    } else {
        CELLS
    };
    let done: u64 = frac.times(100).scaled(1);
    label.to_owned().concat(": [").concat(repeated('#', filled).as_str()).concat(
        repeated('-', CELLS - filled).as_str(),
    ).concat("] ").concat(padded(done).as_str()).concat("% ").concat(
        one_place_of(mebibytes_of(sent)).as_str(),
    ).concat("/").concat(one_place_of(mebibytes_of(total)).as_str()).concat(" MiB (").concat(
        one_place_of(rate_of(sent, elapsed_ns)).as_str(),
    ).concat(" MiB/s)")
}

/// A finished transfer fills the bar, and so does an empty one.
pub proof fn law_complete(total: nat)
    ensures
        filled_cells(total, total) == CELLS,
        percent(total, total) == 100,
{
    let one = binary64::whole(1);
    binary64::law_one();
    if total > 0 {
        binary64::law_nearest_normal(total, 1, 0);
        binary64::law_quotient_of_equals(binary64::whole(total));
    }
    assert(fraction(total, total) == one);
    vstd::arithmetic::power2::lemma2_to64();
    vstd::arithmetic::power2::lemma2_to64_rest();
    let n24 = 0x10_0000_0000_0000 * 24nat;
    let n100 = 0x10_0000_0000_0000 * 100nat;
    assert(binary64::shrunk(n24, 1, -52) == (n24, 16nat, -48int)) by {
        reveal_with_fuel(binary64::shrunk, 6);
    }
    assert(binary64::shrunk(n100, 1, -52) == (n100, 64nat, -46int)) by {
        reveal_with_fuel(binary64::shrunk, 8);
    }
    assert(binary64::multiple(one, 24) == (Binary64View { mant: n24 / 16, exp: -48 }));
    assert(binary64::multiple(one, 100) == (Binary64View { mant: n100 / 64, exp: -46 }));
    let p48 = vstd::arithmetic::power2::pow2(48);
    let p46 = vstd::arithmetic::power2::pow2(46);
    assert(p48 == 0x1_0000_0000_0000 && p46 == 0x4000_0000_0000);
    assert((2 * (n24 / 16) + p48) / (2 * p48) == 24) by (nonlinear_arith)
        requires
            p48 == 0x1_0000_0000_0000,
            n24 == 0x10_0000_0000_0000 * 24nat,
    ;
    assert(1 * (n100 / 64) == 100 * p46);
    assert((100 * p46) / p46 == 100 && (100 * p46) % p46 == 0) by {
        assert(p46 == 0x4000_0000_0000);
    }
}

/// A transfer that has sent all there is, or more, fills the bar, and its
/// percentage is 100 and never more.
pub proof fn law_all_sent(sent: nat, total: nat)
    requires
        sent >= total,
    ensures
        fraction(sent, total) == binary64::whole(1),
        filled_cells(sent, total) == CELLS,
        percent(sent, total) == 100,
{
    let one = binary64::whole(1);
    if total > 0 {
        let s = binary64::whole(sent);
        let t = binary64::whole(total);
        binary64::law_nearest_normal(sent, 1, 0);
        binary64::law_nearest_normal(total, 1, 0);
        binary64::law_nearest_normal(1, 1, 0);
        binary64::law_nearest_normal(s.mant, t.mant, s.exp - t.exp);
        binary64::law_whole_monotone(total, sent);
        binary64::law_quotient_monotone(t, s, t);
        binary64::law_quotient_of_equals(t);
        let f = binary64::quotient(s, t);
        assert(binary64::at_most(one, f));
        if !binary64::less(one, f) {
            binary64::law_order_antisymmetric(one, f);
        }
    }
    law_complete(total);
}

/// The part that is done is a number from 0 to 1, with all its digits.
proof fn lemma_fraction(sent: nat, total: nat)
    ensures
        fraction(sent, total).normal(),
        binary64::at_most(fraction(sent, total), binary64::whole(1)),
{
    binary64::law_nearest_normal(1, 1, 0);
    if total > 0 {
        let s = binary64::whole(sent);
        let t = binary64::whole(total);
        binary64::law_nearest_normal(sent, 1, 0);
        binary64::law_nearest_normal(total, 1, 0);
        binary64::law_nearest_normal(s.mant, t.mant, s.exp - t.exp);
    }
}

/// The part that is done does not shrink as more is sent.
proof fn lemma_fraction_monotone(sent: nat, more: nat, total: nat)
    requires
        sent <= more,
    ensures
        binary64::at_most(fraction(sent, total), fraction(more, total)),
{
    lemma_fraction(sent, total);
    lemma_fraction(more, total);
    if total > 0 {
        let s = binary64::whole(sent);
        let m = binary64::whole(more);
        let t = binary64::whole(total);
        binary64::law_nearest_normal(sent, 1, 0);
        binary64::law_nearest_normal(more, 1, 0);
        binary64::law_nearest_normal(total, 1, 0);
        binary64::law_whole_monotone(sent, more);
        binary64::law_quotient_monotone(s, m, t);
    }
}

/// A multiple of what is done, by no more than 100, has no places above the
/// point.
proof fn lemma_multiple_small(sent: nat, total: nat, c: nat)
    requires
        0 < c <= 100,
    ensures
        binary64::multiple(fraction(sent, total), c).normal(),
        binary64::multiple(fraction(sent, total), c).exp <= 0,
{
    let f = fraction(sent, total);
    lemma_fraction(sent, total);
    binary64::law_nearest_normal(f.mant * c, 1, f.exp);
    if f.mant * c > 0 {
        binary64::law_one();
        vstd::arithmetic::power2::lemma2_to64();
        vstd::arithmetic::power2::lemma2_to64_rest();
        assert(f.mant > 0) by (nonlinear_arith)
            requires
                f.mant * c > 0,
        ;
        assert(f.exp <= -52);
        assert(f.mant * c < 1 * vstd::arithmetic::power2::pow2(60)) by (nonlinear_arith)
            requires
                f.mant < 0x20_0000_0000_0000,
                0 < c <= 100,
                vstd::arithmetic::power2::pow2(60) == 0x1000_0000_0000_0000,
        ;
        binary64::law_nearest_ceiling(f.mant * c, 1, f.exp, 60);
    }
}

/// The bar never shrinks, nor does the percentage, as more is sent.
pub proof fn law_bar_grows(sent: nat, more: nat, total: nat)
    requires
        sent <= more,
    ensures
        filled_cells(sent, total) <= filled_cells(more, total),
        percent(sent, total) <= percent(more, total),
        percent(more, total) <= 100,
{
    let f = fraction(sent, total);
    let g = fraction(more, total);
    lemma_fraction(sent, total);
    lemma_fraction(more, total);
    lemma_fraction_monotone(sent, more, total);
    lemma_multiple_small(sent, total, CELLS as nat);
    lemma_multiple_small(more, total, CELLS as nat);
    binary64::law_multiple_monotone(f, g, CELLS as nat);
    binary64::law_rounding_monotone(
        binary64::multiple(f, CELLS as nat),
        binary64::multiple(g, CELLS as nat),
    );
    lemma_multiple_small(sent, total, 100);
    lemma_multiple_small(more, total, 100);
    binary64::law_multiple_monotone(f, g, 100);
    binary64::law_rounding_monotone(binary64::multiple(f, 100), binary64::multiple(g, 100));
    let all = if more < total {
        total
    } else {
        more
    };
    let h = fraction(all, total);
    law_all_sent(all, total);
    lemma_fraction(all, total);
    lemma_fraction_monotone(more, all, total);
    lemma_multiple_small(all, total, 100);
    binary64::law_multiple_monotone(g, h, 100);
    binary64::law_rounding_monotone(binary64::multiple(g, 100), binary64::multiple(h, 100));
}

/// A line begins with its label and a bar of as many cells as ever, filled
/// from the left.
pub proof fn law_line_begins(label: Seq<char>, sent: nat, total: nat, ns: nat)
    ensures
        ({
            let filled = filled_cells(sent, total);
            text::starts_with(
                line(label, sent, total, ns),
                label + ": ["@ + run_of('#', filled) + run_of('-', (CELLS - filled) as nat) + "] "@,
            )
        }),
        filled_cells(sent, total) <= CELLS,
{
    let filled = filled_cells(sent, total);
    let head = label + ": ["@ + run_of('#', filled) + run_of('-', (CELLS - filled) as nat) + "] "@;
    let whole = line(label, sent, total, ns);
    assert(whole.subrange(0, head.len() as int) =~= head);
}

/// The bar has as many cells as ever.
pub proof fn law_bar_width(sent: nat, total: nat)
    ensures
        filled_cells(sent, total) <= CELLS,
        run_of('#', filled_cells(sent, total)).len() + run_of(
            '-',
            (CELLS - filled_cells(sent, total)) as nat,
        ).len() == CELLS,
{
}

// ---- a transfer ----

/// The line that shows a transfer as it goes on.
pub struct Progress {
    label: String,
    total: u64,
    /// When the line was last drawn, since the start.
    last_draw: Option<u64>,
    enabled: bool,
}

/// `Progress` by its contents.
#[verifier::ext_equal]
pub struct ProgressView {
    pub label: Seq<char>,
    pub total: nat,
    pub last_draw: Option<u64>,
    pub enabled: bool,
}

impl View for Progress {
    type V = ProgressView;

    closed spec fn view(&self) -> ProgressView {
        ProgressView {
            label: self.label@,
            total: self.total as nat,
            last_draw: self.last_draw,
            enabled: self.enabled,
        }
    }
}

/// Progress is shown: as `$BACKCHANNEL_PROGRESS` says, else on a terminal.
pub open spec fn shown(setting: Option<Seq<char>>, is_terminal: bool) -> bool {
    match setting {
        Some(s) => if s == "always"@ {
            true
        } else if s == "never"@ {
            false
        } else {
            is_terminal
        },
        None => is_terminal,
    }
}

/// A transfer of `total` bytes that begins.
pub open spec fn progress_begins(
    label: Seq<char>,
    total: nat,
    setting: Option<Seq<char>>,
    is_terminal: bool,
) -> ProgressView {
    ProgressView { label, total, last_draw: None, enabled: shown(setting, is_terminal) }
}

impl ProgressView {
    /// The line is drawn when `sent` bytes are out after `now` nanoseconds:
    /// not before the transfer has taken a while, and then not too often, but
    /// always at the end.
    pub open spec fn draws(self, sent: nat, now: u64) -> bool {
        self.enabled && now >= SHOW_AFTER_NS && (self.last_draw matches Some(t) ==> now - t
            >= REDRAW_EVERY_NS || sent >= self.total)
    }

    /// What is printed when `sent` bytes are out after `now` nanoseconds.
    pub open spec fn prints(self, sent: nat, now: u64) -> Option<Seq<char>> {
        if self.draws(sent, now) {
            Some("\r"@ + line(self.label, sent, self.total, now as nat))
        } else {
            None
        }
    }

    /// The transfer after that.
    pub open spec fn goes_on(self, sent: nat, now: u64) -> ProgressView {
        if self.draws(sent, now) {
            ProgressView { last_draw: Some(now), ..self }
        } else {
            self
        }
    }

    /// What clears the line when the transfer is over after `now`
    /// nanoseconds.
    pub open spec fn clears(self, now: nat) -> Option<Seq<char>> {
        if self.last_draw is Some {
            Some("\r"@ + run_of(' ', line(self.label, self.total, self.total, now).len()) + "\r"@)
        } else {
            None
        }
    }
}

impl Progress {
    /// A transfer of `total` bytes that begins now.
    pub fn new(label: &str, total: u64, setting: &Option<String>, is_terminal: bool) -> (r: Progress)
        ensures
            r@ == progress_begins(label@, total as nat, text::maybe(*setting), is_terminal),
    {
        let enabled = match setting {
            Some(s) => if same(s.as_str(), "always") {
                true
            } else if same(s.as_str(), "never") {
                false
            } else {
                is_terminal
            },
            None => is_terminal,
        };
        Progress { label: label.to_owned(), total, last_draw: None, enabled }
    }

    /// What to print when `sent` bytes are out after `now` nanoseconds, if
    /// anything.
    pub fn update(&mut self, sent: u64, now: u64) -> (r: Option<String>)
        ensures
            text::maybe(r) == old(self)@.prints(sent as nat, now),
            final(self)@ == old(self)@.goes_on(sent as nat, now),
    {
        if !self.enabled || now < SHOW_AFTER_NS {
            return None;
        }
        if let Some(t) = self.last_draw {
            let soon = now < t || now - t < REDRAW_EVERY_NS;
            if soon && sent < self.total {
                return None;
            }
        }
        self.last_draw = Some(now);
        let drawn = render(self.label.as_str(), sent, self.total, now);
        Some("\r".to_owned().concat(drawn.as_str()))
    }

    /// What to print when the transfer is over after `now` nanoseconds: blanks
    /// over the line, if one was drawn.
    pub fn finish(&mut self, now: u64) -> (r: Option<String>)
        ensures
            text::maybe(r) == old(self)@.clears(now as nat),
            final(self)@ == old(self)@,
    {
        if self.last_draw.is_none() {
            return None;
        }
        let drawn = render(self.label.as_str(), self.total, self.total, now);
        let width: usize = text::chars_of(drawn.as_str()).len();
        Some("\r".to_owned().concat(repeated(' ', width as u64).as_str()).concat("\r"))
    }
}

/// A transfer that is over before it would be shown leaves no trace.
pub proof fn law_fast_is_silent(p: ProgressView, sent: nat, now: u64)
    requires
        p.last_draw is None,
        now < SHOW_AFTER_NS,
    ensures
        !p.draws(sent, now),
        p.clears(now as nat) is None,
{
}

/// The end of a transfer that is shown is drawn, however shortly after the
/// line before.
pub proof fn law_end_is_drawn(p: ProgressView, now: u64)
    requires
        p.enabled,
        now >= SHOW_AFTER_NS,
    ensures
        p.draws(p.total, now),
{
}

/// The blanks cover the line that was drawn at the end, unless the rate has
/// lost a digit since.
pub proof fn law_line_cleared(p: ProgressView, drawn: nat, now: nat)
    requires
        p.last_draw is Some,
        one_place(rate(p.total, drawn)).len() <= one_place(rate(p.total, now)).len(),
    ensures
        p.clears(now) matches Some(printed) && printed.len() >= line(
            p.label,
            p.total,
            p.total,
            drawn,
        ).len() + 2 && forall|i: int|
            1 <= i < printed.len() - 1 ==> #[trigger] printed[i] == ' ',
{
    reveal_strlit("\r");
}

/// A transfer that is over.
#[derive(Debug, Clone, Copy, PartialEq, Eq)]
pub struct TransferStats {
    pub bytes: u64,
    pub elapsed_ns: u64,
}

/// A transfer in words, where it took long enough for its timing to mean
/// anything.
pub open spec fn summary_of(bytes: nat, ns: nat) -> Option<Seq<char>> {
    if ns < SHOW_AFTER_NS {
        None
    } else {
        Some(
            one_place(mebibytes(bytes)) + " MiB in "@ + one_place(seconds(ns)) + "s, "@
                + one_place(rate(bytes, ns)) + " MiB/s"@,
        )
    }
}

impl TransferStats {
    /// "14.6 MiB in 2.8s, 5.3 MiB/s" — None for sub-threshold blips, where
    /// timing would be noise.
    pub fn summary(&self) -> (r: Option<String>)
        ensures
            text::maybe(r) == summary_of(self.bytes as nat, self.elapsed_ns as nat),
    {
        if self.elapsed_ns < SHOW_AFTER_NS {
            return None;
        }
        Some(
            one_place_of(mebibytes_of(self.bytes)).concat(" MiB in ").concat(
                one_place_of(seconds_of(self.elapsed_ns)).as_str(),
            ).concat("s, ").concat(
                one_place_of(rate_of(self.bytes, self.elapsed_ns)).as_str(),
            ).concat(" MiB/s"),
        )
    }
}

// ---- writing in chunks ----

/// Where the `i`-th chunk of `len` bytes ends.
pub open spec fn chunk_end(i: int, len: nat) -> int {
    if (i + 1) * CHUNK < len {
        (i + 1) * CHUNK
    } else {
        len as int
    }
}

/// How many chunks `len` bytes take.
pub open spec fn chunk_count(len: nat) -> nat {
    ((len + CHUNK - 1) / CHUNK as int) as nat
}

/// The chunks of `len` bytes: from where to where.
pub open spec fn chunks_of(len: nat) -> Seq<(usize, usize)> {
    Seq::new(chunk_count(len), |i: int| ((i * CHUNK) as usize, chunk_end(i, len) as usize))
}

/// How a frame is written: its length first, then its payload chunk by chunk,
/// so that progress can be shown in between.
pub struct FramePlan {
    pub header: Vec<u8>,
    pub chunks: Vec<(usize, usize)>,
}

/// What is written before a payload of `len` bytes.
pub open spec fn header_of(len: nat) -> Seq<u8> {
    proto::be32(proto::wire_len(len))
}

/// How a payload of `len` bytes is written as a frame. Socket-buffer
/// backpressure means that written bytes closely track the actual transfer.
pub fn write_frame_with_progress(len: usize) -> (r: FramePlan)
    ensures
        r.header@ == header_of(len as nat),
        r.chunks@ == chunks_of(len as nat),
{
    let mut header: Vec<u8> = Vec::new();
    put_u32(&mut header, (len as u64 % 0x1_0000_0000) as u32);
    assert(header@ =~= proto::be32(proto::wire_len(len as nat)));
    let mut chunks: Vec<(usize, usize)> = Vec::new();
    let mut sent: usize = 0;
    let ghost mut i: int = 0;
    while sent < len
        invariant
            sent <= len,
            0 <= i,
            sent == i * CHUNK || sent == len,
            sent < len ==> sent == i * CHUNK,
            i == chunks@.len(),
            sent == len ==> i == chunk_count(len as nat),
            i <= chunk_count(len as nat),
            forall|k: int|
                0 <= k < i ==> #[trigger] chunks@[k] == ((k * CHUNK) as usize, chunk_end(
                    k,
                    len as nat,
                ) as usize),
        decreases len - sent,
    {
        let end: usize = if len - sent > CHUNK {
            sent + CHUNK
        } else {
            len
        };
        assert(end == chunk_end(i, len as nat));
        chunks.push((sent, end));
        sent = end;
        proof {
            i = i + 1;
        }
    }
    assert(chunks@ =~= chunks_of(len as nat));
    FramePlan { header, chunks }
}

/// The first `n` chunks of a payload, one after the other.
pub open spec fn gathered(payload: Seq<u8>, n: nat) -> Seq<u8>
    decreases n,
{
    if n == 0 {
        Seq::empty()
    } else {
        gathered(payload, (n - 1) as nat) + payload.subrange(
            chunks_of(payload.len())[n - 1].0 as int,
            chunks_of(payload.len())[n - 1].1 as int,
        )
    }
}

/// Header and chunks, written one after the other, are the frame, and no
/// chunk is larger than it should be.
pub proof fn law_chunks_are_the_frame(payload: Seq<u8>)
    requires
        payload.len() <= usize::MAX,
    ensures
        header_of(payload.len()) + gathered(payload, chunk_count(payload.len())) == proto::frame(
            payload,
        ),
        forall|i: int|
            0 <= i < chunk_count(payload.len()) ==> {
                let c = #[trigger] chunks_of(payload.len())[i];
                c.0 < c.1 <= payload.len() && c.1 - c.0 <= CHUNK
            },
{
    let n = chunk_count(payload.len());
    lemma_gathered(payload, n);
    assert(payload.take(payload.len() as int) =~= payload);
    if payload.len() == 0 {
        assert(gathered(payload, n) =~= payload);
    }
}

proof fn lemma_gathered(payload: Seq<u8>, n: nat)
    requires
        payload.len() <= usize::MAX,
        n <= chunk_count(payload.len()),
    ensures
        n > 0 ==> gathered(payload, n) == payload.take(chunk_end(n - 1, payload.len())),
        n == 0 ==> gathered(payload, n) == payload.take(0),
    decreases n,
{
    if n == 0 {
        assert(payload.take(0) =~= Seq::empty());
    } else {
        let i = n - 1;
        lemma_gathered(payload, i as nat);
        let c = chunks_of(payload.len())[i];
        assert(i * CHUNK < payload.len());
        assert(c.0 == i * CHUNK);
        assert(c.1 == chunk_end(i, payload.len()));
        assert(gathered(payload, i as nat) == payload.take(i * CHUNK));
        assert(payload.take(i * CHUNK) + payload.subrange(i * CHUNK, c.1 as int) =~= payload.take(
            c.1 as int,
        ));
    }
}

// ---- what is shown ----

/// Progress is shown where the user says so, and where the user says nothing
/// of it, on a terminal.
pub proof fn law_shown(other: Seq<char>, is_terminal: bool)
    ensures
        shown(Some("always"@), is_terminal),
        !shown(Some("never"@), is_terminal),
        shown(None, is_terminal) == is_terminal,
        other != "always"@ && other != "never"@ ==> shown(Some(other), is_terminal) == is_terminal,
{
    reveal_strlit("always");
    reveal_strlit("never");
    assert("always"@.len() != "never"@.len());
}

/// A line is drawn first when a transfer has taken a quarter of a second, and
/// then again when a twentieth has passed or everything is out; what is not
/// to be shown is never drawn.
pub proof fn law_drawn(p: ProgressView, sent: nat, now: u64, before: u64)
    requires
        before <= now,
    ensures
        !p.enabled ==> !p.draws(sent, now),
        now < 250_000_000 ==> !p.draws(sent, now),
        p.enabled && now >= 250_000_000 && p.last_draw is None ==> p.draws(sent, now),
        p.enabled && now >= 250_000_000 && p.last_draw == Some(before) ==> (p.draws(sent, now) <==> now
            - before >= 50_000_000 || sent >= p.total),
{
}

/// A drawn line is cleared when the transfer is over, and nothing else is.
pub proof fn law_cleared(p: ProgressView, now: nat)
    ensures
        p.clears(now) is Some <==> p.last_draw is Some,
        p.clears(now) matches Some(printed) ==> printed.len() >= 2 && printed[0] == '\r'
            && printed.last() == '\r',
{
    reveal_strlit("\r");
}

/// A transfer is summed up once it took a quarter of a second: how much it
/// was, how long it took, and how fast that is.
pub proof fn law_summed_up(bytes: nat, ns: nat)
    ensures
        summary_of(bytes, ns) is Some <==> ns >= 250_000_000,
        summary_of(bytes, ns) matches Some(s) ==> text::starts_with(
            s,
            one_place(mebibytes(bytes)) + " MiB in "@ + one_place(seconds(ns)) + "s, "@,
        ) && text::contains(s, one_place(rate(bytes, ns)) + " MiB/s"@),
{
    if let Some(s) = summary_of(bytes, ns) {
        let head = one_place(mebibytes(bytes)) + " MiB in "@ + one_place(seconds(ns)) + "s, "@;
        assert(s.subrange(0, head.len() as int) =~= head);
        let tail = one_place(rate(bytes, ns)) + " MiB/s"@;
        let at = head.len() as int;
        assert(s.subrange(at, at + tail.len()) =~= tail);
        assert(text::stands_at(s, at, tail));
    }
}

/// What is faster than a millisecond counts as one: no rate is larger for it.
pub proof fn law_rate_of_an_instant(bytes: nat, a: nat, b: nat)
    requires
        binary64::less(seconds(a), millisecond()),
        binary64::less(seconds(b), millisecond()),
    ensures
        rate(bytes, a) == rate(bytes, b),
        rate(bytes, a) == binary64::quotient(mebibytes(bytes), millisecond()),
{
}

/// The share that is done is a share of what there is, and of nothing
/// everything is done.
pub proof fn law_share(sent: nat, total: nat)
    ensures
        total == 0 ==> fraction(sent, total) == binary64::whole(1),
        total > 0 && sent <= total ==> fraction(sent, total) == binary64::quotient(
            binary64::whole(sent),
            binary64::whole(total),
        ) || fraction(sent, total) == binary64::whole(1),
        filled_cells(sent, total) <= 24,
{
}

/// The line tells, behind the bar, the percentage in three places, what is
/// out and what there is, and how fast it goes.
pub proof fn law_line_ends(label: Seq<char>, sent: nat, total: nat, ns: nat)
    ensures
        ({
            let tail = three_places(text::decimal(percent(sent, total))) + "% "@ + one_place(
                mebibytes(sent),
            ) + "/"@ + one_place(mebibytes(total)) + " MiB ("@ + one_place(rate(sent, ns))
                + " MiB/s)"@;
            let whole = line(label, sent, total, ns);
            &&& tail.len() <= whole.len()
            &&& whole.skip(whole.len() - tail.len()) == tail
        }),
        three_places(text::decimal(percent(sent, total))).len() == 3,
{
    let tail = three_places(text::decimal(percent(sent, total))) + "% "@ + one_place(
        mebibytes(sent),
    ) + "/"@ + one_place(mebibytes(total)) + " MiB ("@ + one_place(rate(sent, ns)) + " MiB/s)"@;
    let whole = line(label, sent, total, ns);
    assert(whole.skip(whole.len() - tail.len()) =~= tail);
    law_bar_grows(sent, sent, total);
    let p = percent(sent, total);
    text::law_decimal_plain(p);
    if p >= 10 {
        text::law_decimal_plain(p / 10);
        if p >= 100 {
            text::law_decimal_plain(p / 100);
        }
    }
}

/// A number with one place behind the point is the number of its tenths,
/// rounded, with a point before the last digit.
pub proof fn law_one_place(x: Binary64View)
    ensures
        ({
            let s = one_place(x);
            let tenths = binary64::scaled_even(x, 10);
            &&& s.len() >= 3
            &&& s[s.len() - 2] == '.'
            &&& s.take(s.len() - 2) == text::decimal(tenths / 10)
            &&& s.last() as int == '0' as int + tenths % 10
        }),
{
    reveal_strlit(".");
    let tenths = binary64::scaled_even(x, 10);
    let w = text::decimal(tenths / 10);
    let t = text::decimal(tenths % 10);
    text::law_decimal_plain(tenths / 10);
    text::law_decimal_plain(tenths % 10);
    let s = one_place(x);
    assert(s.take(s.len() - 2) =~= w);
    assert(s[s.len() - 1] == t[0]);
}

/// A transfer begins undrawn and is what it was told to be; a line that is
/// drawn is printed over the one before, and the time of it is remembered;
/// and nothing else ever changes.
pub proof fn law_goes_on(
    label: Seq<char>,
    total: nat,
    is_terminal: bool,
    p: ProgressView,
    sent: nat,
    now: u64,
)
    ensures
        ({
            let begun = progress_begins(label, total, None, is_terminal);
            &&& begun.label == label && begun.total == total && begun.last_draw is None
            &&& begun.enabled == is_terminal
        }),
        p.prints(sent, now) is Some <==> p.draws(sent, now),
        p.prints(sent, now) matches Some(printed) ==> printed.len() > 0 && printed[0] == '\r'
            && printed.skip(1) == line(p.label, sent, p.total, now as nat),
        p.draws(sent, now) ==> p.goes_on(sent, now).last_draw == Some(now),
        !p.draws(sent, now) ==> p.goes_on(sent, now) == p,
        p.goes_on(sent, now).label == p.label,
        p.goes_on(sent, now).total == p.total,
        p.goes_on(sent, now).enabled == p.enabled,
{
    reveal_strlit("\r");
    let l = line(p.label, sent, p.total, now as nat);
    assert(("\r"@ + l).skip(1) =~= l);
}

/// More bytes are never shown as fewer, nor as slower over the same time; and
/// a mebibyte is the unit they are counted in.
pub proof fn law_more_is_more(a: nat, b: nat, ns: nat)
    requires
        a <= b,
    ensures
        binary64::at_most(mebibytes(a), mebibytes(b)),
        binary64::at_most(rate(a, ns), rate(b, ns)),
        mebibytes(1_048_576) == binary64::whole(1),
{
    let unit = binary64::whole(1_048_576);
    binary64::law_nearest_normal(1_048_576, 1, 0);
    binary64::law_nearest_normal(a, 1, 0);
    binary64::law_nearest_normal(b, 1, 0);
    binary64::law_whole_monotone(a, b);
    binary64::law_quotient_monotone(binary64::whole(a), binary64::whole(b), unit);
    binary64::law_quotient_of_equals(unit);
    let x = binary64::whole(a);
    let y = binary64::whole(b);
    binary64::law_nearest_normal(x.mant, unit.mant, x.exp - unit.exp);
    binary64::law_nearest_normal(y.mant, unit.mant, y.exp - unit.exp);
    binary64::law_nearest_normal(1, 1000, 0);
    let secs = seconds(ns);
    let time = if binary64::less(secs, millisecond()) {
        millisecond()
    } else {
        secs
    };
    assert(time.mant > 0);
    binary64::law_quotient_monotone(mebibytes(a), mebibytes(b), time);
}

}
