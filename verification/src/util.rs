//! Small helpers shared by the backup, restore and UI layers.

use std::sync::atomic::{AtomicBool, Ordering};
use std::sync::Arc;

use vstd::prelude::*;
use vstd::utf8::*;
use crate::double::{
    divide_half_even, divide_units, half_even, half_up, lemma_half_even_error, lemma_nearest_large,
    lemma_nearest_scale, lemma_quotient_error,
    lemma_whole_numbers_are_doubles, nearest, nearest_double, quotient_units,
    round_to_u64, ONE,
};
use crate::error::Cancelled;
use crate::natural::Natural;
use crate::path::{
    components, is_plain_name, join, join_all, last_name, lemma_join_all, lemma_parts_canonical,
    name_parts, parts, suffixed_parts, walk, with_name_suffix, Component, Part,
};
use crate::text::{
    ascii_alphanumeric, ascii_digit, ascii_lowercase, cat2, cat3, cat5, chars_of, copy_range,
    decimal, decimal_text, is_ascii_alphanumeric, is_ascii_digit, is_space, lemma_trim_plain,
    same_text, text_from_utf8, text_of, to_ascii_lowercase, trim, trim_end, trim_start, trimmed,
    views,
};

verus! {

// ------------------------------------------------------------- cancellation

/// Cooperative cancellation flag shared between the UI and worker threads.
///
/// Long running work polls this between units of work (a file, an app) so that
/// cancelling never leaves a half-written archive or a half-restored data
/// directory behind: callers unwind through the normal error path instead.
#[derive(Clone, Debug)]
pub struct Cancel(Arc<AtomicBool>);

impl Cancel {
    /// This flag is what `AtomicBool::new` gives for `value`.
    pub closed spec fn made_with(&self, value: bool) -> bool {
        call_ensures(AtomicBool::new, (value,), *self.0)
    }

    /// `value` is what a sequentially consistent `AtomicBool::load` of this flag gives.
    ///
    /// Another thread may raise the flag at any time, so two looks may differ.
    pub closed spec fn seen_as(&self, value: bool) -> bool {
        call_ensures(AtomicBool::load, (&*self.0, Ordering::SeqCst), value)
    }

    /// A flag that is not raised.
    pub fn new() -> (out: Self)
        ensures
            out.made_with(false),
    {
        Cancel(Arc::new(AtomicBool::new(false)))
    }

    /// Raises the flag, for every clone of it.
    pub fn cancel(&self) {
        self.0.store(true, Ordering::SeqCst);
    }

    /// True once the flag is raised, as one look at it finds.
    pub fn is_cancelled(&self) -> (raised: bool)
        ensures
            self.seen_as(raised),
    {
        self.0.load(Ordering::SeqCst)
    }

    /// Returns `Err(Cancelled)` if cancellation was requested.
    pub fn check(&self) -> (out: Result<(), Cancelled>)
        ensures
            self.seen_as(out is Err),
    {
        refuse_if(self.is_cancelled())
    }
}

impl Default for Cancel {
    fn default() -> (out: Self)
        ensures
            out.made_with(false),
    {
        Cancel::new()
    }
}

/// The error that a raised flag stands for.
pub fn refuse_if(cancelled: bool) -> (out: Result<(), Cancelled>)
    ensures
        out is Err <==> cancelled,
{
    if cancelled {
        Err(Cancelled)
    } else {
        Ok(())
    }
}

// ------------------------------------------------------------------- sizes

/// Divides `units` by 1000, rounding each time, until it is below 1000 or the
/// units are petabytes: the value, and how often it was divided.
pub open spec fn scaled(units: nat, unit: nat) -> (nat, nat)
    decreases 5 - unit,
{
    if units >= 1000 * ONE && unit < 5 {
        scaled(quotient_units(units, 1000), unit + 1)
    } else {
        (units, unit)
    }
}

/// The SI unit for a power of 1000.
pub open spec fn unit_name(unit: nat) -> Seq<char> {
    if unit == 0 {
        "B"@
    } else if unit == 1 {
        "kB"@
    } else if unit == 2 {
        "MB"@
    } else if unit == 3 {
        "GB"@
    } else if unit == 4 {
        "TB"@
    } else {
        "PB"@
    }
}

/// How a byte count is shown: the value in its unit as a double, with one
/// decimal below ten and none above.
pub open spec fn size_text(bytes: nat) -> Seq<char> {
    if bytes < 1000 {
        decimal(bytes) + " "@ + unit_name(0)
    } else {
        let (value, unit) = scaled(quotient_units((bytes * ONE) as nat, 1), 0);
        if value < 10 * ONE {
            let tenths = half_even(10 * value, ONE as nat);
            decimal(tenths / 10) + "."@ + decimal(tenths % 10) + " "@ + unit_name(unit)
        } else {
            decimal(half_even(value, ONE as nat)) + " "@ + unit_name(unit)
        }
    }
}

fn unit_label(unit: u32) -> (name: &'static str)
    ensures
        name@ == unit_name(unit as nat),
{
    if unit == 0 {
        "B"
    } else if unit == 1 {
        "kB"
    } else if unit == 2 {
        "MB"
    } else if unit == 3 {
        "GB"
    } else if unit == 4 {
        "TB"
    } else {
        "PB"
    }
}

/// Formats a byte count the way GLib and the `flatpak` CLI do: SI units with
/// 1000 as the base, so numbers here match what `flatpak list` reports.
pub fn format_size(bytes: u64) -> (out: String)
    ensures
        out@ == size_text(bytes as nat),
{
    if bytes < 1000 {
        return cat3(&decimal_text(bytes), " ", unit_label(0));
    }
    let mut value: u128 = divide_units(bytes as u128 * ONE, 1);
    let mut unit: u32 = 0;
    let ghost first = value as nat;
    while value >= 1000 * ONE && unit < 5
        invariant
            unit <= 5,
            value <= 0x20_0000_0000_0000_0000_0000_0000_0000,
            unit > 0 ==> value <= 0x2000_0000_0000_0000_0000_0000_0000,
            scaled(first, 0) == scaled(value as nat, unit as nat),
        decreases 5 - unit,
    {
        value = divide_units(value, 1000);
        unit = unit + 1;
    }
    if value < 10 * ONE {
        let tenths: u128 = divide_half_even(10 * value, ONE);
        proof {
            crate::double::lemma_half_even_bound((10 * value) as nat, ONE as nat);
        }
        cat5(
            &decimal_text((tenths / 10) as u64),
            ".",
            &decimal_text((tenths % 10) as u64),
            " ",
            unit_label(unit),
        )
    } else {
        let whole: u128 = divide_half_even(value, ONE);
        proof {
            crate::double::lemma_half_even_bound(value as nat, ONE as nat);
        }
        cat3(&decimal_text(whole as u64), " ", unit_label(unit))
    }
}

pub open spec fn is_number_char(c: char) -> bool {
    is_ascii_digit(c) || c == '.' || c == ','
}

/// How many characters of a number `s` starts with.
pub open spec fn number_len(s: Seq<char>) -> nat
    decreases s.len(),
{
    if s.len() > 0 && is_number_char(s[0]) {
        1 + number_len(s.skip(1))
    } else {
        0
    }
}

/// A number in decimal: its digits as one whole number, how many of them there
/// are, how many stand behind a separator, and how many separators there are.
pub struct Reading {
    pub value: nat,
    pub digits: nat,
    pub places: nat,
    pub separators: nat,
}

pub open spec fn reading(s: Seq<char>) -> Reading
    decreases s.len(),
{
    if s.len() == 0 {
        Reading { value: 0, digits: 0, places: 0, separators: 0 }
    } else {
        let before = reading(s.drop_last());
        let c = s.last();
        if is_ascii_digit(c) {
            Reading {
                value: (before.value * 10 + (c as int - 48)) as nat,
                digits: before.digits + 1,
                places: if before.separators > 0 {
                    before.places + 1
                } else {
                    before.places
                },
                separators: before.separators,
            }
        } else {
            Reading { separators: before.separators + 1, ..before }
        }
    }
}

/// 10 to the power of `n`.
pub open spec fn power_of_ten(n: nat) -> nat
    decreases n,
{
    if n == 0 {
        1
    } else {
        power_of_ten((n - 1) as nat) * 10
    }
}

/// How many bytes one of `unit` is.
pub open spec fn unit_bytes(unit: Seq<char>) -> Option<nat> {
    if unit == ""@ || unit == "b"@ || unit == "bytes"@ {
        Some(1)
    } else if unit == "kb"@ || unit == "k"@ {
        Some(1_000)
    } else if unit == "mb"@ || unit == "m"@ {
        Some(1_000_000)
    } else if unit == "gb"@ || unit == "g"@ {
        Some(1_000_000_000)
    } else if unit == "tb"@ || unit == "t"@ {
        Some(1_000_000_000_000)
    } else if unit == "pb"@ {
        Some(1_000_000_000_000_000)
    } else if unit == "kib"@ {
        Some(1024)
    } else if unit == "mib"@ {
        Some(1024 * 1024)
    } else if unit == "gib"@ {
        Some(1024 * 1024 * 1024)
    } else if unit == "tib"@ {
        Some(1024 * 1024 * 1024 * 1024)
    } else {
        None
    }
}

/// The byte count that `value / 10^places` units of `unit` bytes are: a double
/// times a double, rounded to a whole number.
pub open spec fn bytes_in(value: nat, places: nat, unit: nat) -> u64 {
    let (num, den) = nearest(value, power_of_ten(places));
    let (p, q) = nearest(num * unit, den);
    if half_up(p, q) <= u64::MAX {
        half_up(p, q) as u64
    } else {
        u64::MAX
    }
}

/// The byte count that `text` stands for: a number with at most one decimal
/// separator, then a unit.
pub open spec fn parsed_size(text: Seq<char>) -> Option<u64> {
    let t = trim(text);
    let n = number_len(t) as int;
    let number = reading(t.take(n));
    if number.digits == 0 || number.separators > 1 {
        None
    } else {
        match unit_bytes(ascii_lowercase(trim(t.skip(n)))) {
            Some(unit) => Some(bytes_in(number.value, number.places, unit)),
            None => None,
        }
    }
}

spec fn product(a: u32, b: u32) -> nat {
    (a * b) as nat
}

/// The bytes in one of `unit`, as two factors.
fn unit_factors(unit: &str) -> (out: Option<(u32, u32)>)
    ensures
        out is Some <==> unit_bytes(unit@) is Some,
        out matches Some((a, b)) ==> unit_bytes(unit@) == Some(product(a, b)),
{
    proof {
        assert(product(1, 1) == 1);
        assert(product(1_000, 1) == 1_000);
        assert(product(1_000_000, 1) == 1_000_000);
        assert(product(1_000_000_000, 1) == 1_000_000_000);
        assert(product(1_000_000_000, 1_000) == 1_000_000_000_000);
        assert(product(1_000_000_000, 1_000_000) == 1_000_000_000_000_000);
        assert(product(1024, 1) == 1024);
        assert(product(1024, 1024) == 1024 * 1024);
        assert(product(1_048_576, 1024) == 1024 * 1024 * 1024);
        assert(product(1_048_576, 1_048_576) == 1024 * 1024 * 1024 * 1024);
    }
    if same_text(unit, "") || same_text(unit, "b") || same_text(unit, "bytes") {
        Some((1, 1))
    } else if same_text(unit, "kb") || same_text(unit, "k") {
        Some((1_000, 1))
    } else if same_text(unit, "mb") || same_text(unit, "m") {
        Some((1_000_000, 1))
    } else if same_text(unit, "gb") || same_text(unit, "g") {
        Some((1_000_000_000, 1))
    } else if same_text(unit, "tb") || same_text(unit, "t") {
        Some((1_000_000_000, 1_000))
    } else if same_text(unit, "pb") {
        Some((1_000_000_000, 1_000_000))
    } else if same_text(unit, "kib") {
        Some((1024, 1))
    } else if same_text(unit, "mib") {
        Some((1024, 1024))
    } else if same_text(unit, "gib") {
        Some((1_048_576, 1024))
    } else if same_text(unit, "tib") {
        Some((1_048_576, 1_048_576))
    } else {
        None
    }
}

proof fn lemma_nearest_positive(num: nat, den: nat)
    requires
        0 < den,
    ensures
        nearest(num, den).1 > 0,
    decreases
            (if num >= den {
                num - den
            } else {
                2 * den - num
            }),
{
    if num == 0 {
    } else if num >= 2 * den {
        lemma_nearest_positive(num, 2 * den);
    } else if num < den {
        lemma_nearest_positive(2 * num, den);
    }
}

proof fn lemma_number_len(s: Seq<char>)
    ensures
        number_len(s) <= s.len(),
        forall|i: int| 0 <= i < number_len(s) ==> is_number_char(#[trigger] s[i]),
        number_len(s) < s.len() ==> !is_number_char(s[number_len(s) as int]),
    decreases s.len(),
{
    if s.len() > 0 && is_number_char(s[0]) {
        lemma_number_len(s.skip(1));
        assert forall|i: int| 0 <= i < number_len(s) implies is_number_char(#[trigger] s[i]) by {
            if i > 0 {
                assert(s[i] == s.skip(1)[i - 1]);
            }
        }
    }
}

/// Best-effort inverse of [`format_size`], used to turn the human readable
/// size column of `flatpak list` back into a byte count.
///
/// Returns `None` for anything unparseable (including flatpak's `?` placeholder
/// for sizes it does not know) so callers can treat the size as unknown rather
/// than as zero.
pub fn parse_size(text: &str) -> (out: Option<u64>)
    ensures
        out == parsed_size(text@),
{
    let t = trimmed(&chars_of(text));
    let mut value = Natural::new(0);
    let mut scale = Natural::new(1);
    let mut digits: usize = 0;
    let mut separators: usize = 0;
    let mut i: usize = 0;
    let ghost n = number_len(t@);
    proof {
        lemma_number_len(t@);
        assert(t@.take(0) =~= Seq::<char>::empty());
    }
    while i < t.len() && (ascii_digit(t[i]) || t[i] == '.' || t[i] == ',')
        invariant
            i <= n,
            n == number_len(t@),
            n <= t@.len(),
            n < t@.len() ==> !is_number_char(t@[n as int]),
            value@ == reading(t@.take(i as int)).value,
            digits == reading(t@.take(i as int)).digits,
            separators == reading(t@.take(i as int)).separators,
            scale@ == power_of_ten(reading(t@.take(i as int)).places),
            0 < scale@,
            digits + separators == i,
        decreases t.len() - i,
    {
        let c = t[i];
        proof {
            assert(t@.take(i + 1).drop_last() =~= t@.take(i as int));
            assert(t@.take(i + 1).last() == c);
        }
        if ascii_digit(c) {
            value = value.times_plus(10, c as u32 - 48);
            digits = digits + 1;
            if separators > 0 {
                scale = scale.times_plus(10, 0);
            }
        } else {
            separators = separators + 1;
        }
        i = i + 1;
    }
    proof {
        assert(t@.skip(n as int) =~= t@.subrange(n as int, t@.len() as int));
    }
    if digits == 0 || separators > 1 {
        return None;
    }
    let unit = to_ascii_lowercase(&trimmed(&copy_range(&t, i, t.len())));
    match unit_factors(&text_of(&unit)) {
        None => None,
        Some((a, b)) => {
            let (num, den) = nearest_double(value, scale);
            let product = num.times_plus(a, 0).times_plus(b, 0);
            proof {
                assert(num@ * a * b == num@ * (a * b)) by (nonlinear_arith);
                lemma_nearest_positive(num@ * ((a * b) as nat), den@);
            }
            let (p, q) = nearest_double(product, den);
            Some(round_to_u64(&p, &q))
        },
    }
}

// -------------------------------------------------- sizes that are read back

/// Nothing but digits.
pub open spec fn all_digits(s: Seq<char>) -> bool {
    forall|i: int| 0 <= i < s.len() ==> is_ascii_digit(#[trigger] s[i])
}

/// What is written in decimal is read back.
proof fn lemma_decimal_reading(n: nat)
    ensures
        decimal(n).len() >= 1,
        all_digits(decimal(n)),
        reading(decimal(n)).value == n,
        reading(decimal(n)).digits >= 1,
        reading(decimal(n)).places == 0,
        reading(decimal(n)).separators == 0,
    decreases n,
{
    let s = decimal(n);
    if n < 10 {
        assert(s.drop_last() =~= Seq::<char>::empty());
        assert(reading(s.drop_last()).digits == 0);
    } else {
        lemma_decimal_reading(n / 10);
        assert(s.drop_last() =~= decimal(n / 10));
        assert forall|i: int| 0 <= i < s.len() implies is_ascii_digit(#[trigger] s[i]) by {
            if i < s.len() - 1 {
                assert(s[i] == decimal(n / 10)[i]);
            }
        }
    }
}

/// Digits behind a number add no separator.
proof fn lemma_more_digits(s: Seq<char>, more: Seq<char>)
    requires
        all_digits(more),
    ensures
        reading(s + more).separators == reading(s).separators,
        reading(s + more).digits >= reading(s).digits,
    decreases more.len(),
{
    let all = s + more;
    if more.len() == 0 {
        assert(all =~= s);
    } else {
        lemma_more_digits(s, more.drop_last());
        assert(all.drop_last() =~= s + more.drop_last());
        assert(all.last() == more.last());
    }
}

/// A number ends where something else begins.
proof fn lemma_number_ends(number: Seq<char>, rest: Seq<char>)
    requires
        forall|i: int| 0 <= i < number.len() ==> is_number_char(#[trigger] number[i]),
        rest.len() > 0 ==> !is_number_char(rest[0]),
    ensures
        number_len(number + rest) == number.len(),
    decreases number.len(),
{
    let all = number + rest;
    if number.len() > 0 {
        lemma_number_ends(number.skip(1), rest);
        assert(all.skip(1) =~= number.skip(1) + rest);
        assert(all[0] == number[0]);
    } else {
        assert(all =~= rest);
    }
}

/// Every unit that sizes are shown in is known.
proof fn lemma_unit_known(unit: nat)
    ensures
        unit_name(unit).len() > 0,
        !is_space(unit_name(unit)[0]),
        unit_name(unit).last() == 'B',
        unit_bytes(ascii_lowercase(unit_name(unit))) is Some,
        unit == 0 ==> unit_bytes(ascii_lowercase(unit_name(unit))) == Some(1nat),
        unit <= 5 ==> unit_bytes(ascii_lowercase(unit_name(unit))) == Some(thousands(unit)),
{
    assert(thousands(0) == 1);
    assert(thousands(1) == 1_000);
    assert(thousands(2) == 1_000_000);
    assert(thousands(3) == 1_000_000_000);
    assert(thousands(4) == 1_000_000_000_000);
    assert(thousands(5) == 1_000_000_000_000_000);
    reveal_strlit("");
    reveal_strlit("bytes");
    reveal_strlit("k");
    reveal_strlit("m");
    reveal_strlit("g");
    reveal_strlit("t");
    reveal_strlit("B");
    reveal_strlit("kB");
    reveal_strlit("MB");
    reveal_strlit("GB");
    reveal_strlit("TB");
    reveal_strlit("PB");
    reveal_strlit("b");
    reveal_strlit("kb");
    reveal_strlit("mb");
    reveal_strlit("gb");
    reveal_strlit("tb");
    reveal_strlit("pb");
    let lower = ascii_lowercase(unit_name(unit));
    if unit == 0 {
        assert(lower =~= "b"@);
    } else if unit == 1 {
        assert(lower =~= "kb"@);
    } else if unit == 2 {
        assert(lower =~= "mb"@);
        assert("mb"@[0] != "kb"@[0]);
    } else if unit == 3 {
        assert(lower =~= "gb"@);
        assert("gb"@[0] != "kb"@[0] && "gb"@[0] != "mb"@[0]);
    } else if unit == 4 {
        assert(lower =~= "tb"@);
        assert("tb"@[0] != "kb"@[0] && "tb"@[0] != "mb"@[0] && "tb"@[0] != "gb"@[0]);
    } else {
        assert(lower =~= "pb"@);
        assert("pb"@[0] != "kb"@[0] && "pb"@[0] != "mb"@[0]);
        assert("pb"@[0] != "gb"@[0] && "pb"@[0] != "tb"@[0]);
    }
}

/// A number, a space and a unit are read as that number of that unit.
proof fn lemma_number_and_unit(number: Seq<char>, unit: nat)
    requires
        number.len() > 0,
        forall|i: int| 0 <= i < number.len() ==> is_number_char(#[trigger] number[i]),
        reading(number).digits > 0,
        reading(number).separators <= 1,
    ensures
        ({
            let bytes = unit_bytes(ascii_lowercase(unit_name(unit)))->0;
            parsed_size(number + " "@ + unit_name(unit)) == Some(
                bytes_in(reading(number).value, reading(number).places, bytes),
            )
        }),
{
    reveal_strlit(" ");
    lemma_unit_known(unit);
    let name = unit_name(unit);
    let rest = " "@ + name;
    let text = number + " "@ + name;
    assert(text =~= number + rest);
    assert(!is_space(text[0])) by {
        assert(text[0] == number[0]);
        assert(is_number_char(number[0]));
    }
    assert(text.last() == 'B');
    lemma_trim_plain(text);
    lemma_number_ends(number, rest);
    assert(text.take(number.len() as int) =~= number);
    assert(text.skip(number.len() as int) =~= rest);
    assert(trim(rest) == name) by {
        assert(rest.skip(1) =~= name);
        assert(trim_start(rest) == trim_start(name));
        assert(trim_start(name) == name);
        assert(trim_end(name) == name);
    }
}

/// A whole number of bytes is that number of bytes.
proof fn lemma_whole_bytes(n: nat)
    requires
        n < 1000,
    ensures
        bytes_in(n, 0, 1) == n,
{
    let one = ONE as nat;
    assert(power_of_ten(0) == 1);
    if n == 0 {
        assert(nearest(0, 1) == (0nat, 1nat));
        assert(half_up(0, 1) == 0);
    } else {
        lemma_whole_numbers_are_doubles(n);
        lemma_nearest_scale(n, 1, one);
        assert(nearest(n * one, one) == (n * one, one));
        assert(n * one * 1 == n * one);
        vstd::arithmetic::div_mod::lemma_div_multiples_vanish(n as int, one as int);
        vstd::arithmetic::div_mod::lemma_mod_multiples_basic(n as int, one as int);
        assert(half_up(n * one, one) == n) by {
            assert((n * one) / one == n) by (nonlinear_arith)
                requires
                    one > 0,
            ;
        }
    }
}

/// A power of 1000.
spec fn thousands(n: nat) -> nat
    decreases n,
{
    if n == 0 {
        1
    } else {
        1000 * thousands((n - 1) as nat)
    }
}

/// Scaling keeps the value close to what it was.
proof fn lemma_scaled_close(bytes: nat, units: nat, unit: nat)
    requires
        unit <= 5,
        ONE <= units,
        units * thousands(unit) - bytes * ONE <= (unit + 1) * bytes,
        bytes * ONE - units * thousands(unit) <= (unit + 1) * bytes,
    ensures
        ({
            let (value, n) = scaled(units, unit);
            &&& n <= 5
            &&& ONE <= value
            &&& value * thousands(n) - bytes * ONE <= 6 * bytes
            &&& bytes * ONE - value * thousands(n) <= 6 * bytes
        }),
    decreases 5 - unit,
{
    assert((unit + 1) * bytes <= 6 * bytes) by (nonlinear_arith)
        requires
            unit <= 5,
    ;
    if units >= 1000 * ONE && unit < 5 {
        lemma_quotient_error(units, 1000);
        let next = quotient_units(units, 1000);
        let power = thousands(unit);
        let before = units * power;
        let after = next * thousands(unit + 1);
        assert(thousands(unit + 1) == 1000 * power);
        assert(after == (next * 1000) * power) by (nonlinear_arith)
            requires
                after == next * (1000 * power),
        ;
        assert(2 * ONE * (after - before) <= before) by (nonlinear_arith)
            requires
                after == (next * 1000) * power,
                before == units * power,
                2 * ONE * (next * 1000 - units) <= units,
                power >= 0,
        ;
        assert(2 * ONE * (before - after) <= before) by (nonlinear_arith)
            requires
                after == (next * 1000) * power,
                before == units * power,
                2 * ONE * (units - next * 1000) <= units,
                power >= 0,
        ;
        assert((unit + 2) * bytes == (unit + 1) * bytes + bytes) by (nonlinear_arith);
        lemma_scaled_close(bytes, next, unit + 1);
    }
}

/// Rounding something of at least ten to a whole number changes it by less than
/// one part in twenty.
proof fn lemma_rounded_close(w: nat)
    requires
        10 * ONE <= w,
    ensures
        half_even(w, ONE as nat) >= 10,
        21 * (half_even(w, ONE as nat) * ONE - w) <= w,
        21 * (w - half_even(w, ONE as nat) * ONE) <= w,
{
    lemma_half_even_error(w, ONE as nat);
}

/// A shown number, `shown / scale` of `unit` bytes, is read as close to what it
/// says.
proof fn lemma_reading_close(shown: nat, places: nat, unit: nat)
    requires
        places <= 1,
        10 <= shown,
        1 <= unit,
    ensures
        ({
            let scale = power_of_ten(places);
            let (num, den) = nearest(shown, scale);
            let (p, q) = nearest(num * unit, den);
            let read = half_up(p, q);
            &&& 2 * ONE * (read * scale - shown * unit) <= scale * ONE + 4 * (shown * unit)
            &&& 2 * ONE * (shown * unit - read * scale) <= scale * ONE + 4 * (shown * unit)
        }),
{
    reveal_with_fuel(power_of_ten, 2);
    let scale = power_of_ten(places);
    assert(scale == 1 || scale == 10);
    let one = ONE as nat;
    lemma_nearest_large(shown, scale);
    let num = nearest(shown, scale).0;
    assert(num * unit >= num) by (nonlinear_arith)
        requires
            unit >= 1,
            num >= 0,
    ;
    lemma_nearest_large(num * unit, one);
    let p = nearest(num * unit, one).0;
    let read = half_up(p, one);
    let stated = shown * unit;
    let product = num * unit;
    // Three roundings: of the number, of the product, and to a whole number.
    vstd::arithmetic::div_mod::lemma_fundamental_div_mod(p as int, one as int);
    assert(2 * (read * ONE - p) <= ONE && 2 * (p - read * ONE) <= ONE);
    assert(2 * ONE * (p - product) <= product && 2 * ONE * (product - p) <= product) by {
        assert(2 * (p * ONE - product * ONE) <= product);
        assert(2 * (product * ONE - p * ONE) <= product);
    }
    let scaled_product = scale * product;
    assert(2 * (scaled_product - stated * ONE) <= stated) by (nonlinear_arith)
        requires
            scaled_product == scale * product,
            product == num * unit,
            stated == shown * unit,
            2 * (num * scale - shown * ONE) <= shown,
            unit >= 0,
    ;
    assert(2 * (stated * ONE - scaled_product) <= stated) by (nonlinear_arith)
        requires
            scaled_product == scale * product,
            product == num * unit,
            stated == shown * unit,
            2 * (shown * ONE - num * scale) <= shown,
            unit >= 0,
    ;
    if scale == 1 {
        assert(scaled_product == product);
    } else {
        assert(scaled_product == 10 * product);
    }
}

/// Every size that is shown can be read again. One in bytes is read as what it was,
/// and any other as what it was give or take a twentieth.
pub proof fn lemma_shown_sizes_are_read(bytes: nat)
    requires
        bytes <= u64::MAX,
    ensures
        parsed_size(size_text(bytes)) matches Some(read) && 20 * (read - bytes) <= bytes && 20 * (
        bytes - read) <= bytes,
        bytes < 1000 ==> parsed_size(size_text(bytes)) == Some(bytes as u64),
{
    if bytes < 1000 {
        lemma_decimal_reading(bytes);
        assert forall|i: int| 0 <= i < decimal(bytes).len() implies is_number_char(
            #[trigger] decimal(bytes)[i],
        ) by {
            assert(is_ascii_digit(decimal(bytes)[i]));
        }
        lemma_number_and_unit(decimal(bytes), 0);
        lemma_unit_known(0);
        lemma_whole_bytes(bytes);
    } else {
        let whole_units = (bytes * ONE) as nat;
        let start = quotient_units(whole_units, 1);
        lemma_quotient_error(whole_units, 1);
        assert(thousands(0) == 1);
        assert(start * 1 == start && start * thousands(0) == start);
        assert(2 * (start - whole_units) <= bytes && 2 * (whole_units - start) <= bytes) by (
        nonlinear_arith)
            requires
                2 * ONE * (start - whole_units) <= whole_units,
                2 * ONE * (whole_units - start) <= whole_units,
                whole_units == bytes * ONE,
                ONE > 0,
        ;
        assert((0nat + 1) * bytes == bytes) by (nonlinear_arith);
        lemma_scaled_close(bytes, start, 0);
        let (value, unit) = scaled(start, 0);
        lemma_unit_known(unit);
        lemma_thousands_positive(unit);
        if value < 10 * ONE {
            let tenths = half_even(10 * value, ONE as nat);
            lemma_rounded_close(10 * value);
            reveal_with_fuel(power_of_ten, 2);
            assert(power_of_ten(1) * value == 10 * value);
            lemma_tenths_reading(tenths);
            let number = decimal(tenths / 10) + "."@ + decimal(tenths % 10);
            lemma_number_and_unit(number, unit);
            lemma_reading_close(tenths, 1, thousands(unit));
            lemma_within_a_twentieth(bytes, value, tenths, 1, thousands(unit));
        } else {
            let rounded = half_even(value, ONE as nat);
            let number = decimal(rounded);
            lemma_rounded_close(value);
            lemma_decimal_reading(rounded);
            assert forall|i: int| 0 <= i < number.len() implies is_number_char(
                #[trigger] number[i],
            ) by {
                assert(is_ascii_digit(number[i]));
            }
            lemma_number_and_unit(number, unit);
            lemma_reading_close(rounded, 0, thousands(unit));
            lemma_within_a_twentieth(bytes, value, rounded, 0, thousands(unit));
        }
    }
}

proof fn lemma_thousands_positive(n: nat)
    ensures
        thousands(n) >= 1,
    decreases n,
{
    if n > 0 {
        lemma_thousands_positive((n - 1) as nat);
    }
}

/// A number of tenths is read as that.
proof fn lemma_tenths_reading(tenths: nat)
    ensures
        ({
            let number = decimal(tenths / 10) + "."@ + decimal(tenths % 10);
            &&& number.len() > 0
            &&& forall|i: int| 0 <= i < number.len() ==> is_number_char(#[trigger] number[i])
            &&& reading(number).digits >= 1
            &&& reading(number).separators == 1
            &&& reading(number).value == tenths
            &&& reading(number).places == 1
        }),
{
    let whole = decimal(tenths / 10);
    let part = decimal(tenths % 10);
    let number = whole + "."@ + part;
    reveal_strlit(".");
    lemma_decimal_reading(tenths / 10);
    lemma_decimal_reading(tenths % 10);
    let pointed = whole + "."@;
    assert(pointed.drop_last() =~= whole);
    assert(pointed.last() == '.');
    lemma_more_digits(pointed, part);
    assert(part =~= seq![crate::text::digit((tenths % 10) as int)]);
    assert(number.drop_last() =~= pointed);
    assert(number.last() == crate::text::digit((tenths % 10) as int));
    assert forall|i: int| 0 <= i < number.len() implies is_number_char(#[trigger] number[i]) by {
        if i < whole.len() {
            assert(number[i] == whole[i]);
        } else if i > whole.len() {
            assert(number[i] == part[i - whole.len() - 1]);
        }
    }
}

/// The roundings of showing a size and reading it make less than a twentieth.
proof fn lemma_within_a_twentieth(bytes: nat, value: nat, shown: nat, places: nat, unit: nat)
    requires
        1000 <= bytes <= u64::MAX,
        places <= 1,
        10 <= shown,
        1 <= unit,
        value * unit - bytes * ONE <= 6 * bytes,
        bytes * ONE - value * unit <= 6 * bytes,
        21 * (shown * ONE - power_of_ten(places) * value) <= power_of_ten(places) * value,
        21 * (power_of_ten(places) * value - shown * ONE) <= power_of_ten(places) * value,
    ensures
        20 * (bytes_in(shown, places, unit) - bytes) <= bytes,
        20 * (bytes - bytes_in(shown, places, unit)) <= bytes,
{
    lemma_reading_close(shown, places, unit);
    reveal_with_fuel(power_of_ten, 2);
    let scale = power_of_ten(places);
    assert(scale == 1 || scale == 10);
    let (num, den) = nearest(shown, scale);
    let (p, q) = nearest(num * unit, den);
    let read = half_up(p, q);
    let stated = shown * unit;
    let exact = value * unit;
    assert(21 * (stated * ONE - scale * exact) <= scale * exact) by (nonlinear_arith)
        requires
            stated == shown * unit,
            exact == value * unit,
            21 * (shown * ONE - scale * value) <= scale * value,
            unit >= 0,
    ;
    assert(21 * (scale * exact - stated * ONE) <= scale * exact) by (nonlinear_arith)
        requires
            stated == shown * unit,
            exact == value * unit,
            21 * (scale * value - shown * ONE) <= scale * value,
            unit >= 0,
    ;
    let all = scale * bytes;
    assert(scale * exact - all * ONE <= 6 * all && all * ONE - scale * exact <= 6 * all) by (
    nonlinear_arith)
        requires
            all == scale * bytes,
            exact - bytes * ONE <= 6 * bytes,
            bytes * ONE - exact <= 6 * bytes,
            scale >= 1,
    ;
    assert(1000 * scale <= all) by (nonlinear_arith)
        requires
            all == scale * bytes,
            bytes >= 1000,
            scale >= 0,
    ;
    lemma_sum_of_errors(all, scale * exact, stated, read * scale, scale);
    assert(read * scale - all == scale * (read - bytes)) by (nonlinear_arith)
        requires
            all == scale * bytes,
    ;
    assert(20 * (read - bytes) <= bytes && 20 * (bytes - read) <= bytes) by (nonlinear_arith)
        requires
            read * scale - all == scale * (read - bytes),
            all == scale * bytes,
            20 * (read * scale - all) <= all,
            20 * (all - read * scale) <= all,
            scale >= 1,
    ;
}

/// Each rounding in turn: of the value, of what is shown, and of what is read.
proof fn lemma_sum_of_errors(all: nat, exact: nat, stated: nat, read: nat, scale: nat)
    requires
        1 <= scale,
        1000 * scale <= all,
        exact - all * ONE <= 6 * all,
        all * ONE - exact <= 6 * all,
        21 * (stated * ONE - exact) <= exact,
        21 * (exact - stated * ONE) <= exact,
        2 * ONE * (read - stated) <= scale * ONE + 4 * stated,
        2 * ONE * (stated - read) <= scale * ONE + 4 * stated,
    ensures
        20 * (read - all) <= all,
        20 * (all - read) <= all,
{
    assert(2099 * (stated - all) <= 100 * all && 2099 * (all - stated) <= 100 * all);
    let up = read - stated;
    assert(2 * ONE * up == 2 * (ONE * up) && 2 * ONE * (-up) == -2 * (ONE * up)) by (
    nonlinear_arith);
    assert(stated - read == -up);
    assert(2000 * up <= 1001 * scale + stated && -2000 * up <= 1001 * scale + stated);
}

// --------------------------------------------------------- application IDs

pub open spec fn is_id_char(c: char) -> bool {
    is_ascii_alphanumeric(c) || c == '.' || c == '-' || c == '_'
}

/// The shape of an application ID.
pub open spec fn valid_app_id(id: Seq<char>) -> bool {
    &&& 0 < id.len() <= 255
    &&& id[0] != '.'
    &&& id[0] != '-'
    &&& forall|i: int| 0 <= i < id.len() ==> is_id_char(#[trigger] id[i])
}

/// Returns true if `id` is shaped like a Flatpak application ID.
///
/// This is deliberately strict: the ID is used to build filesystem paths both
/// when writing an archive and when extracting one, so anything that could
/// escape a directory (separators, `.`, `..`, empty strings) is rejected.
pub fn is_valid_app_id(id: &str) -> (yes: bool)
    ensures
        yes == valid_app_id(id@),
{
    let chars = chars_of(id);
    if chars.len() == 0 || chars.len() > 255 || chars[0] == '.' || chars[0] == '-' {
        return false;
    }
    all_id_chars(&chars)
}

/// True if every one of `chars` may stand in an application ID.
pub fn all_id_chars(chars: &[char]) -> (yes: bool)
    ensures
        yes == (forall|i: int| 0 <= i < chars@.len() ==> is_id_char(#[trigger] chars@[i])),
{
    let mut i: usize = 0;
    while i < chars.len()
        invariant
            i <= chars.len(),
            forall|k: int| 0 <= k < i ==> is_id_char(#[trigger] chars@[k]),
        decreases chars.len() - i,
    {
        let c = chars[i];
        if !(ascii_alphanumeric(c) || c == '.' || c == '-' || c == '_') {
            assert(!is_id_char(chars@[i as int]));
            return false;
        }
        i = i + 1;
    }
    true
}

pub proof fn lemma_id_chars_are_ascii(s: Seq<char>)
    requires
        forall|i: int| 0 <= i < s.len() ==> is_id_char(#[trigger] s[i]),
    ensures
        is_ascii_chars(s),
{
    assert forall|i: int| 0 <= i < s.len() implies '\0' <= #[trigger] s[i] <= '\u{7f}' by {
        assert(is_id_char(s[i]));
    }
}

/// A valid application ID is one plain path component: it names an entry of a
/// directory and nothing above or below it.
pub proof fn lemma_app_id_is_plain_name(id: Seq<char>)
    requires
        valid_app_id(id),
    ensures
        is_plain_name(encode_utf8(id)),
        parts(encode_utf8(id)) == seq![Part::Name(encode_utf8(id))],
{
    let bytes = encode_utf8(id);
    lemma_id_chars_are_ascii(id);
    is_ascii_chars_encode_utf8(id);
    assert forall|i: int| 0 <= i < bytes.len() implies bytes[i] != crate::path::SLASH by {
        assert(is_id_char(id[i]));
        assert(id[i] as u8 == bytes[i]);
    }
    assert(id[0] as u8 == bytes[0]);
    assert(bytes[0] != crate::path::DOT);
    assert(crate::path::one_dot()[0] == crate::path::DOT);
    assert(crate::path::two_dots()[0] == crate::path::DOT);
    crate::path::lemma_plain_name_parts(bytes);
}

// ------------------------------------------------------------ path safety

/// Why an archive entry path is refused.
#[derive(Debug, Clone, Copy, PartialEq, Eq, Structural)]
pub enum PathError {
    /// A component is not text.
    Suspicious,
    /// A component leads upwards.
    Escapes,
    /// The path starts at the root.
    Absolute,
    /// The path names nothing.
    Empty,
}

pub open spec fn path_error_text(error: PathError) -> Seq<char> {
    match error {
        PathError::Suspicious => "archive entry has a suspicious path component"@,
        PathError::Escapes => "archive entry path escapes the destination directory"@,
        PathError::Absolute => "archive entry path is absolute"@,
        PathError::Empty => "archive entry path is empty"@,
    }
}

impl PathError {
    /// What to tell the user.
    pub fn message(&self) -> (out: String)
        ensures
            out@ == path_error_text(*self),
    {
        match self {
            PathError::Suspicious => "archive entry has a suspicious path component".to_owned(),
            PathError::Escapes =>
                "archive entry path escapes the destination directory".to_owned(),
            PathError::Absolute => "archive entry path is absolute".to_owned(),
            PathError::Empty => "archive entry path is empty".to_owned(),
        }
    }
}

/// The names among `ps`, in order.
pub open spec fn names_in(ps: Seq<Part>) -> Seq<Seq<u8>>
    decreases ps.len(),
{
    if ps.len() == 0 {
        Seq::empty()
    } else {
        match ps.last() {
            Part::Name(name) => names_in(ps.drop_last()).push(name),
            _ => names_in(ps.drop_last()),
        }
    }
}

/// What is wrong with the first unacceptable one of `ps`, if any is.
pub open spec fn first_fault(ps: Seq<Part>) -> Option<PathError>
    decreases ps.len(),
{
    if ps.len() == 0 {
        None
    } else {
        match first_fault(ps.drop_last()) {
            Some(fault) => Some(fault),
            None => match ps.last() {
                Part::Name(name) => if valid_utf8(name) {
                    None
                } else {
                    Some(PathError::Suspicious)
                },
                Part::Cur => None,
                Part::Up => Some(PathError::Escapes),
                Part::Root => Some(PathError::Absolute),
            },
        }
    }
}

/// `base` with the names of `relative` behind it, unless `relative` is refused.
pub open spec fn joined_safely(base: Seq<u8>, relative: Seq<u8>) -> Result<Seq<u8>, PathError> {
    let ps = parts(relative);
    match first_fault(ps) {
        Some(fault) => Err(fault),
        None => if names_in(ps).len() == 0 {
            Err(PathError::Empty)
        } else {
            Ok(join_all(base, names_in(ps)))
        },
    }
}

proof fn lemma_first_fault_prefix(ps: Seq<Part>, n: int)
    requires
        0 <= n <= ps.len(),
        first_fault(ps.take(n)) is Some,
    ensures
        first_fault(ps) == first_fault(ps.take(n)),
    decreases ps.len(),
{
    if n == ps.len() {
        assert(ps.take(n) =~= ps);
    } else {
        assert(ps.drop_last().take(n) =~= ps.take(n));
        lemma_first_fault_prefix(ps.drop_last(), n);
    }
}

/// Joins `relative` onto `base`, rejecting anything that would escape `base`.
///
/// Archive entry paths are untrusted input, so this refuses absolute paths,
/// `..` traversal and root components rather than normalising them away. The
/// check is lexical, which is sufficient because the caller creates every
/// intermediate directory itself and never follows a symlink out of the
/// destination tree: no link that an extraction wrote leads there.
pub fn safe_join(base: &[u8], relative: &[u8]) -> (out: Result<Vec<u8>, PathError>)
    ensures
        out matches Ok(path) ==> joined_safely(base@, relative@) == Ok::<Seq<u8>, PathError>(path@),
        out matches Err(error) ==> joined_safely(base@, relative@) == Err::<Seq<u8>, PathError>(
            error,
        ),
{
    let mut out: Vec<u8> = crate::path::bytes_of(base);
    let mut found: bool = false;
    let all = components(relative);
    let ghost ps = parts(relative@);
    let mut i: usize = 0;
    assert(ps.take(0) =~= Seq::<Part>::empty());
    while i < all.len()
        invariant
            i <= all@.len(),
            views(all@) == ps,
            ps == parts(relative@),
            first_fault(ps.take(i as int)) is None,
            out@ == join_all(base@, names_in(ps.take(i as int))),
            found <==> names_in(ps.take(i as int)).len() > 0,
        decreases all.len() - i,
    {
        proof {
            assert(ps.take(i + 1).drop_last() =~= ps.take(i as int));
            assert(ps.take(i + 1).last() == ps[i as int]);
            assert(ps[i as int] == all@[i as int]@);
        }
        match &all[i] {
            Component::Normal(name) => {
                if text_from_utf8(crate::path::bytes_of(name)).is_none() {
                    proof {
                        lemma_first_fault_prefix(ps, i + 1);
                    }
                    return Err(PathError::Suspicious);
                }
                out = join(&out, name);
                found = true;
                proof {
                    let names = names_in(ps.take(i + 1));
                    assert(names.drop_last() =~= names_in(ps.take(i as int)));
                }
            },
            Component::CurDir => {},
            Component::ParentDir => {
                proof {
                    lemma_first_fault_prefix(ps, i + 1);
                }
                return Err(PathError::Escapes);
            },
            Component::RootDir => {
                proof {
                    lemma_first_fault_prefix(ps, i + 1);
                }
                return Err(PathError::Absolute);
            },
        }
        i = i + 1;
    }
    assert(ps.take(ps.len() as int) =~= ps);
    if !found {
        return Err(PathError::Empty);
    }
    Ok(out)
}

pub proof fn lemma_names_plain(ps: Seq<Part>)
    requires
        forall|i: int|
            #![trigger ps[i]]
            0 <= i < ps.len() ==> (ps[i] matches Part::Name(name) ==> is_plain_name(name)),
    ensures
        forall|i: int| 0 <= i < names_in(ps).len() ==> is_plain_name(#[trigger] names_in(ps)[i]),
    decreases ps.len(),
{
    if ps.len() > 0 {
        let rest = ps.drop_last();
        assert forall|i: int|
            #![trigger rest[i]]
            0 <= i < rest.len() implies (rest[i] matches Part::Name(name) ==> is_plain_name(
            name,
        )) by {
            assert(rest[i] == ps[i]);
        }
        lemma_names_plain(rest);
        let last = ps[ps.len() - 1];
        assert(ps.last() == last);
        let earlier = names_in(rest);
        assert forall|i: int| 0 <= i < names_in(ps).len() implies is_plain_name(
            #[trigger] names_in(ps)[i],
        ) by {
            if i < earlier.len() {
                assert(names_in(ps)[i] == earlier[i]);
            } else {
                assert(last is Name);
            }
        }
    }
}

/// What a safe join gives lies below `base`: its components are those of `base`
/// followed by one or more names.
pub proof fn lemma_safe_join_stays_below(base: Seq<u8>, relative: Seq<u8>)
    requires
        joined_safely(base, relative) is Ok,
    ensures
        ({
            let out = joined_safely(base, relative)->Ok_0;
            let names = names_in(parts(relative));
            &&& names.len() > 0
            &&& parts(out) == parts(base) + name_parts(names)
            &&& forall|i: int| 0 <= i < names.len() ==> is_plain_name(#[trigger] names[i])
        }),
{
    lemma_parts_canonical(relative);
    let ps = parts(relative);
    assert forall|i: int| #![trigger ps[i]] 0 <= i < ps.len() implies (ps[i] matches Part::Name(
        name,
    ) ==> is_plain_name(name)) by {}
    lemma_names_plain(ps);
    lemma_join_all(base, names_in(ps));
}

/// How deep below the root `ps` lead when followed from `depth` levels down, or
/// `None` when they climb above the root or start at the file system's.
pub open spec fn depth_after(depth: nat, ps: Seq<Part>) -> Option<nat>
    decreases ps.len(),
{
    if ps.len() == 0 {
        Some(depth)
    } else {
        match depth_after(depth, ps.drop_last()) {
            None => None,
            Some(reached) => match ps.last() {
                Part::Name(_) => Some(reached + 1),
                Part::Cur => Some(reached),
                Part::Up => if reached > 0 {
                    Some((reached - 1) as nat)
                } else {
                    None
                },
                Part::Root => None,
            },
        }
    }
}

/// Whether a link `depth` levels down may point at `target`.
pub open spec fn target_contained(depth: nat, target: Seq<u8>) -> bool {
    target.len() > 0 && depth_after(depth, parts(target)) is Some
}

proof fn lemma_depth_after_prefix(depth: nat, ps: Seq<Part>, n: int)
    requires
        0 <= n <= ps.len(),
        depth_after(depth, ps.take(n)) is None,
    ensures
        depth_after(depth, ps) is None,
    decreases ps.len(),
{
    if n == ps.len() {
        assert(ps.take(n) =~= ps);
    } else {
        assert(ps.drop_last().take(n) =~= ps.take(n));
        lemma_depth_after_prefix(depth, ps.drop_last(), n);
    }
}

/// Validates a symlink target stored in an archive.
///
/// Symlinks are preserved because application data legitimately contains them,
/// but only when they resolve to somewhere inside the directory being restored.
/// `link_depth` is how many directory levels separate the link's own directory
/// from the application data root, so `0` means the link sits directly in
/// `~/.var/app/<id>/`. That depth is what a leading `..` is allowed to consume:
/// `config/theme -> ../data/theme` is fine, while `config/theme -> ../../..`
/// is not.
///
/// The check is lexical: it follows the target from the link's own directory by the
/// names alone, and is applied to *every* symlink written. A link that was written
/// before can still make a name lead elsewhere, so an extraction also follows targets
/// through the links it wrote: a link that cannot climb above the root cannot be used
/// as a stepping stone by a later entry either.
pub fn symlink_target_is_contained(link_depth: usize, target: &[u8]) -> (yes: bool)
    ensures
        yes == target_contained(link_depth as nat, target@),
{
    if target.len() == 0 {
        return false;
    }
    let all = components(target);
    let ghost ps = parts(target@);
    let mut depth: u128 = link_depth as u128;
    let mut i: usize = 0;
    assert(ps.take(0) =~= Seq::<Part>::empty());
    while i < all.len()
        invariant
            i <= all@.len(),
            views(all@) == ps,
            ps == parts(target@),
            depth <= link_depth + i,
            depth_after(link_depth as nat, ps.take(i as int)) == Some(depth as nat),
        decreases all.len() - i,
    {
        proof {
            assert(ps.take(i + 1).drop_last() =~= ps.take(i as int));
            assert(ps.take(i + 1).last() == ps[i as int]);
            assert(ps[i as int] == all@[i as int]@);
        }
        match &all[i] {
            Component::Normal(_) => {
                depth = depth + 1;
            },
            Component::CurDir => {},
            Component::ParentDir => {
                if depth == 0 {
                    proof {
                        lemma_depth_after_prefix(link_depth as nat, ps, i + 1);
                    }
                    return false;
                }
                depth = depth - 1;
            },
            Component::RootDir => {
                proof {
                    lemma_depth_after_prefix(link_depth as nat, ps, i + 1);
                }
                return false;
            },
        }
        i = i + 1;
    }
    assert(ps.take(ps.len() as int) =~= ps);
    true
}

proof fn lemma_depth_after_is_walk(dir: Seq<Seq<u8>>, ps: Seq<Part>)
    ensures
        depth_after(dir.len(), ps) is Some <==> walk(dir, ps) is Some,
        walk(dir, ps) matches Some(reached) ==> depth_after(dir.len(), ps) == Some(reached.len()),
    decreases ps.len(),
{
    if ps.len() > 0 {
        lemma_depth_after_is_walk(dir, ps.drop_last());
    }
}

/// A target is accepted exactly when following it from the link's directory
/// never climbs above the root, whatever that directory is called.
pub proof fn lemma_contained_targets_stay_inside(dir: Seq<Seq<u8>>, target: Seq<u8>)
    ensures
        target_contained(dir.len(), target) <==> target.len() > 0 && walk(
            dir,
            parts(target),
        ) is Some,
{
    lemma_depth_after_is_walk(dir, parts(target));
}

/// How many components sit above the last one.
pub open spec fn depth_of(relative: Seq<u8>) -> nat {
    let ps = parts(relative);
    if ps.len() == 0 || ps.last() == Part::Root {
        0
    } else {
        (ps.len() - 1) as nat
    }
}

/// How many directory levels sit above `relative`'s final component.
///
/// `config/prefs.js` is at depth 1, a name directly in the root is at depth 0.
pub fn parent_depth(relative: &[u8]) -> (depth: usize)
    ensures
        depth == depth_of(relative@),
{
    let all = components(relative);
    let n: usize = all.len();
    if n == 0 {
        return 0;
    }
    assert(parts(relative@).last() == all@[n - 1]@);
    match &all[n - 1] {
        Component::RootDir => 0,
        _ => n - 1,
    }
}

// ------------------------------------------------------------- extensions

/// `b` in lower case if it is an ASCII letter, else `b`.
pub open spec fn lower_byte(b: u8) -> u8 {
    if 65 <= b <= 90 {
        (b + 32) as u8
    } else {
        b
    }
}

pub open spec fn backup_suffix() -> Seq<u8> {
    encode_utf8("."@ + crate::config::BACKUP_EXTENSION@)
}

/// True if `name` has something before its suffix, which is that of a backup in
/// upper or lower case.
pub open spec fn has_backup_extension(name: Seq<u8>) -> bool {
    let suffix = backup_suffix();
    &&& name.len() > suffix.len()
    &&& forall|i: int|
        0 <= i < suffix.len() ==> lower_byte(name[name.len() - suffix.len() + i]) == lower_byte(
            #[trigger] suffix[i],
        )
}

/// The components of `path` once it carries the backup extension.
pub open spec fn extended_parts(path: Seq<u8>) -> Seq<Part> {
    match last_name(path) {
        Some(name) => if has_backup_extension(name) {
            parts(path)
        } else {
            suffixed_parts(path, backup_suffix())
        },
        None => suffixed_parts(path, backup_suffix()),
    }
}

fn lower(b: u8) -> (out: u8)
    ensures
        out == lower_byte(b),
{
    if 65 <= b && b <= 90 {
        b + 32
    } else {
        b
    }
}

fn carries_extension(name: &[u8], suffix: &[u8]) -> (yes: bool)
    requires
        suffix@ == backup_suffix(),
    ensures
        yes == has_backup_extension(name@),
{
    if name.len() <= suffix.len() {
        return false;
    }
    let start: usize = name.len() - suffix.len();
    let mut i: usize = 0;
    while i < suffix.len()
        invariant
            i <= suffix.len(),
            start + suffix@.len() == name@.len(),
            name@.len() <= usize::MAX,
            suffix@ == backup_suffix(),
            forall|k: int|
                0 <= k < i ==> lower_byte(name@[start + k]) == lower_byte(#[trigger] suffix@[k]),
        decreases suffix.len() - i,
    {
        if lower(name[start + i]) != lower(suffix[i]) {
            assert(lower_byte(name@[name@.len() - suffix@.len() + i]) != lower_byte(
                suffix@[i as int],
            ));
            return false;
        }
        i = i + 1;
    }
    true
}

/// The suffix is a name of its own.
proof fn lemma_backup_suffix()
    ensures
        is_plain_name(backup_suffix()),
{
    reveal_strlit(".");
    reveal_strlit("flatbak");
    let text = "."@ + crate::config::BACKUP_EXTENSION@;
    assert(text.len() == 8);
    assert(is_ascii_chars(text));
    is_ascii_chars_encode_utf8(text);
    let suffix = backup_suffix();
    assert(suffix.len() == 8);
    assert forall|i: int| 0 <= i < 8 implies suffix[i] != crate::path::SLASH by {
        assert(text[i] as u8 == suffix[i]);
    }
    assert(crate::path::one_dot().len() == 1);
    assert(crate::path::two_dots().len() == 2);
}

/// Ensures `path` carries the `.flatbak` extension.
pub fn with_backup_extension(path: Vec<u8>) -> (out: Vec<u8>)
    ensures
        parts(out@) == extended_parts(path@),
        (last_name(path@) matches Some(name) && has_backup_extension(name)) ==> out@ == path@,
{
    let text = cat2(".", crate::config::BACKUP_EXTENSION);
    let suffix = text.as_str().as_bytes();
    proof {
        lemma_backup_suffix();
    }
    if let Some(name) = crate::path::file_name(&path) {
        if carries_extension(&name, suffix) {
            return path;
        }
    }
    with_name_suffix(&path, suffix)
}

/// Adding the extension a second time changes nothing, for a path that ends in
/// a name.
pub proof fn lemma_extension_is_kept(path: Seq<u8>, extended: Seq<u8>)
    requires
        last_name(path) is Some,
        parts(extended) == extended_parts(path),
    ensures
        extended_parts(extended) == parts(extended),
{
    let name = last_name(path)->0;
    lemma_parts_canonical(path);
    assert(is_plain_name(name));
    if !has_backup_extension(name) {
        let suffix = backup_suffix();
        let whole = name + suffix;
        lemma_backup_suffix();
        assert(last_name(extended) == Some(whole));
        assert forall|i: int| 0 <= i < suffix.len() implies lower_byte(
            whole[whole.len() - suffix.len() + i],
        ) == lower_byte(#[trigger] suffix[i]) by {}
        assert(has_backup_extension(whole));
    }
}

// --------------------------------------------------------------------- laws

/// An application ID is made of ASCII letters, digits and `.`, `_`, `-`, begins with
/// neither a dot nor a dash, and has from 1 to 255 characters.
pub proof fn lemma_valid_app_ids(id: Seq<char>)
    ensures
        valid_app_id(id) <==> {
            &&& 1 <= id.len() <= 255
            &&& id[0] != '.'
            &&& id[0] != '-'
            &&& forall|i: int|
                0 <= i < id.len() ==> {
                    ||| 'a' <= #[trigger] id[i] <= 'z'
                    ||| 'A' <= id[i] <= 'Z'
                    ||| '0' <= id[i] <= '9'
                    ||| id[i] == '.'
                    ||| id[i] == '_'
                    ||| id[i] == '-'
                }
        },
{
    if valid_app_id(id) {
        assert forall|i: int| 0 <= i < id.len() implies {
            ||| 'a' <= #[trigger] id[i] <= 'z'
            ||| 'A' <= id[i] <= 'Z'
            ||| '0' <= id[i] <= '9'
            ||| id[i] == '.'
            ||| id[i] == '_'
            ||| id[i] == '-'
        } by {
            assert(is_id_char(id[i]));
        }
    }
}

/// A path is refused for the first of its components that is at fault: one that leads
/// up, one that starts at the root, or one that is not text.
pub proof fn lemma_first_fault_counts(ps: Seq<Part>, k: int)
    requires
        0 <= k < ps.len(),
        forall|i: int|
            0 <= i < k ==> (#[trigger] ps[i] is Cur || (ps[i] is Name && valid_utf8(
                ps[i]->Name_0,
            ))),
    ensures
        ps[k] is Up ==> first_fault(ps) == Some(PathError::Escapes),
        ps[k] is Root ==> first_fault(ps) == Some(PathError::Absolute),
        ps[k] is Name && !valid_utf8(ps[k]->Name_0) ==> first_fault(ps) == Some(
            PathError::Suspicious,
        ),
        k == ps.len() - 1 && (ps[k] is Cur || (ps[k] is Name && valid_utf8(ps[k]->Name_0)))
            ==> first_fault(ps) is None,
    decreases ps.len(),
{
    let less = ps.drop_last();
    assert forall|i: int| 0 <= i < k && i < less.len() implies (#[trigger] less[i] is Cur || (
    less[i] is Name && valid_utf8(less[i]->Name_0))) by {
        assert(less[i] == ps[i]);
    }
    if k < less.len() {
        assert(less[k] == ps[k]);
        lemma_first_fault_counts(less, k);
    } else if k > 0 {
        assert(ps[k - 1] is Cur || (ps[k - 1] is Name && valid_utf8(ps[k - 1]->Name_0)));
        assert(less[k - 1] == ps[k - 1]);
        lemma_first_fault_counts(less, k - 1);
        assert(ps.last() == ps[k]);
    } else {
        assert(less =~= Seq::<Part>::empty());
        assert(ps.last() == ps[k]);
    }
}

/// The names in a path are its components that are names, each and in their order.
pub proof fn lemma_names_one_by_one(a: Seq<Part>, b: Seq<Part>, part: Part)
    ensures
        names_in(a + b) == names_in(a) + names_in(b),
        part matches Part::Name(name) ==> names_in(seq![part]) == seq![name],
        !(part is Name) ==> names_in(seq![part]).len() == 0,
    decreases b.len(),
{
    let one = seq![part];
    let none = Seq::<Seq<u8>>::empty();
    assert(one.drop_last() =~= Seq::<Part>::empty());
    assert(names_in(one.drop_last()) =~= none);
    assert(one.last() == part);
    if let Part::Name(name) = part {
        assert(none.push(name) =~= seq![name]);
    }
    if b.len() == 0 {
        assert(a + b =~= a);
        assert(names_in(a) + names_in(b) =~= names_in(a));
    } else {
        lemma_names_one_by_one(a, b.drop_last(), part);
        assert((a + b).drop_last() =~= a + b.drop_last());
        assert((a + b).last() == b.last());
        assert(names_in(a + b) =~= names_in(a) + names_in(b));
    }
}

/// A path whose components are all plain names is joined as it is, below its base.
pub proof fn lemma_plain_paths_are_joined(base: Seq<u8>, relative: Seq<u8>)
    requires
        parts(relative).len() > 0,
        forall|i: int|
            0 <= i < parts(relative).len() ==> (#[trigger] parts(relative)[i] is Name && valid_utf8(
                parts(relative)[i]->Name_0,
            )),
    ensures
        joined_safely(base, relative) is Ok,
        parts(joined_safely(base, relative)->Ok_0) == parts(base) + parts(relative),
{
    let ps = parts(relative);
    lemma_first_fault_counts(ps, ps.len() - 1);
    lemma_all_are_names(ps);
    lemma_safe_join_stays_below(base, relative);
}

proof fn lemma_all_are_names(ps: Seq<Part>)
    requires
        forall|i: int| 0 <= i < ps.len() ==> #[trigger] ps[i] is Name,
    ensures
        name_parts(names_in(ps)) == ps,
        names_in(ps).len() == ps.len(),
    decreases ps.len(),
{
    if ps.len() > 0 {
        let less = ps.drop_last();
        assert forall|i: int| 0 <= i < less.len() implies #[trigger] less[i] is Name by {
            assert(less[i] == ps[i]);
        }
        lemma_all_are_names(less);
        assert(ps[ps.len() - 1] is Name);
        assert forall|i: int| 0 <= i < ps.len() implies name_parts(names_in(ps))[i] == ps[i] by {
            if i < less.len() {
                assert(name_parts(names_in(less))[i] == less[i]);
                assert(names_in(ps)[i] == names_in(less)[i]);
            }
        }
    }
    assert(name_parts(names_in(ps)) =~= ps);
}

/// A number is read the same whether its decimal places follow a comma or a point.
pub proof fn lemma_comma_or_point(a: Seq<char>, b: Seq<char>)
    ensures
        reading(a.push(',') + b) == reading(a.push('.') + b),
    decreases b.len(),
{
    let x = a.push(',') + b;
    let y = a.push('.') + b;
    if b.len() == 0 {
        assert(x.drop_last() =~= a);
        assert(y.drop_last() =~= a);
    } else {
        lemma_comma_or_point(a, b.drop_last());
        assert(x.drop_last() =~= a.push(',') + b.drop_last());
        assert(y.drop_last() =~= a.push('.') + b.drop_last());
        assert(x.last() == b.last() && y.last() == b.last());
    }
}

/// Each unit is a thousand of the one before, or 1024 where its name says so. A unit
/// may be written without its `b`, and without a unit a number is one of bytes.
pub proof fn lemma_units_grow()
    ensures
        unit_bytes(""@) == Some(1nat),
        unit_bytes("b"@) == unit_bytes(""@),
        unit_bytes("bytes"@) == unit_bytes(""@),
        unit_bytes("k"@) == unit_bytes("kb"@),
        unit_bytes("m"@) == unit_bytes("mb"@),
        unit_bytes("g"@) == unit_bytes("gb"@),
        unit_bytes("t"@) == unit_bytes("tb"@),
        unit_bytes("kb"@)->Some_0 == 1000 * unit_bytes("b"@)->Some_0,
        unit_bytes("mb"@)->Some_0 == 1000 * unit_bytes("kb"@)->Some_0,
        unit_bytes("gb"@)->Some_0 == 1000 * unit_bytes("mb"@)->Some_0,
        unit_bytes("tb"@)->Some_0 == 1000 * unit_bytes("gb"@)->Some_0,
        unit_bytes("pb"@)->Some_0 == 1000 * unit_bytes("tb"@)->Some_0,
        unit_bytes("kib"@)->Some_0 == 1024 * unit_bytes("b"@)->Some_0,
        unit_bytes("mib"@)->Some_0 == 1024 * unit_bytes("kib"@)->Some_0,
        unit_bytes("gib"@)->Some_0 == 1024 * unit_bytes("mib"@)->Some_0,
        unit_bytes("tib"@)->Some_0 == 1024 * unit_bytes("gib"@)->Some_0,
{
    reveal_strlit("");
    reveal_strlit("bytes");
    reveal_strlit("k");
    reveal_strlit("m");
    reveal_strlit("g");
    reveal_strlit("t");
    reveal_strlit("b");
    reveal_strlit("kb");
    reveal_strlit("mb");
    reveal_strlit("gb");
    reveal_strlit("tb");
    reveal_strlit("pb");
    reveal_strlit("kib");
    reveal_strlit("mib");
    reveal_strlit("gib");
    reveal_strlit("tib");
    assert(""@.len() == 0 && "bytes"@.len() == 5);
    assert("b"@.len() == 1 && "b"@[0] == 'b');
    assert("k"@.len() == 1 && "k"@[0] == 'k');
    assert("m"@.len() == 1 && "m"@[0] == 'm');
    assert("g"@.len() == 1 && "g"@[0] == 'g');
    assert("t"@.len() == 1 && "t"@[0] == 't');
    assert("kb"@.len() == 2 && "kb"@[0] == 'k');
    assert("mb"@.len() == 2 && "mb"@[0] == 'm');
    assert("gb"@.len() == 2 && "gb"@[0] == 'g');
    assert("tb"@.len() == 2 && "tb"@[0] == 't');
    assert("pb"@.len() == 2 && "pb"@[0] == 'p');
    assert("kib"@.len() == 3 && "kib"@[0] == 'k');
    assert("mib"@.len() == 3 && "mib"@[0] == 'm');
    assert("gib"@.len() == 3 && "gib"@[0] == 'g');
    assert("tib"@.len() == 3 && "tib"@[0] == 't');
}

/// A whole number of a unit is just as many bytes, as long as a double holds it
/// exactly.
pub proof fn lemma_whole_sizes_are_read(n: nat, unit: Seq<char>)
    requires
        unit.len() > 0,
        !is_space(unit[0]),
        !is_space(unit.last()),
        unit_bytes(ascii_lowercase(unit)) is Some,
        unit_bytes(ascii_lowercase(unit))->Some_0 > 0,
        n < 0x20_0000_0000_0000,
        n * unit_bytes(ascii_lowercase(unit))->Some_0 < 0x20_0000_0000_0000,
    ensures
        parsed_size(decimal(n) + " "@ + unit) matches Some(read) && read == n * unit_bytes(
            ascii_lowercase(unit),
        )->Some_0,
{
    let number = decimal(n);
    let bytes = unit_bytes(ascii_lowercase(unit))->Some_0;
    lemma_decimal_reading(n);
    assert forall|i: int| 0 <= i < number.len() implies is_number_char(#[trigger] number[i]) by {
        assert(is_ascii_digit(number[i]));
    }
    reveal_strlit(" ");
    let rest = " "@ + unit;
    let text = number + " "@ + unit;
    assert(text =~= number + rest);
    assert(!is_space(text[0])) by {
        assert(text[0] == number[0]);
        assert(is_number_char(number[0]));
    }
    assert(text.last() == unit.last());
    lemma_trim_plain(text);
    lemma_number_ends(number, rest);
    assert(text.take(number.len() as int) =~= number);
    assert(text.skip(number.len() as int) =~= rest);
    assert(trim(rest) == unit) by {
        assert(rest.skip(1) =~= unit);
        assert(trim_start(rest) == trim_start(unit));
        assert(trim_start(unit) == unit);
        assert(trim_end(unit) == unit);
    }
    lemma_whole_units(n, bytes);
}

proof fn lemma_whole_units(n: nat, unit: nat)
    requires
        unit > 0,
        n < 0x20_0000_0000_0000,
        n * unit < 0x20_0000_0000_0000,
    ensures
        bytes_in(n, 0, unit) == n * unit,
{
    let one = ONE as nat;
    assert(power_of_ten(0) == 1);
    if n == 0 {
        assert(nearest(0, 1) == (0nat, 1nat));
        assert(0 * unit == 0);
        assert(half_up(0, 1) == 0);
    } else {
        let whole = n * unit;
        assert(whole > 0) by (nonlinear_arith)
            requires
                n > 0,
                unit > 0,
                whole == n * unit,
        ;
        lemma_whole_numbers_are_doubles(n);
        lemma_whole_numbers_are_doubles(whole);
        lemma_nearest_scale(whole, 1, one);
        assert(n * one * unit == whole * one) by (nonlinear_arith)
            requires
                whole == n * unit,
        ;
        assert(nearest(n * one * unit, one) == (whole * one, one));
        vstd::arithmetic::div_mod::lemma_div_multiples_vanish(whole as int, one as int);
        vstd::arithmetic::div_mod::lemma_mod_multiples_basic(whole as int, one as int);
        assert(half_up(whole * one, one) == whole) by {
            assert((whole * one) / one == whole) by (nonlinear_arith)
                requires
                    one > 0,
            ;
        }
    }
}

/// A name without the extension `.flatbak`, in whatever case, gets it; one with it stays
/// as it is.
pub proof fn lemma_extension_is_put_behind(path: Seq<u8>, name: Seq<u8>, stem: Seq<u8>)
    requires
        last_name(path) == Some(name),
        stem.len() > 0,
    ensures
        ({
            let suffix = seq![46u8, 102u8, 108u8, 97u8, 116u8, 98u8, 97u8, 107u8];
            &&& !has_backup_extension(name) ==> extended_parts(path) == parts(
                path,
            ).drop_last().push(Part::Name(name + suffix))
            &&& has_backup_extension(name) ==> extended_parts(path) == parts(path)
            &&& has_backup_extension(stem + suffix)
            &&& has_backup_extension(name) ==> name.len() > 8 && forall|i: int|
                0 <= i < 8 ==> {
                    let b = name[name.len() - 8 + i];
                    b == #[trigger] suffix[i] || b + 32 == suffix[i]
                }
        }),
{
    let suffix = seq![46u8, 102u8, 108u8, 97u8, 116u8, 98u8, 97u8, 107u8];
    reveal_strlit(".");
    reveal_strlit("flatbak");
    let text = "."@ + crate::config::BACKUP_EXTENSION@;
    assert(text =~= seq!['.', 'f', 'l', 'a', 't', 'b', 'a', 'k']);
    assert(is_ascii_chars(text));
    is_ascii_chars_encode_utf8(text);
    assert(backup_suffix().len() == 8);
    assert forall|i: int| 0 <= i < 8 implies #[trigger] backup_suffix()[i] == suffix[i] by {
        assert(text[i] as u8 == backup_suffix()[i]);
    }
    assert(backup_suffix() =~= suffix);
    assert forall|i: int| 0 <= i < 8 implies lower_byte(#[trigger] suffix[i]) == suffix[i] by {}
    let whole = stem + suffix;
    assert forall|i: int| 0 <= i < suffix.len() implies lower_byte(
        whole[whole.len() - suffix.len() + i],
    ) == lower_byte(#[trigger] suffix[i]) by {}
    if has_backup_extension(name) {
        assert forall|i: int| 0 <= i < 8 implies ({
            let b = name[name.len() - 8 + i];
            b == #[trigger] suffix[i] || b + 32 == suffix[i]
        }) by {
            assert(lower_byte(name[name.len() - suffix.len() + i]) == lower_byte(suffix[i]));
        }
    }
}

/// No other units are known.
pub proof fn lemma_other_units_are_unknown(unit: Seq<char>)
    ensures
        unit_bytes(unit) is Some <==> seq![
            ""@,
            "b"@,
            "bytes"@,
            "k"@,
            "kb"@,
            "m"@,
            "mb"@,
            "g"@,
            "gb"@,
            "t"@,
            "tb"@,
            "pb"@,
            "kib"@,
            "mib"@,
            "gib"@,
            "tib"@,
        ].contains(unit),
{
    let known = seq![
        ""@,
        "b"@,
        "bytes"@,
        "k"@,
        "kb"@,
        "m"@,
        "mb"@,
        "g"@,
        "gb"@,
        "t"@,
        "tb"@,
        "pb"@,
        "kib"@,
        "mib"@,
        "gib"@,
        "tib"@,
    ];
    assert(known[0] == ""@ && known[1] == "b"@ && known[2] == "bytes"@ && known[3] == "k"@);
    assert(known[4] == "kb"@ && known[5] == "m"@ && known[6] == "mb"@ && known[7] == "g"@);
    assert(known[8] == "gb"@ && known[9] == "t"@ && known[10] == "tb"@ && known[11] == "pb"@);
    assert(known[12] == "kib"@ && known[13] == "mib"@ && known[14] == "gib"@ && known[15]
        == "tib"@);
}

/// A size is a number with at least one digit and at most one comma or point, and a unit
/// that is known behind it, with or without white space between them; anything else is
/// none.
pub proof fn lemma_what_is_a_size(number: Seq<char>, rest: Seq<char>)
    requires
        forall|i: int| 0 <= i < number.len() ==> is_ascii_digit(#[trigger] number[i]) || number[i]
            == '.' || number[i] == ',',
        rest.len() > 0 ==> !is_ascii_digit(rest[0]) && rest[0] != '.' && rest[0] != ','
            && !is_space(rest.last()),
        number.len() > 0,
    ensures
        parsed_size(number + rest) is Some <==> {
            &&& exists|i: int| 0 <= i < number.len() && is_ascii_digit(#[trigger] number[i])
            &&& reading(number).separators <= 1
            &&& unit_bytes(ascii_lowercase(trim(rest))) is Some
        },
{
    let text = number + rest;
    assert(is_number_char(number[0]));
    assert(!is_space(text[0])) by {
        assert(text[0] == number[0]);
    }
    assert(!is_space(text.last())) by {
        if rest.len() > 0 {
            assert(text.last() == rest.last());
        } else {
            assert(text.last() == number[number.len() - 1]);
            assert(is_number_char(number[number.len() - 1]));
        }
    }
    lemma_trim_plain(text);
    assert forall|i: int| 0 <= i < number.len() implies is_number_char(#[trigger] number[i]) by {}
    lemma_number_ends(number, rest);
    assert(text.take(number.len() as int) =~= number);
    assert(text.skip(number.len() as int) =~= rest);
    lemma_digits_are_counted(number);
}

/// Digits and separators of a number are counted.
pub proof fn lemma_digits_are_counted(number: Seq<char>)
    ensures
        reading(number).digits + reading(number).separators == number.len(),
        reading(number).digits > 0 <==> exists|i: int|
            0 <= i < number.len() && is_ascii_digit(#[trigger] number[i]),
    decreases number.len(),
{
    if number.len() > 0 {
        let less = number.drop_last();
        lemma_digits_are_counted(less);
        assert(number[number.len() - 1] == number.last());
        if reading(less).digits > 0 {
            let i = choose|i: int| 0 <= i < less.len() && is_ascii_digit(#[trigger] less[i]);
            assert(is_ascii_digit(number[i]));
        }
        if exists|i: int| 0 <= i < number.len() && is_ascii_digit(#[trigger] number[i]) {
            let i = choose|i: int| 0 <= i < number.len() && is_ascii_digit(#[trigger] number[i]);
            if i < less.len() {
                assert(is_ascii_digit(less[i]));
            }
        }
    }
}

/// Sizes below a thousand bytes are shown to the byte.
pub proof fn lemma_small_sizes_are_exact(bytes: nat)
    requires
        bytes < 1000,
    ensures
        size_text(bytes) == decimal(bytes) + " "@ + "B"@,
{
}

} // verus!
