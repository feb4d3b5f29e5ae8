use crate::solver::report::ValidationOutcome;
use crate::solver::text::{decimal_digits, digit_char, digit_text, numbered_wide};
use crate::solver::types::RunOutcome;
use crate::solver::weight::{abs, SCALE};
use vstd::prelude::*;
use vstd::string::StringExecFns;

verus! {

/// The digits of a fraction after the point, without the zeros at its end:
/// `rest` counts units of which ten make the place before, and `unit` is the
/// weight of the next digit.
pub open spec fn fraction_digits(rest: nat, unit: nat) -> Seq<char>
    decreases unit,
{
    if rest == 0 || unit == 0 {
        Seq::empty()
    } else {
        seq![digit_char(rest / unit)] + fraction_digits(rest % unit, unit / 10)
    }
}

/// A fixed-point number as decimal text: a minus sign where it is negative,
/// the whole part, and, where there is a fraction, a point and its digits
/// without zeros at the end.
pub open spec fn fixed_text(q: i64) -> Seq<char> {
    let magnitude = abs(q as int) as nat;
    let whole = magnitude / (SCALE as nat);
    let fraction = magnitude % (SCALE as nat);
    let sign = if q < 0 {
        "-"@
    } else {
        Seq::<char>::empty()
    };
    let tail = if fraction == 0 {
        Seq::<char>::empty()
    } else {
        "."@ + fraction_digits(fraction, 100_000)
    };
    sign + decimal_digits(whole) + tail
}

/// A truth value as text.
pub open spec fn truth_text(b: bool) -> Seq<char> {
    if b {
        "true"@
    } else {
        "false"@
    }
}

/// The quality that an outcome reports: that of its partition, or zero where it holds none.
pub open spec fn reported_quality(run: &RunOutcome) -> i64 {
    match run.partition {
        Some(partition) => partition.quality_score,
        None => 0,
    }
}

/// The artifact of a run: three lines with its id, its quality and whether
/// the comparison passed.
pub open spec fn artifact_text(run: &RunOutcome, validation: &ValidationOutcome) -> Seq<char> {
    "Run ID: "@ + run.execution.run_id@ + "\nQuality: "@ + fixed_text(reported_quality(run))
        + "\nEquivalence Passed: "@ + truth_text(validation.equivalence_passed)
}

/// Writes the digits of a fraction after `prefix`.
fn with_fraction(prefix: String, fraction: u64) -> (text: String)
    requires
        fraction < 1_000_000,
    ensures
        text@ == prefix@ + fraction_digits(fraction as nat, 100_000),
{
    let mut text = prefix;
    let mut rest: u64 = fraction;
    let mut unit: u64 = 100_000;
    while rest > 0 && unit > 0
        invariant
            unit == 100_000 || unit == 10_000 || unit == 1_000 || unit == 100 || unit == 10
                || unit == 1 || unit == 0,
            rest < 10 * unit || rest == 0,
            text@ + fraction_digits(rest as nat, unit as nat) == prefix@ + fraction_digits(
                fraction as nat,
                100_000,
            ),
        decreases unit,
    {
        let digit: u64 = rest / unit;
        assert(digit < 10) by (nonlinear_arith)
            requires
                digit == rest / unit,
                rest < 10 * unit,
                unit > 0,
        ;
        let ghost before = text@;
        text = text.concat(digit_text(digit));
        proof {
            assert(fraction_digits(rest as nat, unit as nat) == seq![digit_char(digit as nat)]
                + fraction_digits((rest % unit) as nat, (unit / 10) as nat));
            assert(text@ + fraction_digits((rest % unit) as nat, (unit / 10) as nat) =~= before
                + fraction_digits(rest as nat, unit as nat));
        }
        rest = rest % unit;
        unit = unit / 10;
    }
    proof {
        assert(fraction_digits(rest as nat, unit as nat) =~= Seq::<char>::empty());
        assert(text@ =~= text@ + Seq::<char>::empty());
    }
    text
}

/// Writes a fixed-point number after `prefix`, as decimal text.
pub fn with_fixed(prefix: &str, q: i64) -> (text: String)
    ensures
        text@ == prefix@ + fixed_text(q),
{
    let magnitude: u64 = if q >= 0 {
        q as u64
    } else {
        (-(q + 1)) as u64 + 1
    };
    assert(magnitude == abs(q as int));
    let whole: u64 = magnitude / 1_000_000;
    let fraction: u64 = magnitude % 1_000_000;
    let signed: String = if q < 0 {
        String::from_str(prefix).concat("-")
    } else {
        String::from_str(prefix)
    };
    let ghost sign = if q < 0 {
        "-"@
    } else {
        Seq::<char>::empty()
    };
    assert(signed@ =~= prefix@ + sign);
    let head: String = numbered_wide(signed.as_str(), whole);
    if fraction == 0 {
        assert(head@ =~= prefix@ + fixed_text(q));
        head
    } else {
        let pointed: String = head.concat(".");
        let text = with_fraction(pointed, fraction);
        assert(text@ =~= prefix@ + fixed_text(q));
        text
    }
}

/// The artifact of a run as text.
pub fn write_run_artifact(run: &RunOutcome, validation: &ValidationOutcome) -> (text: String)
    ensures
        text@ == artifact_text(run, validation),
{
    let quality: i64 = match &run.partition {
        Some(partition) => partition.quality_score,
        None => 0,
    };
    let first: String = String::from_str("Run ID: ").concat(run.execution.run_id.as_str()).concat(
        "\nQuality: ",
    );
    let second: String = with_fixed(first.as_str(), quality).concat("\nEquivalence Passed: ");
    let text = if validation.equivalence_passed {
        second.concat("true")
    } else {
        second.concat("false")
    };
    assert(text@ =~= artifact_text(run, validation));
    text
}

} // verus!
