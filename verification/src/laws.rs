//! General laws of the engine, stated and proved over the same
//! specification functions its contracts use.

use vstd::prelude::*;

use crate::engine::{
    equal_excluded, find_last_spec, prior_is_decimal, spec_apply, spec_operate, CalcError,
    CalcView, Operation,
};
use crate::number::{Number, MANT_MAX};

verus! {

/// The integer a digit sequence spells when read left to right.
pub open spec fn digits_value(ds: Seq<u64>) -> nat
    decreases ds.len(),
{
    if ds.len() == 0 {
        0
    } else {
        digits_value(ds.drop_last()) * 10 + ds.last() as nat
    }
}

pub open spec fn all_digits(ds: Seq<u64>) -> bool {
    forall|i: int| 0 <= i < ds.len() ==> ds[i] <= 9
}

/// The operand the digit button `d` hands to the engine.
pub open spec fn digit_number(d: u64) -> Number {
    Number::Finite { neg: false, mant: d, scale: 0 }
}

/// The engine state after entering the digits `ds`, one `Append` each.
pub open spec fn run_appends(c: CalcView, ds: Seq<u64>) -> Result<CalcView, CalcError>
    decreases ds.len(),
{
    if ds.len() == 0 {
        Result::Ok(c)
    } else {
        match run_appends(c, ds.drop_last()) {
            Result::Ok(c2) => spec_operate(
                c2,
                Operation::Append,
                Option::Some(digit_number(ds.last())),
            ),
            Result::Err(e) => Result::Err(e),
        }
    }
}

/// Law: digit entry concatenates. Entering the digits `ds`, with no decimal
/// point involved, into an engine whose `current` is zero succeeds and
/// leaves in `current` exactly the integer the digits spell, as long as that
/// integer is representable; `total` is untouched and the history grows by
/// one `Append` per digit.
pub proof fn lemma_append_digits_concatenate(c: CalcView, ds: Seq<u64>)
    requires
        c.wf(),
        c.current == Number::zero_spec(),
        !prior_is_decimal(c.history),
        all_digits(ds),
        digits_value(ds) <= MANT_MAX,
    ensures
        run_appends(c, ds) matches Ok(c2) && c2 == (CalcView {
            total: c.total,
            current: Number::Finite { neg: false, mant: digits_value(ds) as u64, scale: 0 },
            history: c.history + Seq::new(ds.len(), |i: int| Operation::Append),
        }),
    decreases ds.len(),
{
    if ds.len() == 0 {
        assert(c.history + Seq::new(0, |i: int| Operation::Append) =~= c.history);
    } else {
        let prefix = ds.drop_last();
        let d = ds.last();
        let v = digits_value(prefix);
        assert(all_digits(prefix)) by {
            assert(forall|i: int| 0 <= i < prefix.len() ==> prefix[i] == ds[i] && ds[i] <= 9);
        }
        assert(v <= v * 10 + d as nat);
        lemma_append_digits_concatenate(c, prefix);
        let c2 = run_appends(c, prefix)->Ok_0;
        let hist2 = c.history + Seq::new(prefix.len(), |i: int| Operation::Append);
        if prefix.len() == 0 {
            assert(hist2 =~= c.history);
            assert(!prior_is_decimal(c2.history));
        } else {
            assert(hist2.last() == Operation::Append);
            assert(!prior_is_decimal(c2.history));
        }
        let m2 = v * 10 + d as nat;
        assert(d <= 9);
        crate::number::lemma_strip(m2, 0);
        assert(spec_append_ok(c2, d, m2));
        assert(c2.history.push(Operation::Append) =~= c.history + Seq::new(
            ds.len(),
            |i: int| Operation::Append,
        ));
    }
}

/// The one step of the concatenation law: appending `d` to an integer
/// `current` gives the shifted integer.
spec fn spec_append_ok(c2: CalcView, d: u64, m2: nat) -> bool {
    spec_operate(c2, Operation::Append, Option::Some(digit_number(d))) matches Ok(c3) && c3.current
        == (Number::Finite { neg: false, mant: m2 as u64, scale: 0 }) && c3.total == c2.total
        && c3.history == c2.history.push(Operation::Append)
}

/// Law: every accepted operation appends to the history and never rewrites
/// it: one entry for every operation but `Equal`, and for `Equal` either one
/// entry (nothing to repeat) or two (the repeated operation, then `Equal`).
/// A rejected call leaves the whole state, history included, unchanged;
/// that is part of `operate`'s contract itself.
pub proof fn lemma_history_grows(c: CalcView, op: Operation, rhs: Option<Number>)
    ensures
        op != Operation::Equal ==> (spec_operate(c, op, rhs) matches Ok(c2) ==> c2.history
            == c.history.push(op)),
        op == Operation::Equal ==> (spec_operate(c, op, rhs) matches Ok(c2) ==> {
            ||| c2.history == c.history.push(op)
            ||| exists|p: Operation|
                c2.history == #[trigger] c.history.push(p).push(op)
        }),
{
    if op == Operation::Equal {
        match find_last_spec(c.history, equal_excluded()) {
            Option::None => {
            },
            Option::Some(p) => {
                match spec_apply(c, p, Option::Some(c.current)) {
                    Result::Ok(c2) => {
                        assert(c2.history == c.history.push(p));
                        assert(spec_operate(c, op, rhs)->Ok_0.history == c.history.push(p).push(
                            op,
                        ));
                    },
                    Result::Err(_) => {
                    },
                }
            },
        }
    }
}

/// Law: negation is always accepted, flips exactly the sign of `current` —
/// zero becomes negative zero — and touches neither `total` nor anything
/// else but the history marker.
pub proof fn lemma_negate_flips_current(c: CalcView, rhs: Option<Number>)
    ensures
        spec_operate(c, Operation::Negate, rhs) matches Ok(c2) && c2 == (CalcView {
            total: c.total,
            current: c.current.spec_negated(),
            history: c.history.push(Operation::Negate),
        }),
{
}

/// Law: the square root of a negative operand is accepted and leaves the
/// `NaN` marker in `total`; it is not an error. (A negative zero is its own
/// square root instead.)
pub proof fn lemma_sqrt_of_negative_is_nan(c: CalcView, rhs: Number)
    requires
        rhs.wf(),
        rhs.sign_neg(),
        !rhs.is_zero(),
    ensures
        spec_operate(c, Operation::SquareRoot, Option::Some(rhs)) matches Ok(c2) && c2.total
            is NaN,
{
}

} // verus!
