//! The calculator engine: a state machine over two registers and an
//! append-only history of operation tags.
//!
//! Every accepted call of [`Calculator::operate`] pushes its operation onto
//! the history, whether or not it did numeric work. `Equal` repeats the most
//! recent substantive operation (skipping `Equal`, `Append` and `Decimal`
//! entries) with the `current` register as its operand, so it pushes that
//! operation and then itself. A failed call leaves the state untouched.

use vstd::prelude::*;

use crate::number::{norm_spec, Number, MANT_MAX, MAX_SCALE};

verus! {

/// A button press, as handed to the engine.
#[derive(Clone, Copy, PartialEq, Eq, Structural, Debug)]
pub enum Operation {
    Add,
    Append,
    Subtract,
    Multiply,
    Divide,
    Square,
    SquareRoot,
    Negate,
    Equal,
    Decimal,
    Noop,
}

/// A recoverable fault of the engine. No fault changes the state.
#[derive(Clone, Copy, PartialEq, Eq, Structural, Debug)]
pub enum CalcError {
    /// An operation needed an operand and none was given, or the operand of
    /// a digit append was not a digit from 0 to 9.
    InvalidOperand,
    /// Digit entry would leave the representable range of a `Number`.
    ParseError,
}

/// The engine's state, as the specifications see it.
#[verifier::ext_equal]
pub struct CalcView {
    pub total: Number,
    pub current: Number,
    pub history: Seq<Operation>,
}

impl CalcView {
    /// Both registers are sound values, and `current`, which only digit
    /// entry and negation ever write, is always finite.
    pub open spec fn wf(self) -> bool {
        &&& self.total.wf()
        &&& self.current.wf()
        &&& self.current is Finite
    }
}

/// The state of a fresh engine: both registers zero, no history.
pub open spec fn init_view() -> CalcView {
    CalcView { total: Number::zero_spec(), current: Number::zero_spec(), history: Seq::empty() }
}

/// The most recent entry of `h` whose tag is not in `ex`, or `None` when
/// every entry is excluded.
pub open spec fn find_last_spec(h: Seq<Operation>, ex: Seq<Operation>) -> Option<Operation>
    decreases h.len(),
{
    if h.len() == 0 {
        Option::None
    } else if ex.contains(h.last()) {
        find_last_spec(h.drop_last(), ex)
    } else {
        Option::Some(h.last())
    }
}

/// The tags `Equal` skips when it looks for the operation to repeat.
pub open spec fn equal_excluded() -> Seq<Operation> {
    seq![Operation::Equal, Operation::Append, Operation::Decimal]
}

/// Whether the most recent history entry is the decimal-point marker.
pub open spec fn prior_is_decimal(h: Seq<Operation>) -> bool {
    h.len() > 0 && h.last() == Operation::Decimal
}

/// Digit entry: append digit `d` to the decimal text of `cur`. With the
/// decimal-point marker just pushed and no fractional part yet, the digit
/// opens the fraction; otherwise it extends the integer part or the
/// fraction. `None` when the result would not be representable (or `cur` is
/// not finite, which a sound engine never reaches).
pub open spec fn spec_append_digit(cur: Number, prior_decimal: bool, d: nat) -> Option<Number> {
    match cur {
        Number::Finite { neg, mant, scale } => {
            let m2 = mant * 10 + d;
            if prior_decimal && scale == 0 {
                if m2 > MANT_MAX {
                    Option::None
                } else {
                    Option::Some(norm_spec(neg, m2 as nat, 1))
                }
            } else {
                let s2: nat = if scale == 0 {
                    0
                } else {
                    scale as nat + 1
                };
                if m2 > MANT_MAX || s2 > MAX_SCALE as nat {
                    Option::None
                } else {
                    Option::Some(norm_spec(neg, m2 as nat, s2))
                }
            }
        },
        _ => Option::None,
    }
}

/// One step of every operation but a repeating `Equal`. The operation is
/// always pushed; `Add` adds the operand to `total`; `Subtract`, `Multiply`
/// and `Divide` do the same arithmetic unless `total` is zero, in which case
/// they seed `total` with the operand; `Square` and `SquareRoot` replace
/// `total` with the operand's square or root; each of these resets `current`
/// to zero. `Negate` flips the sign of `current`; `Append` extends it by a
/// digit; `Decimal`, `None` and a non-repeating `Equal` only mark the
/// history.
pub open spec fn spec_apply(c: CalcView, op: Operation, rhs: Option<Number>) -> Result<
    CalcView,
    CalcError,
> {
    match op {
        Operation::Add => match rhs {
            Option::None => Result::Err(CalcError::InvalidOperand),
            Option::Some(r) => Result::Ok(
                CalcView {
                    total: c.total.spec_plus(r),
                    current: Number::zero_spec(),
                    history: c.history.push(op),
                },
            ),
        },
        Operation::Subtract => match rhs {
            Option::None => Result::Err(CalcError::InvalidOperand),
            Option::Some(r) => Result::Ok(
                CalcView {
                    total: if c.total.is_zero() {
                        r
                    } else {
                        c.total.spec_minus(r)
                    },
                    current: Number::zero_spec(),
                    history: c.history.push(op),
                },
            ),
        },
        Operation::Multiply => match rhs {
            Option::None => Result::Err(CalcError::InvalidOperand),
            Option::Some(r) => Result::Ok(
                CalcView {
                    total: if c.total.is_zero() {
                        r
                    } else {
                        c.total.spec_times(r)
                    },
                    current: Number::zero_spec(),
                    history: c.history.push(op),
                },
            ),
        },
        Operation::Divide => match rhs {
            Option::None => Result::Err(CalcError::InvalidOperand),
            Option::Some(r) => Result::Ok(
                CalcView {
                    total: if c.total.is_zero() {
                        r
                    } else {
                        c.total.spec_div(r)
                    },
                    current: Number::zero_spec(),
                    history: c.history.push(op),
                },
            ),
        },
        Operation::Square => match rhs {
            Option::None => Result::Err(CalcError::InvalidOperand),
            Option::Some(r) => Result::Ok(
                CalcView {
                    total: r.spec_times(r),
                    current: Number::zero_spec(),
                    history: c.history.push(op),
                },
            ),
        },
        Operation::SquareRoot => match rhs {
            Option::None => Result::Err(CalcError::InvalidOperand),
            Option::Some(r) => Result::Ok(
                CalcView {
                    total: r.spec_sqrt(),
                    current: Number::zero_spec(),
                    history: c.history.push(op),
                },
            ),
        },
        Operation::Negate => Result::Ok(
            CalcView {
                total: c.total,
                current: c.current.spec_negated(),
                history: c.history.push(op),
            },
        ),
        Operation::Append => match rhs {
            Option::None => Result::Err(CalcError::InvalidOperand),
            Option::Some(r) => match r {
                Number::Finite { neg: false, mant: d, scale: 0u8 } => {
                    if d <= 9 {
                        match spec_append_digit(c.current, prior_is_decimal(c.history), d as nat) {
                            Option::Some(n2) => Result::Ok(
                                CalcView {
                                    total: c.total,
                                    current: n2,
                                    history: c.history.push(op),
                                },
                            ),
                            Option::None => Result::Err(CalcError::ParseError),
                        }
                    } else {
                        Result::Err(CalcError::InvalidOperand)
                    }
                },
                _ => Result::Err(CalcError::InvalidOperand),
            },
        },
        _ => Result::Ok(
            CalcView { total: c.total, current: c.current, history: c.history.push(op) },
        ),
    }
}

/// The full step of the engine. `Equal` looks back for the most recent
/// substantive operation; when one is found it is repeated with `current` as
/// its operand and `Equal` is pushed after it, otherwise `Equal` is only a
/// history marker. Every other operation steps as in [`spec_apply`].
pub open spec fn spec_operate(c: CalcView, op: Operation, rhs: Option<Number>) -> Result<
    CalcView,
    CalcError,
> {
    if op == Operation::Equal {
        match find_last_spec(c.history, equal_excluded()) {
            Option::None => Result::Ok(
                CalcView { total: c.total, current: c.current, history: c.history.push(op) },
            ),
            Option::Some(p) => match spec_apply(c, p, Option::Some(c.current)) {
                Result::Ok(c2) => Result::Ok(
                    CalcView {
                        total: c2.total,
                        current: c2.current,
                        history: c2.history.push(op),
                    },
                ),
                Result::Err(e) => Result::Err(e),
            },
        }
    } else {
        spec_apply(c, op, rhs)
    }
}

/// Whether `ops` holds `op`.
fn contains_op(ops: &Vec<Operation>, op: Operation) -> (r: bool)
    ensures
        r == ops@.contains(op),
{
    let mut i: usize = 0;
    while i < ops.len()
        invariant
            i <= ops.len(),
            forall|k: int| 0 <= k < i ==> ops@[k] != op,
        decreases ops.len() - i,
    {
        if ops[i] == op {
            return true;
        }
        i += 1;
    }
    false
}

/// Scan `h` from its most recent entry backward for one not in `ex`.
fn find_last_in(h: &Vec<Operation>, ex: &Vec<Operation>) -> (r: Option<Operation>)
    ensures
        r == find_last_spec(h@, ex@),
{
    let mut i: usize = h.len();
    proof {
        assert(h@.take(h@.len() as int) =~= h@);
    }
    while i > 0
        invariant
            i <= h.len(),
            find_last_spec(h@, ex@) == find_last_spec(h@.take(i as int), ex@),
        decreases i,
    {
        i -= 1;
        let op = h[i];
        proof {
            assert(h@.take(i as int + 1).last() == h@[i as int]);
            assert(h@.take(i as int + 1).drop_last() =~= h@.take(i as int));
        }
        if !contains_op(ex, op) {
            return Option::Some(op);
        }
    }
    proof {
        assert(h@.take(0) =~= Seq::<Operation>::empty());
    }
    Option::None
}

/// Digit entry on the `current` register; see [`spec_append_digit`].
fn append_digit(cur: Number, prior_decimal: bool, d: u64) -> (r: Option<Number>)
    requires
        cur.wf(),
        d <= 9,
    ensures
        r == spec_append_digit(cur, prior_decimal, d as nat),
        r matches Some(n) ==> n.wf() && n is Finite,
{
    match cur {
        Number::Finite { neg, mant, scale } => {
            let m2: u64 = mant * 10 + d;
            proof {
                crate::number::lemma_strip(m2 as nat, 0);
                crate::number::lemma_strip(m2 as nat, 1);
                if scale < MAX_SCALE {
                    crate::number::lemma_strip(m2 as nat, scale as nat + 1);
                }
            }
            if prior_decimal && scale == 0 {
                if m2 > MANT_MAX {
                    Option::None
                } else {
                    Option::Some(crate::number::norm(neg, m2 as u128, 1))
                }
            } else if scale == 0 {
                if m2 > MANT_MAX {
                    Option::None
                } else {
                    Option::Some(crate::number::norm(neg, m2 as u128, 0))
                }
            } else {
                if m2 > MANT_MAX || scale >= MAX_SCALE {
                    Option::None
                } else {
                    Option::Some(crate::number::norm(neg, m2 as u128, scale + 1))
                }
            }
        },
        _ => Option::None,
    }
}

/// The calculator: the `total` and `current` registers and the append-only
/// history of every operation applied.
pub struct Calculator {
    total: Number,
    current: Number,
    history: Vec<Operation>,
}

impl View for Calculator {
    type V = CalcView;

    closed spec fn view(&self) -> CalcView {
        CalcView { total: self.total, current: self.current, history: self.history@ }
    }
}

impl Calculator {
    pub open spec fn wf(self) -> bool {
        self@.wf()
    }

    /// A fresh engine: both registers zero, empty history.
    pub fn new() -> (r: Calculator)
        ensures
            r@ == init_view(),
            r.wf(),
    {
        let c = Calculator { total: Number::zero(), current: Number::zero(), history: Vec::new() };
        proof {
            assert(c@ =~= init_view());
        }
        c
    }

    /// The accumulated result register.
    pub fn total(&self) -> (r: Number)
        ensures
            r == self@.total,
    {
        self.total
    }

    /// The operand being entered or displayed.
    pub fn current(&self) -> (r: Number)
        ensures
            r == self@.current,
    {
        self.current
    }

    /// Every operation ever applied, in application order.
    pub fn history(&self) -> (r: &Vec<Operation>)
        ensures
            r@ == self@.history,
    {
        &self.history
    }

    /// The `C` button: both registers are reset to zero. The history is
    /// kept as it is and no entry is pushed; clearing bypasses `operate`.
    pub fn clear(&mut self)
        requires
            old(self).wf(),
        ensures
            final(self).wf(),
            final(self)@ == (CalcView {
                total: Number::zero_spec(),
                current: Number::zero_spec(),
                history: old(self)@.history,
            }),
    {
        self.total = Number::zero();
        self.current = Number::zero();
    }

    /// The most recent history entry whose tag is not in
    /// `excluded_operations`, or `None` when every entry is excluded.
    pub fn find_last_operation_excluding(&self, excluded_operations: Vec<Operation>) -> (r: Option<
        Operation,
    >)
        ensures
            r == find_last_spec(self@.history, excluded_operations@),
    {
        find_last_in(&self.history, &excluded_operations)
    }

    /// One step of every operation but a repeating `Equal`; see
    /// [`spec_apply`].
    fn apply_basic(&mut self, op: Operation, rhs: Option<Number>) -> (res: Result<(), CalcError>)
        requires
            old(self).wf(),
            rhs matches Some(n) ==> n.wf(),
        ensures
            final(self).wf(),
            match spec_apply(old(self)@, op, rhs) {
                Result::Ok(v) => res is Ok && final(self)@ == v,
                Result::Err(e) => res == Result::<(), CalcError>::Err(e) && final(self)@ == old(
                    self,
                )@,
            },
    {
        match op {
            Operation::Add => match rhs {
                Option::None => Result::Err(CalcError::InvalidOperand),
                Option::Some(r) => {
                    self.total = self.total.plus(r);
                    self.current = Number::zero();
                    self.history.push(op);
                    Result::Ok(())
                },
            },
            Operation::Subtract => match rhs {
                Option::None => Result::Err(CalcError::InvalidOperand),
                Option::Some(r) => {
                    if self.total.eq_zero() {
                        self.total = r;
                    } else {
                        self.total = self.total.minus(r);
                    }
                    self.current = Number::zero();
                    self.history.push(op);
                    Result::Ok(())
                },
            },
            Operation::Multiply => match rhs {
                Option::None => Result::Err(CalcError::InvalidOperand),
                Option::Some(r) => {
                    if self.total.eq_zero() {
                        self.total = r;
                    } else {
                        self.total = self.total.times(r);
                    }
                    self.current = Number::zero();
                    self.history.push(op);
                    Result::Ok(())
                },
            },
            Operation::Divide => match rhs {
                Option::None => Result::Err(CalcError::InvalidOperand),
                Option::Some(r) => {
                    if self.total.eq_zero() {
                        self.total = r;
                    } else {
                        self.total = self.total.div_by(r);
                    }
                    self.current = Number::zero();
                    self.history.push(op);
                    Result::Ok(())
                },
            },
            Operation::Square => match rhs {
                Option::None => Result::Err(CalcError::InvalidOperand),
                Option::Some(r) => {
                    self.total = r.times(r);
                    self.current = Number::zero();
                    self.history.push(op);
                    Result::Ok(())
                },
            },
            Operation::SquareRoot => match rhs {
                Option::None => Result::Err(CalcError::InvalidOperand),
                Option::Some(r) => {
                    self.total = r.square_root();
                    self.current = Number::zero();
                    self.history.push(op);
                    Result::Ok(())
                },
            },
            Operation::Negate => {
                self.current = self.current.negated();
                self.history.push(op);
                Result::Ok(())
            },
            Operation::Append => match rhs {
                Option::None => Result::Err(CalcError::InvalidOperand),
                Option::Some(r) => match r {
                    Number::Finite { neg: false, mant: d, scale: 0u8 } => {
                        if d <= 9 {
                            let prior = if self.history.len() > 0 {
                                self.history[self.history.len() - 1] == Operation::Decimal
                            } else {
                                false
                            };
                            proof {
                                assert(prior == prior_is_decimal(old(self)@.history));
                            }
                            match append_digit(self.current, prior, d) {
                                Option::Some(n2) => {
                                    self.current = n2;
                                    self.history.push(op);
                                    Result::Ok(())
                                },
                                Option::None => Result::Err(CalcError::ParseError),
                            }
                        } else {
                            Result::Err(CalcError::InvalidOperand)
                        }
                    },
                    _ => Result::Err(CalcError::InvalidOperand),
                },
            },
            _ => {
                self.history.push(op);
                Result::Ok(())
            },
        }
    }

    /// The engine's entry point: apply one button press. On success the
    /// state steps as [`spec_operate`] says, the operation (and, for a
    /// repeating `Equal`, the repeated one before it) appended to the
    /// history; on an error the state, history included, is unchanged.
    pub fn operate(&mut self, operation: Operation, rhs: Option<Number>) -> (res: Result<
        (),
        CalcError,
    >)
        requires
            old(self).wf(),
            rhs matches Some(n) ==> n.wf(),
        ensures
            final(self).wf(),
            match spec_operate(old(self)@, operation, rhs) {
                Result::Ok(v) => res is Ok && final(self)@ == v,
                Result::Err(e) => res == Result::<(), CalcError>::Err(e) && final(self)@ == old(
                    self,
                )@,
            },
    {
        if operation == Operation::Equal {
            let ex: Vec<Operation> = vec![
                Operation::Equal,
                Operation::Append,
                Operation::Decimal,
            ];
            proof {
                assert(ex@ =~= equal_excluded());
            }
            let prev = find_last_in(&self.history, &ex);
            match prev {
                Option::None => {
                    self.history.push(Operation::Equal);
                    Result::Ok(())
                },
                Option::Some(p) => {
                    let cur = self.current;
                    let r = self.apply_basic(p, Option::Some(cur));
                    match r {
                        Result::Ok(()) => {
                            self.history.push(Operation::Equal);
                            Result::Ok(())
                        },
                        Result::Err(e) => Result::Err(e),
                    }
                },
            }
        } else {
            self.apply_basic(operation, rhs)
        }
    }
}

impl Default for Calculator {
    /// A fresh engine, as [`Calculator::new`] builds it.
    fn default() -> (r: Calculator)
        ensures
            r@ == init_view(),
            r.wf(),
    {
        Calculator::new()
    }
}

} // verus!
