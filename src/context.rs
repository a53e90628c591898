//! The evaluation context: named bindings and anonymous result slots.

use vstd::prelude::*;

use crate::syntax::{BinOp, Cmd, Command, Expr, Expression};
use crate::text::{decimal, push_char, push_decimal};

verus! {

/// The numbers a context computes with. Each operation is a function of its
/// arguments, named by a spec function; the context decides what is
/// evaluated, in which order, and when evaluation fails. An implementation
/// verified here states its spec functions (see `i64` in `integer`); one
/// that does not keeps the defaults, of which nothing is known.
pub trait Scalar: Copy {
    /// The value of a numeric literal (digits, optionally `.` and digits).
    closed spec fn literal_value(text: Seq<char>) -> Self {
        arbitrary()
    }

    /// The result of `self op rhs`.
    closed spec fn apply(self, op: BinOp, rhs: Self) -> Self {
        arbitrary()
    }

    /// This value counts as zero for division.
    closed spec fn is_zero_value(self) -> bool {
        arbitrary()
    }

    /// The value of a numeric literal.
    fn from_literal(text: &str) -> (r: Self)
        ensures
            r == Self::literal_value(text@),
    ;

    fn plus(self, rhs: Self) -> (r: Self)
        ensures
            r == self.apply(BinOp::Add, rhs),
    ;

    fn minus(self, rhs: Self) -> (r: Self)
        ensures
            r == self.apply(BinOp::Subtract, rhs),
    ;

    fn times(self, rhs: Self) -> (r: Self)
        ensures
            r == self.apply(BinOp::Multiply, rhs),
    ;

    /// Only called with a divisor that is not zero.
    fn divide(self, rhs: Self) -> (r: Self)
        requires
            !rhs.is_zero_value(),
        ensures
            r == self.apply(BinOp::Divide, rhs),
    ;

    fn power(self, rhs: Self) -> (r: Self)
        ensures
            r == self.apply(BinOp::Power, rhs),
    ;

    fn is_zero(&self) -> (r: bool)
        ensures
            r == self.is_zero_value(),
    ;
}

/// Why a command could not be evaluated.
#[derive(Debug, PartialEq)]
pub enum EvalError {
    /// The expression refers to a name that has no binding.
    UndefinedVariable(String),
    /// The right operand of `/` was zero.
    DivisionByZero,
}

/// The mathematical outcome of an evaluation.
pub enum Outcome<V> {
    Value(V),
    Undefined(Seq<char>),
    DivisionByZero,
}

/// The outcome that a result stands for.
pub open spec fn outcome_of<V>(r: Result<V, EvalError>) -> Outcome<V> {
    match r {
        Ok(v) => Outcome::Value(v),
        Err(EvalError::UndefinedVariable(n)) => Outcome::Undefined(n@),
        Err(EvalError::DivisionByZero) => Outcome::DivisionByZero,
    }
}

/// Evaluation of `e` against bindings `b`: a literal is its value, a
/// variable its binding (or an undefined-variable error); an operator node
/// evaluates its left operand, then its right one, the first error ending
/// the evaluation; `/` by a zero divisor is a division-by-zero error, and
/// otherwise the operator is applied to the two values.
pub open spec fn eval<V: Scalar>(e: Expr, b: Map<Seq<char>, V>) -> Outcome<V>
    decreases e,
{
    match e {
        Expr::Num(t) => Outcome::Value(V::literal_value(t)),
        Expr::Var(n) => if b.contains_key(n) {
            Outcome::Value(b[n])
        } else {
            Outcome::Undefined(n)
        },
        Expr::Bin(op, l, r) => match eval(*l, b) {
            Outcome::Value(x) => match eval(*r, b) {
                Outcome::Value(y) => if op == BinOp::Divide && y.is_zero_value() {
                    Outcome::DivisionByZero
                } else {
                    Outcome::Value(x.apply(op, y))
                },
                other => other,
            },
            other => other,
        },
    }
}

/// The name of the `n`-th anonymous result slot: `$` then `n` in decimal.
pub open spec fn anonymous_name(n: nat) -> Seq<char> {
    seq!['$'] + decimal(n)
}

/// The name a command binds when the counter stands at `counter`.
pub open spec fn target_name(c: Cmd, counter: nat) -> Seq<char> {
    match c.target {
        Some(t) => t,
        None => anonymous_name(counter),
    }
}

/// The value of a command's outcome, keeping its error.
pub open spec fn value_part<V>(r: Result<(String, V), EvalError>) -> Result<V, EvalError> {
    match r {
        Ok((_, v)) => Ok(v),
        Err(e) => Err(e),
    }
}

/// A calculator session: named bindings plus the counter that names
/// anonymous results `$0`, `$1`, ...
pub struct Context<V> {
    anonymous_counter: usize,
    variables: Vec<(String, V)>,
    bindings: Ghost<Map<Seq<char>, V>>,
}

impl<V: Scalar> Context<V> {
    /// The bindings, by name.
    pub closed spec fn bindings(&self) -> Map<Seq<char>, V> {
        self.bindings@
    }

    /// The number the next anonymous result will carry.
    pub closed spec fn counter(&self) -> nat {
        self.anonymous_counter as nat
    }

    /// Names are unique in the table, and the table holds exactly the bindings.
    pub closed spec fn wf(&self) -> bool {
        &&& forall|i: int, j: int|
            0 <= i < j < self.variables.len() ==> self.variables[i].0@ != self.variables[j].0@
        &&& forall|k: Seq<char>|
            #![trigger self.bindings@.contains_key(k)]
            self.bindings@.contains_key(k) <==> exists|i: int|
                0 <= i < self.variables.len() && self.variables[i].0@ == k
        &&& forall|i: int|
            0 <= i < self.variables.len() ==> self.bindings@[self.variables[i].0@]
                == self.variables[i].1
    }

    /// A fresh session: no bindings, counter at zero.
    pub fn new() -> (r: Self)
        ensures
            r.wf(),
            r.bindings() == Map::<Seq<char>, V>::empty(),
            r.counter() == 0,
    {
        Context { anonymous_counter: 0, variables: Vec::new(), bindings: Ghost(Map::empty()) }
    }

    /// The number the next anonymous result will carry.
    pub fn current_counter(&self) -> (r: usize)
        ensures
            r == self.counter(),
    {
        self.anonymous_counter
    }

    /// The value bound to `name`, if any.
    pub fn lookup(&self, name: &String) -> (r: Option<V>)
        requires
            self.wf(),
        ensures
            r is Some <==> self.bindings().contains_key(name@),
            r is Some ==> r->Some_0 == self.bindings()[name@],
    {
        let mut i: usize = 0;
        while i < self.variables.len()
            invariant
                self.wf(),
                i <= self.variables.len(),
                forall|j: int| 0 <= j < i ==> self.variables[j].0@ != name@,
            decreases self.variables.len() - i,
        {
            if self.variables[i].0 == *name {
                return Some(self.variables[i].1);
            }
            i += 1;
        }
        assert(!self.bindings@.contains_key(name@));
        None
    }

    /// Binds `name` to `value`, replacing an earlier binding of that name.
    pub fn bind(&mut self, name: String, value: V)
        requires
            old(self).wf(),
        ensures
            final(self).wf(),
            final(self).bindings() == old(self).bindings().insert(name@, value),
            final(self).counter() == old(self).counter(),
    {
        let mut i: usize = 0;
        while i < self.variables.len()
            invariant
                self.wf(),
                *self == *old(self),
                i <= self.variables.len(),
                forall|j: int| 0 <= j < i ==> self.variables[j].0@ != name@,
            decreases self.variables.len() - i,
        {
            if self.variables[i].0 == name {
                let ghost key = name@;
                self.variables.set(i, (name, value));
                self.bindings = Ghost(self.bindings@.insert(key, value));
                assert forall|k: Seq<char>|
                    #![trigger self.bindings@.contains_key(k)]
                    self.bindings@.contains_key(k) <==> exists|j: int|
                        0 <= j < self.variables.len() && self.variables[j].0@ == k by {
                    if old(self).bindings@.contains_key(k) {
                        let j = choose|j: int|
                            0 <= j < old(self).variables.len() && old(self).variables[j].0@ == k;
                        assert(self.variables[j].0@ == k);
                    }
                }
                return;
            }
            i += 1;
        }
        let ghost key = name@;
        self.variables.push((name, value));
        self.bindings = Ghost(self.bindings@.insert(key, value));
        assert forall|k: Seq<char>|
            #![trigger self.bindings@.contains_key(k)]
            self.bindings@.contains_key(k) <==> exists|j: int|
                0 <= j < self.variables.len() && self.variables[j].0@ == k by {
            if old(self).bindings@.contains_key(k) {
                let j = choose|j: int|
                    0 <= j < old(self).variables.len() && old(self).variables[j].0@ == k;
                assert(self.variables[j].0@ == k);
            }
            if k == key {
                assert(self.variables[self.variables.len() - 1].0@ == k);
            }
        }
    }

    /// Evaluates `expression` against the current bindings: left operand
    /// first, then right, stopping at the first error. `/` fails on a zero
    /// divisor instead of producing a value.
    pub fn calc_expression(&self, expression: &Expression) -> (r: Result<V, EvalError>)
        requires
            self.wf(),
        ensures
            outcome_of(r) == eval(expression@, self.bindings()),
        decreases expression,
    {
        match expression {
            Expression::Num(text) => Ok(V::from_literal(text.as_str())),
            Expression::Variable(name) => match self.lookup(name) {
                Some(v) => Ok(v),
                None => Err(EvalError::UndefinedVariable(name.clone())),
            },
            Expression::BinOp { op, lhs, rhs } => {
                let l = match self.calc_expression(lhs) {
                    Ok(v) => v,
                    Err(e) => {
                        return Err(e);
                    },
                };
                let r = match self.calc_expression(rhs) {
                    Ok(v) => v,
                    Err(e) => {
                        return Err(e);
                    },
                };
                match op {
                    BinOp::Add => Ok(l.plus(r)),
                    BinOp::Subtract => Ok(l.minus(r)),
                    BinOp::Multiply => Ok(l.times(r)),
                    BinOp::Divide => {
                        if r.is_zero() {
                            Err(EvalError::DivisionByZero)
                        } else {
                            Ok(l.divide(r))
                        }
                    },
                    BinOp::Power => Ok(l.power(r)),
                }
            },
        }
    }

    /// Applies a command: picks the name (the explicit target, or the next
    /// anonymous slot, which advances the counter whether or not evaluation
    /// succeeds), evaluates the expression against the bindings as they were
    /// before this command, and on success binds the name to the value.
    /// On failure the bindings are left as they were.
    pub fn calc_command(&mut self, command: &Command) -> (r: Result<(String, V), EvalError>)
        requires
            old(self).wf(),
            command.variable is None ==> old(self).counter() < usize::MAX,
        ensures
            final(self).wf(),
            final(self).counter() == if command.variable is None {
                old(self).counter() + 1
            } else {
                old(self).counter()
            },
            outcome_of(value_part(r)) == eval(command@.expr, old(self).bindings()),
            match r {
                Ok((name, v)) => name@ == target_name(command@, old(self).counter())
                    && final(self).bindings() == old(self).bindings().insert(name@, v),
                Err(_) => final(self).bindings() == old(self).bindings(),
            },
    {
        let name = match &command.variable {
            Some(x) => x.clone(),
            None => {
                let mut s = String::new();
                push_char(&mut s, '$');
                push_decimal(&mut s, self.anonymous_counter as u64);
                self.anonymous_counter = self.anonymous_counter + 1;
                proof {
                    assert(s@ =~= anonymous_name(old(self).counter()));
                    assert(self.variables == old(self).variables);
                    assert(self.bindings == old(self).bindings);
                }
                s
            },
        };
        let value = match self.calc_expression(&command.expression) {
            Ok(v) => v,
            Err(e) => {
                return Err(e);
            },
        };
        self.bind(name.clone(), value);
        Ok((name, value))
    }
}

impl<V: Scalar> Default for Context<V> {
    /// A fresh session, as [`Context::new`] makes it.
    fn default() -> (r: Self)
        ensures
            r.wf(),
            r.bindings() == Map::<Seq<char>, V>::empty(),
            r.counter() == 0,
    {
        Context::new()
    }
}

} // verus!
