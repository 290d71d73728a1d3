//! Variables, linear expressions, constraints, and the handle allocator.
//!
//! A `Variable` is an opaque handle for one real-valued unknown; identity is
//! by handle.  An `Expression` is a linear combination: a constant plus a
//! sequence of variable/coefficient terms; a variable may appear in several
//! terms, and its effective coefficient is the sum of their coefficients.
//! A `Constraint` pairs an expression with a relational operator and a
//! strength: `expression OP 0`.  Constraint identity is by construction:
//! the allocator gives every constraint a distinct handle, so structurally
//! equal constraints built separately stay distinct.

use vstd::prelude::*;
use crate::num::{Ratio, ratio_wf, sum_val, diff_val, product_val, quot_val, neg_val};
use crate::strength::{Strength, REQUIRED_MAGNITUDE};

verus! {

/// An opaque handle for one real-valued unknown.
#[derive(Clone, Copy, Debug, PartialEq, Eq, Hash, Structural)]
pub struct Variable {
    pub id: u64,
}

/// One variable with its coefficient.
#[derive(Clone, Copy, Debug)]
pub struct Term {
    pub variable: Variable,
    pub coefficient: Ratio,
}

/// A linear combination: a constant plus variable/coefficient terms.
#[derive(Debug)]
pub struct Expression {
    pub terms: Vec<Term>,
    pub constant: Ratio,
}

/// Well-formed: every coefficient and the constant have positive
/// denominators.
pub open spec fn expression_wf(e: Expression) -> bool {
    &&& ratio_wf(e.constant)
    &&& forall|i: int| 0 <= i < e.terms@.len() ==> ratio_wf(#[trigger] e.terms@[i].coefficient)
}

impl Expression {
    /// The expression holding only a constant.
    pub fn from_constant(c: Ratio) -> (e: Expression)
        requires
            ratio_wf(c),
        ensures
            expression_wf(e),
            e.terms@.len() == 0,
            e.constant == c,
    {
        Expression { terms: Vec::new(), constant: c }
    }

    /// The expression `1 * v`.
    pub fn from_variable(v: Variable) -> (e: Expression)
        ensures
            expression_wf(e),
            e.terms@.len() == 1,
            e.terms@[0].variable == v,
            e.terms@[0].coefficient.num == 1,
            e.terms@[0].coefficient.den == 1,
            e.constant.num == 0,
            e.constant.den == 1,
    {
        let mut terms: Vec<Term> = Vec::new();
        terms.push(Term { variable: v, coefficient: Ratio::one() });
        Expression { terms, constant: Ratio::zero() }
    }

    /// The expression `c * v`.
    pub fn from_term(v: Variable, c: Ratio) -> (e: Expression)
        requires
            ratio_wf(c),
        ensures
            expression_wf(e),
            e.terms@.len() == 1,
            e.terms@[0].variable == v,
            e.terms@[0].coefficient == c,
            e.constant.num == 0,
            e.constant.den == 1,
    {
        let mut terms: Vec<Term> = Vec::new();
        terms.push(Term { variable: v, coefficient: c });
        Expression { terms, constant: Ratio::zero() }
    }

    /// The sum of two expressions: the terms are concatenated and the
    /// constants added.  `None` on component overflow.
    pub fn plus(&self, other: &Expression) -> (r: Option<Expression>)
        requires
            expression_wf(*self),
            expression_wf(*other),
        ensures
            r matches Some(e) ==> {
                &&& expression_wf(e)
                &&& e.terms@ == self.terms@ + other.terms@
                &&& sum_val(e.constant, self.constant, other.constant)
            },
            self.constant.den == 1 && other.constant.den == 1
                && -0x7fff_ffff_ffff_ffff <= self.constant.num + other.constant.num
                    <= 0x7fff_ffff_ffff_ffff
                ==> r is Some,
            self.constant.den == 1 && other.constant.den == 1 && (r matches Some(e))
                ==> r->Some_0.constant.den == 1,
    {
        let constant = match self.constant.add(other.constant) {
            Some(k) => k,
            None => { return None; },
        };
        let mut terms: Vec<Term> = Vec::new();
        let mut i: usize = 0;
        while i < self.terms.len()
            invariant
                i <= self.terms@.len(),
                terms@ == self.terms@.subrange(0, i as int),
            decreases self.terms@.len() - i,
        {
            terms.push(self.terms[i]);
            i = i + 1;
        }
        let mut j: usize = 0;
        while j < other.terms.len()
            invariant
                j <= other.terms@.len(),
                terms@ == self.terms@ + other.terms@.subrange(0, j as int),
            decreases other.terms@.len() - j,
        {
            terms.push(other.terms[j]);
            j = j + 1;
        }
        proof {
            assert(terms@ == self.terms@ + other.terms@);
        }
        Some(Expression { terms, constant })
    }

    /// The difference of two expressions: `other`'s terms are negated and
    /// appended, and the constants subtracted.  `None` on component overflow.
    pub fn minus(&self, other: &Expression) -> (r: Option<Expression>)
        requires
            expression_wf(*self),
            expression_wf(*other),
        ensures
            r matches Some(e) ==> {
                &&& expression_wf(e)
                &&& e.terms@.len() == self.terms@.len() + other.terms@.len()
                &&& forall|i: int| 0 <= i < self.terms@.len() ==> e.terms@[i] == self.terms@[i]
                &&& forall|j: int| 0 <= j < other.terms@.len() ==> {
                    &&& (#[trigger] e.terms@[self.terms@.len() + j]).variable
                        == other.terms@[j].variable
                    &&& neg_val(e.terms@[self.terms@.len() + j].coefficient,
                        other.terms@[j].coefficient)
                }
                &&& diff_val(e.constant, self.constant, other.constant)
            },
            self.constant.den == 1 && other.constant.den == 1
                && -0x7fff_ffff_ffff_ffff <= self.constant.num - other.constant.num
                    <= 0x7fff_ffff_ffff_ffff
                && (forall|i: int| 0 <= i < other.terms@.len()
                    ==> (#[trigger] other.terms@[i]).coefficient.num > i64::MIN)
                ==> r is Some,
            self.constant.den == 1 && other.constant.den == 1 && (r matches Some(e))
                ==> r->Some_0.constant.den == 1,
    {
        let constant = match self.constant.sub(other.constant) {
            Some(k) => k,
            None => { return None; },
        };
        let mut terms: Vec<Term> = Vec::new();
        let mut i: usize = 0;
        while i < self.terms.len()
            invariant
                i <= self.terms@.len(),
                terms@ == self.terms@.subrange(0, i as int),
            decreases self.terms@.len() - i,
        {
            terms.push(self.terms[i]);
            i = i + 1;
        }
        proof {
            assert(terms@ == self.terms@);
        }
        let mut j: usize = 0;
        while j < other.terms.len()
            invariant
                j <= other.terms@.len(),
                expression_wf(*self),
                expression_wf(*other),
                terms@.len() == self.terms@.len() + j,
                forall|k: int| 0 <= k < self.terms@.len() ==> terms@[k] == self.terms@[k],
                forall|k: int| 0 <= k < j ==> {
                    &&& (#[trigger] terms@[self.terms@.len() + k]).variable
                        == other.terms@[k].variable
                    &&& neg_val(terms@[self.terms@.len() + k].coefficient,
                        other.terms@[k].coefficient)
                    &&& ratio_wf(terms@[self.terms@.len() + k].coefficient)
                },
            decreases other.terms@.len() - j,
        {
            let c = match other.terms[j].coefficient.neg() {
                Some(c) => c,
                None => { return None; },
            };
            terms.push(Term { variable: other.terms[j].variable, coefficient: c });
            j = j + 1;
        }
        proof {
            assert forall|m: int| 0 <= m < terms@.len()
                implies ratio_wf(#[trigger] terms@[m].coefficient) by {
                if m >= self.terms@.len() {
                    let k = m - self.terms@.len();
                    assert(ratio_wf(terms@[self.terms@.len() + k].coefficient));
                }
            }
        }
        Some(Expression { terms, constant })
    }

    /// The expression scaled by `k`: every coefficient and the constant are
    /// multiplied by `k`.  `None` on component overflow.
    pub fn times(&self, k: Ratio) -> (r: Option<Expression>)
        requires
            expression_wf(*self),
            ratio_wf(k),
        ensures
            r matches Some(e) ==> {
                &&& expression_wf(e)
                &&& e.terms@.len() == self.terms@.len()
                &&& forall|i: int| 0 <= i < self.terms@.len() ==> {
                    &&& (#[trigger] e.terms@[i]).variable == self.terms@[i].variable
                    &&& product_val(e.terms@[i].coefficient, k, self.terms@[i].coefficient)
                }
                &&& product_val(e.constant, k, self.constant)
            },
            k.den == 1 && self.constant.den == 1
                && -0x7fff_ffff_ffff_ffff <= k.num * self.constant.num
                    <= 0x7fff_ffff_ffff_ffff
                && (forall|i: int| 0 <= i < self.terms@.len()
                    ==> (#[trigger] self.terms@[i]).coefficient.den == 1
                        && -0x7fff_ffff_ffff_ffff <= k.num * self.terms@[i].coefficient.num
                            <= 0x7fff_ffff_ffff_ffff)
                ==> r is Some,
    {
        let constant = match k.mul(self.constant) {
            Some(c) => c,
            None => { return None; },
        };
        let mut terms: Vec<Term> = Vec::new();
        let mut i: usize = 0;
        while i < self.terms.len()
            invariant
                i <= self.terms@.len(),
                expression_wf(*self),
                ratio_wf(k),
                terms@.len() == i,
                forall|m: int| 0 <= m < i ==> {
                    &&& (#[trigger] terms@[m]).variable == self.terms@[m].variable
                    &&& product_val(terms@[m].coefficient, k, self.terms@[m].coefficient)
                    &&& ratio_wf(terms@[m].coefficient)
                },
            decreases self.terms@.len() - i,
        {
            let c = match k.mul(self.terms[i].coefficient) {
                Some(c) => c,
                None => { return None; },
            };
            terms.push(Term { variable: self.terms[i].variable, coefficient: c });
            i = i + 1;
        }
        Some(Expression { terms, constant })
    }

    /// The expression divided by `k`: every coefficient and the constant are
    /// divided by `k`.  `None` when `k` is zero or on component overflow.
    pub fn divided_by(&self, k: Ratio) -> (r: Option<Expression>)
        requires
            expression_wf(*self),
            ratio_wf(k),
        ensures
            r matches Some(e) ==> {
                &&& expression_wf(e)
                &&& k.num != 0
                &&& e.terms@.len() == self.terms@.len()
                &&& forall|i: int| 0 <= i < self.terms@.len() ==> {
                    &&& (#[trigger] e.terms@[i]).variable == self.terms@[i].variable
                    &&& quot_val(e.terms@[i].coefficient, self.terms@[i].coefficient, k)
                }
                &&& quot_val(e.constant, self.constant, k)
            },
            k.num == 0 ==> r is None,
            k.den == 1 && k.num != 0 && k.num > i64::MIN
                && self.constant.den == 1 && self.constant.num > i64::MIN
                && (forall|i: int| 0 <= i < self.terms@.len()
                    ==> (#[trigger] self.terms@[i]).coefficient.den == 1
                        && self.terms@[i].coefficient.num > i64::MIN)
                ==> r is Some,
    {
        if k.num == 0 {
            return None;
        }
        let constant = match self.constant.div(k) {
            Some(c) => c,
            None => { return None; },
        };
        let mut terms: Vec<Term> = Vec::new();
        let mut i: usize = 0;
        while i < self.terms.len()
            invariant
                i <= self.terms@.len(),
                expression_wf(*self),
                ratio_wf(k),
                k.num != 0,
                terms@.len() == i,
                forall|m: int| 0 <= m < i ==> {
                    &&& (#[trigger] terms@[m]).variable == self.terms@[m].variable
                    &&& quot_val(terms@[m].coefficient, self.terms@[m].coefficient, k)
                    &&& ratio_wf(terms@[m].coefficient)
                },
            decreases self.terms@.len() - i,
        {
            let c = match self.terms[i].coefficient.div(k) {
                Some(c) => c,
                None => { return None; },
            };
            terms.push(Term { variable: self.terms[i].variable, coefficient: c });
            i = i + 1;
        }
        Some(Expression { terms, constant })
    }
}

/// The relational operator of a constraint.
#[derive(Clone, Copy, Debug, PartialEq, Eq, Structural)]
pub enum RelOp {
    LessOrEqual,
    Equal,
    GreaterOrEqual,
}

/// One relational restriction: `expression OP 0`, at a strength.  The `id`
/// is the constraint's identity: the solver tracks constraints by it.
#[derive(Debug)]
pub struct Constraint {
    pub id: u64,
    pub expression: Expression,
    pub operator: RelOp,
    pub strength: Strength,
}

/// Well-formed: the expression is well-formed and the strength magnitude
/// is at most the required sentinel.
pub open spec fn constraint_wf(c: Constraint) -> bool {
    &&& expression_wf(c.expression)
    &&& c.strength.value <= REQUIRED_MAGNITUDE
}

/// Hands out fresh variable and constraint handles.  Handles are
/// monotonically increasing and never reused, so identity is by construction.
#[derive(Debug)]
pub struct Allocator {
    next_variable: u64,
    next_constraint: u64,
}

impl Allocator {
    /// How many variable handles have been given out.
    pub closed spec fn variables_allocated(self) -> u64 {
        self.next_variable
    }

    /// How many constraint handles have been given out.
    pub closed spec fn constraints_allocated(self) -> u64 {
        self.next_constraint
    }

    /// An allocator that has given out no handles.
    pub fn new() -> (a: Allocator)
        ensures
            a.variables_allocated() == 0,
            a.constraints_allocated() == 0,
    {
        Allocator { next_variable: 0, next_constraint: 0 }
    }

    /// How many variable handles have been given out, as a run-time value.
    pub fn variable_count(&self) -> (n: u64)
        ensures
            n == self.variables_allocated(),
    {
        self.next_variable
    }

    /// How many constraint handles have been given out, as a run-time
    /// value.
    pub fn constraint_count(&self) -> (n: u64)
        ensures
            n == self.constraints_allocated(),
    {
        self.next_constraint
    }

    /// A fresh variable handle, distinct from every earlier one.
    pub fn new_variable(&mut self) -> (v: Variable)
        requires
            old(self).variables_allocated() < u64::MAX,
        ensures
            v.id == old(self).variables_allocated(),
            final(self).variables_allocated() == old(self).variables_allocated() + 1,
            final(self).constraints_allocated() == old(self).constraints_allocated(),
    {
        let v = Variable { id: self.next_variable };
        self.next_variable = self.next_variable + 1;
        v
    }

    /// A constraint `expression OP 0` with a fresh handle, distinct from
    /// every earlier one.
    pub fn new_constraint(&mut self, expression: Expression, operator: RelOp, strength: Strength)
        -> (c: Constraint)
        requires
            old(self).constraints_allocated() < u64::MAX,
            expression_wf(expression),
            strength.value <= REQUIRED_MAGNITUDE,
        ensures
            constraint_wf(c),
            c.id == old(self).constraints_allocated(),
            c.expression == expression,
            c.operator == operator,
            c.strength == strength,
            final(self).constraints_allocated() == old(self).constraints_allocated() + 1,
            final(self).variables_allocated() == old(self).variables_allocated(),
    {
        let id = self.next_constraint;
        self.next_constraint = self.next_constraint + 1;
        Constraint { id, expression, operator, strength }
    }
}

} // verus!
