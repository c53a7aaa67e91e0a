//! A rank-1 constraint system: variables, linear combinations registered in an
//! arena, constraint triples, and a memoized evaluator.
//!
//! A combination may refer only to combinations registered before it. A
//! reference to any other index (itself, a later one, or one never registered)
//! has no value, so evaluation always terminates and the combination graph is
//! acyclic by construction.
use vstd::prelude::*;

verus! {

use crate::field::{fr_add, fr_mul, FrElement};

/// The index of a linear combination in a constraint system's registry.
#[derive(Copy, Clone, PartialEq, Eq, PartialOrd, Ord, Debug, Hash, Structural)]
pub struct LcIndex(usize);

impl View for LcIndex {
    type V = nat;

    closed spec fn view(&self) -> nat {
        self.0 as nat
    }
}

impl LcIndex {
    /// The position in the registry.
    pub fn index(&self) -> (r: usize)
        ensures
            r as nat == self@,
    {
        self.0
    }
}

/// A variable of the circuit.
#[derive(Copy, Clone, PartialEq, Eq, Debug, Structural)]
pub enum Variable {
    Zero,
    One,
    Public(usize),
    Witness(usize),
    Lc(LcIndex),
}

impl Variable {
    pub fn get_lc_index(&self) -> (r: Option<LcIndex>)
        ensures
            r == (match *self {
                Variable::Lc(index) => Some(index),
                _ => None,
            }),
    {
        match self {
            Variable::Lc(index) => Some(*index),
            _ => None,
        }
    }

    pub fn is_zero(&self) -> (r: bool)
        ensures
            r == (*self is Zero),
    {
        matches!(self, Variable::Zero)
    }

    pub fn is_one(&self) -> (r: bool)
        ensures
            r == (*self is One),
    {
        matches!(self, Variable::One)
    }

    pub fn is_lc(&self) -> (r: bool)
        ensures
            r == (*self is Lc),
    {
        matches!(self, Variable::Lc(_))
    }

    pub fn is_witness_var(&self) -> (r: bool)
        ensures
            r == (*self is Witness),
    {
        matches!(self, Variable::Witness(_))
    }

    pub fn is_public_var(&self) -> (r: bool)
        ensures
            r == (*self is Public),
    {
        matches!(self, Variable::Public(_))
    }
}

/// A weighted sum of variables, as (coefficient, variable) pairs.
#[derive(Clone, Debug, PartialEq, Eq)]
pub struct LinearCombination(pub Vec<(FrElement, Variable)>);

impl Default for LinearCombination {
    fn default() -> (r: LinearCombination)
        ensures
            r.0@.len() == 0,
    {
        LinearCombination(Vec::new())
    }
}

/// The error of the satisfiability check.
#[derive(Copy, Clone, PartialEq, Eq, Debug, Structural)]
pub enum ConstraintSystemError {
    /// An operand of a constraint has no value.
    AssignmentMissing,
}

/// What the values of a constraint system depend on: the assignments and the
/// registered combinations. The evaluation cache is not part of it.
pub struct CircuitModel {
    pub publics: Seq<FrElement>,
    pub witnesses: Seq<FrElement>,
    pub lcs: Seq<LinearCombination>,
}

/// The value of an optional field element.
pub open spec fn opt_value(o: Option<FrElement>) -> Option<nat> {
    match o {
        Some(x) => Some(x@),
        None => None,
    }
}

impl CircuitModel {
    pub open spec fn terms(self, k: nat) -> Seq<(FrElement, Variable)> {
        self.lcs[k as int].0@
    }

    /// The value of a variable that is not a combination.
    pub open spec fn atom_value(self, v: Variable) -> Option<nat> {
        match v {
            Variable::Zero => Some(0),
            Variable::One => Some(1),
            Variable::Public(i) => if i < self.publics.len() {
                Some(self.publics[i as int]@)
            } else {
                None
            },
            Variable::Witness(i) => if i < self.witnesses.len() {
                Some(self.witnesses[i as int]@)
            } else {
                None
            },
            Variable::Lc(_) => None,
        }
    }

    /// The sum of the first `n` terms of combination `k`, or none if one of
    /// them has no value. Inside combination `k`, a reference to combination
    /// `j` has a value only when `j < k`.
    pub open spec fn eval_prefix(self, k: nat, n: nat) -> Option<nat>
        decreases k, n,
    {
        if n == 0 {
            Some(0)
        } else {
            match self.eval_prefix(k, (n - 1) as nat) {
                None => None,
                Some(acc) => {
                    let term = self.terms(k)[n - 1];
                    let val = match term.1 {
                        Variable::Lc(j) => if j@ < k {
                            self.eval_prefix(j@, self.terms(j@).len())
                        } else {
                            None
                        },
                        _ => self.atom_value(term.1),
                    };
                    match val {
                        None => None,
                        Some(x) => Some(fr_add(acc, fr_mul(term.0@, x))),
                    }
                }
            }
        }
    }

    /// The value of combination `k`, if it is registered and all it refers to
    /// has a value.
    pub open spec fn lc_value(self, k: nat) -> Option<nat> {
        if k < self.lcs.len() {
            self.eval_prefix(k, self.terms(k).len())
        } else {
            None
        }
    }

    /// The value of a variable.
    pub open spec fn var_value(self, v: Variable) -> Option<nat> {
        match v {
            Variable::Lc(idx) => self.lc_value(idx@),
            _ => self.atom_value(v),
        }
    }

    /// `self` holds everything `old` holds, at the same places.
    pub open spec fn extends(self, old: CircuitModel) -> bool {
        &&& old.publics.len() <= self.publics.len()
        &&& old.witnesses.len() <= self.witnesses.len()
        &&& old.lcs.len() <= self.lcs.len()
        &&& forall|i: int| 0 <= i < old.publics.len() ==> self.publics[i] == old.publics[i]
        &&& forall|i: int| 0 <= i < old.witnesses.len() ==> self.witnesses[i] == old.witnesses[i]
        &&& forall|i: int| 0 <= i < old.lcs.len() ==> self.lcs[i] == old.lcs[i]
    }
}

/// Once a prefix of a combination has no value, no longer prefix has one.
proof fn lemma_prefix_none(m: CircuitModel, k: nat, n: nat, n2: nat)
    requires
        n <= n2,
        m.eval_prefix(k, n) is None,
    ensures
        m.eval_prefix(k, n2) is None,
    decreases n2,
{
    if n < n2 {
        lemma_prefix_none(m, k, n, (n2 - 1) as nat);
    }
}

/// Values that exist are kept when the model grows.
proof fn lemma_extends_keeps_prefix(old: CircuitModel, new: CircuitModel, k: nat, n: nat)
    requires
        new.extends(old),
        k < old.lcs.len(),
        old.eval_prefix(k, n) is Some,
    ensures
        new.eval_prefix(k, n) == old.eval_prefix(k, n),
    decreases k, n,
{
    if n > 0 {
        lemma_extends_keeps_prefix(old, new, k, (n - 1) as nat);
        let term = old.terms(k)[n - 1];
        assert(new.terms(k) == old.terms(k));
        match term.1 {
            Variable::Lc(j) => {
                if j@ < k {
                    lemma_extends_keeps_prefix(old, new, j@, old.terms(j@).len());
                    assert(new.terms(j@) == old.terms(j@));
                }
            },
            _ => {},
        }
    }
}

/// Values of combinations that exist are kept when the model grows.
proof fn lemma_extends_keeps_lc(old: CircuitModel, new: CircuitModel, k: nat)
    requires
        new.extends(old),
        old.lc_value(k) is Some,
    ensures
        new.lc_value(k) == old.lc_value(k),
{
    lemma_extends_keeps_prefix(old, new, k, old.terms(k).len());
    assert(new.terms(k) == old.terms(k));
}

/// A constraint system over the scalar field.
///
/// Public variable 0 is the constant-one wire. Constraint `i` asserts
/// `value(a[i]) * value(b[i]) == value(c[i])`.
#[derive(Clone, Debug)]
pub struct ConstraintSystem {
    public_assignments: Vec<FrElement>,
    witness_assignments: Vec<FrElement>,
    a_constraints: Vec<LcIndex>,
    b_constraints: Vec<LcIndex>,
    c_constraints: Vec<LcIndex>,
    lcs: Vec<LinearCombination>,
    lc_cache: Vec<Option<FrElement>>,
}

impl ConstraintSystem {
    /// The assignments and combinations, which the values depend on.
    pub closed spec fn model(&self) -> CircuitModel {
        CircuitModel {
            publics: self.public_assignments@,
            witnesses: self.witness_assignments@,
            lcs: self.lcs@,
        }
    }

    /// The three combination indices of each constraint.
    pub closed spec fn constraints(&self) -> Seq<(LcIndex, LcIndex, LcIndex)> {
        Seq::new(
            self.a_constraints@.len(),
            |i: int| (self.a_constraints@[i], self.b_constraints@[i], self.c_constraints@[i]),
        )
    }

    /// The evaluation cache, one entry per registered combination.
    pub closed spec fn cache(&self) -> Seq<Option<FrElement>> {
        self.lc_cache@
    }

    pub closed spec fn wf(&self) -> bool {
        &&& self.public_assignments@.len() >= 1
        &&& self.public_assignments@[0]@ == 1
        &&& self.a_constraints@.len() == self.b_constraints@.len()
        &&& self.a_constraints@.len() == self.c_constraints@.len()
        &&& self.lc_cache@.len() == self.lcs@.len()
        &&& forall|j: int|
            0 <= j < self.lc_cache@.len() && (#[trigger] self.lc_cache@[j]) is Some
                ==> self.model().lc_value(j as nat) == Some(self.lc_cache@[j]->0@)
    }

    /// A cached value is a value: the cache only ever holds what the model gives.
    pub proof fn lemma_cache_sound(&self, j: nat)
        requires
            self.wf(),
            j < self.cache().len(),
            self.cache()[j as int] is Some,
        ensures
            self.model().lc_value(j) == opt_value(self.cache()[j as int]),
    {
    }

    /// The cache has one entry per registered combination.
    pub proof fn lemma_cache_len(&self)
        requires
            self.wf(),
        ensures
            self.cache().len() == self.model().lcs.len(),
    {
    }

    pub fn new() -> (r: ConstraintSystem)
        ensures
            r.wf(),
            r.model().publics.len() == 1,
            r.model().publics[0]@ == 1,
            r.model().witnesses.len() == 0,
            r.model().lcs.len() == 0,
            r.constraints().len() == 0,
            r.cache().len() == 0,
    {
        let mut public_assignments: Vec<FrElement> = Vec::new();
        public_assignments.push(FrElement::one());
        ConstraintSystem {
            public_assignments,
            witness_assignments: Vec::new(),
            a_constraints: Vec::new(),
            b_constraints: Vec::new(),
            c_constraints: Vec::new(),
            lcs: Vec::new(),
            lc_cache: Vec::new(),
        }
    }

    /// Growing the model keeps the cache sound, where the cache only gained
    /// empty entries.
    proof fn lemma_cache_kept(old: &ConstraintSystem, new: &ConstraintSystem)
        requires
            old.wf(),
            new.model().extends(old.model()),
            new.lc_cache@.len() == new.lcs@.len(),
            forall|j: int| 0 <= j < old.lc_cache@.len() ==> new.lc_cache@[j] == old.lc_cache@[j],
            forall|j: int| old.lc_cache@.len() <= j < new.lc_cache@.len() ==> new.lc_cache@[j] is None,
        ensures
            forall|j: int|
                0 <= j < new.lc_cache@.len() && (#[trigger] new.lc_cache@[j]) is Some
                    ==> new.model().lc_value(j as nat) == Some(new.lc_cache@[j]->0@),
    {
        assert forall|j: int|
            0 <= j < new.lc_cache@.len() && (#[trigger] new.lc_cache@[j]) is Some implies
                new.model().lc_value(j as nat) == Some(new.lc_cache@[j]->0@) by {
            assert(old.lc_cache@[j] is Some);
            lemma_extends_keeps_lc(old.model(), new.model(), j as nat);
        }
    }

    /// Appends a public input and returns its variable.
    pub fn new_input_variable(&mut self, val: FrElement) -> (r: Variable)
        requires
            old(self).wf(),
        ensures
            final(self).wf(),
            r == Variable::Public(old(self).model().publics.len() as usize),
            final(self).model().publics == old(self).model().publics.push(val),
            final(self).model().witnesses == old(self).model().witnesses,
            final(self).model().lcs == old(self).model().lcs,
            final(self).constraints() == old(self).constraints(),
            final(self).cache() == old(self).cache(),
    {
        let index = self.public_assignments.len();
        self.public_assignments.push(val);
        proof {
            ConstraintSystem::lemma_cache_kept(old(self), self);
        }
        Variable::Public(index)
    }

    /// Appends a witness value and returns its variable.
    pub fn new_witness_variable(&mut self, val: FrElement) -> (r: Variable)
        requires
            old(self).wf(),
        ensures
            final(self).wf(),
            r == Variable::Witness(old(self).model().witnesses.len() as usize),
            final(self).model().witnesses == old(self).model().witnesses.push(val),
            final(self).model().publics == old(self).model().publics,
            final(self).model().lcs == old(self).model().lcs,
            final(self).constraints() == old(self).constraints(),
            final(self).cache() == old(self).cache(),
    {
        let index = self.witness_assignments.len();
        self.witness_assignments.push(val);
        proof {
            ConstraintSystem::lemma_cache_kept(old(self), self);
        }
        Variable::Witness(index)
    }

    /// Registers a combination under a fresh index and returns its variable.
    /// The combination is not evaluated.
    pub fn new_lc(&mut self, lc: LinearCombination) -> (r: Variable)
        requires
            old(self).wf(),
        ensures
            final(self).wf(),
            r matches Variable::Lc(idx) && idx@ == old(self).model().lcs.len(),
            final(self).model().lcs == old(self).model().lcs.push(lc),
            final(self).model().publics == old(self).model().publics,
            final(self).model().witnesses == old(self).model().witnesses,
            final(self).constraints() == old(self).constraints(),
            final(self).cache() == old(self).cache().push(None),
    {
        let index = LcIndex(self.lcs.len());
        self.lcs.push(lc);
        self.lc_cache.push(None);
        proof {
            ConstraintSystem::lemma_cache_kept(old(self), self);
        }
        Variable::Lc(index)
    }

    /// Registers `a`, `b` and `c` and adds the constraint `a * b == c`.
    pub fn enforce_constraint(
        &mut self,
        a: LinearCombination,
        b: LinearCombination,
        c: LinearCombination,
    )
        requires
            old(self).wf(),
        ensures
            final(self).wf(),
            final(self).model().lcs == old(self).model().lcs.push(a).push(b).push(c),
            final(self).model().publics == old(self).model().publics,
            final(self).model().witnesses == old(self).model().witnesses,
            final(self).constraints().len() == old(self).constraints().len() + 1,
            forall|i: int|
                0 <= i < old(self).constraints().len() ==> final(self).constraints()[i]
                    == old(self).constraints()[i],
            ({
                let n = old(self).model().lcs.len();
                let t = final(self).constraints()[old(self).constraints().len() as int];
                t.0@ == n && t.1@ == n + 1 && t.2@ == n + 2
            }),
            final(self).cache() == old(self).cache().push(None).push(None).push(None),
    {
        let a_index = self.new_lc(a).get_lc_index().unwrap();
        let b_index = self.new_lc(b).get_lc_index().unwrap();
        let c_index = self.new_lc(c).get_lc_index().unwrap();
        self.a_constraints.push(a_index);
        self.b_constraints.push(b_index);
        self.c_constraints.push(c_index);
        proof {
            assert forall|i: int| 0 <= i < old(self).constraints().len() implies
                self.constraints()[i] == old(self).constraints()[i] by {}
        }
    }

    /// The value of a variable. Combinations are evaluated at most once:
    /// the first value found is stored, and later queries read it back.
    ///
    /// Inside combination `k`, a term on combination `j` has a value only
    /// when `j < k`: a reference to `k` itself or to a combination registered
    /// after it has no value (see `lemma_later_reference_has_no_value`). This
    /// rules out cycles without a check at registration time; within one
    /// system such a reference can only be written with an index taken from
    /// another system.
    pub fn assigned_value(&mut self, v: Variable) -> (r: Option<FrElement>)
        requires
            old(self).wf(),
        ensures
            final(self).wf(),
            final(self).model() == old(self).model(),
            final(self).constraints() == old(self).constraints(),
            opt_value(r) == old(self).model().var_value(v),
            final(self).cache().len() == old(self).cache().len(),
            forall|j: int|
                0 <= j < old(self).cache().len() && (#[trigger] old(self).cache()[j]) is Some
                    ==> final(self).cache()[j] == old(self).cache()[j],
            !(v is Lc) ==> final(self).cache() == old(self).cache(),
            v matches Variable::Lc(idx) ==> (idx@ < old(self).cache().len() && old(
                self,
            ).cache()[idx@ as int] is Some ==> final(self).cache() == old(self).cache() && r
                == old(self).cache()[idx@ as int]),
            v matches Variable::Lc(idx) ==> (r is Some ==> final(self).cache()[idx@ as int] == r),
        decreases
                (match v {
                Variable::Lc(idx) => idx@ + 1,
                _ => 0,
            }),
            1int,
    {
        match v {
            Variable::One => Some(FrElement::one()),
            Variable::Zero => Some(FrElement::zero()),
            Variable::Witness(i) => {
                if i < self.witness_assignments.len() {
                    Some(self.witness_assignments[i])
                } else {
                    None
                }
            },
            Variable::Public(i) => {
                if i < self.public_assignments.len() {
                    Some(self.public_assignments[i])
                } else {
                    None
                }
            },
            Variable::Lc(idx) => {
                if idx.0 < self.lc_cache.len() {
                    if let Some(val) = self.lc_cache[idx.0] {
                        return Some(val);
                    }
                }
                let value = self.eval_lc(idx.0);
                match value {
                    Some(val) => {
                        if idx.0 < self.lc_cache.len() {
                            self.lc_cache.set(idx.0, Some(val));
                        }
                        Some(val)
                    },
                    None => None,
                }
            },
        }
    }

    /// Evaluates combination `k` term by term, resolving its variables
    /// through the memoized evaluator. A term on a combination `j >= k` has
    /// no value, so the evaluation fails there.
    fn eval_lc(&mut self, k: usize) -> (r: Option<FrElement>)
        requires
            old(self).wf(),
        ensures
            final(self).wf(),
            final(self).model() == old(self).model(),
            final(self).constraints() == old(self).constraints(),
            opt_value(r) == old(self).model().lc_value(k as nat),
            final(self).cache().len() == old(self).cache().len(),
            forall|j: int|
                0 <= j < old(self).cache().len() && (#[trigger] old(self).cache()[j]) is Some
                    ==> final(self).cache()[j] == old(self).cache()[j],
        decreases k + 1, 0int,
    {
        if k >= self.lcs.len() {
            return None;
        }
        let ghost m = self.model();
        let ghost c0 = self.cache();
        let n = self.lcs[k].0.len();
        let mut acc = FrElement::zero();
        let mut i: usize = 0;
        while i < n
            invariant
                self.wf(),
                self.model() == m,
                self.constraints() == old(self).constraints(),
                m == old(self).model(),
                k < m.lcs.len(),
                n == m.terms(k as nat).len(),
                i <= n,
                m.eval_prefix(k as nat, i as nat) == Some(acc@),
                self.cache().len() == c0.len(),
                c0 == old(self).cache(),
                forall|j: int|
                    0 <= j < c0.len() && (#[trigger] c0[j]) is Some ==> self.cache()[j] == c0[j],
            decreases n - i,
        {
            let (coeff, var) = self.lcs[k].0[i];
            assert((coeff, var) == m.terms(k as nat)[i as int]);
            let val = match var {
                Variable::Lc(j) => {
                    if j.0 < k {
                        self.assigned_value(var)
                    } else {
                        None
                    }
                },
                _ => self.assigned_value(var),
            };
            match val {
                Some(x) => {
                    acc = acc.add(&coeff.mul(&x));
                },
                None => {
                    proof {
                        lemma_prefix_none(m, k as nat, (i + 1) as nat, n as nat);
                    }
                    return None;
                },
            }
            i = i + 1;
        }
        Some(acc)
    }

    /// The values of the three operands of constraint `i`.
    pub open spec fn operand_values(&self, i: int) -> (Option<nat>, Option<nat>, Option<nat>) {
        let t = self.constraints()[i];
        (self.model().lc_value(t.0@), self.model().lc_value(t.1@), self.model().lc_value(t.2@))
    }

    /// Every operand of constraint `i` has a value.
    pub open spec fn constraint_evaluable(&self, i: int) -> bool {
        let (a, b, c) = self.operand_values(i);
        a is Some && b is Some && c is Some
    }

    /// Constraint `i` can be evaluated and holds.
    pub open spec fn constraint_holds(&self, i: int) -> bool {
        let (a, b, c) = self.operand_values(i);
        self.constraint_evaluable(i) && fr_mul(a->0, b->0) == c->0
    }

    /// Checks the constraints in order and stops at the first one that cannot
    /// be evaluated (an error) or does not hold (its index is returned).
    /// `Ok(None)` means that every constraint holds.
    pub fn which_is_unsatisfied(&mut self) -> (r: Result<Option<usize>, ConstraintSystemError>)
        requires
            old(self).wf(),
        ensures
            final(self).wf(),
            final(self).model() == old(self).model(),
            final(self).constraints() == old(self).constraints(),
            final(self).cache().len() == old(self).cache().len(),
            forall|j: int|
                0 <= j < old(self).cache().len() && (#[trigger] old(self).cache()[j]) is Some
                    ==> final(self).cache()[j] == old(self).cache()[j],
            r == Ok::<Option<usize>, ConstraintSystemError>(None) <==> forall|i: int|
                0 <= i < old(self).constraints().len() ==> #[trigger] old(self).constraint_holds(i),
            r matches Ok(Some(i)) ==> {
                &&& i < old(self).constraints().len()
                &&& forall|t: int| 0 <= t < i ==> #[trigger] old(self).constraint_holds(t)
                &&& old(self).constraint_evaluable(i as int)
                &&& !old(self).constraint_holds(i as int)
            },
            r is Err <==> exists|i: int|
                {
                    &&& 0 <= i < old(self).constraints().len()
                    &&& forall|t: int| 0 <= t < i ==> #[trigger] old(self).constraint_holds(t)
                    &&& !(#[trigger] old(self).constraint_evaluable(i))
                },
    {
        let ghost s0 = *self;
        let n = self.a_constraints.len();
        let mut i: usize = 0;
        while i < n
            invariant
                self.wf(),
                self.model() == s0.model(),
                self.constraints() == s0.constraints(),
                s0 == *old(self),
                n == s0.constraints().len(),
                i <= n,
                forall|t: int| 0 <= t < i ==> #[trigger] s0.constraint_holds(t),
                self.cache().len() == s0.cache().len(),
                forall|j: int|
                    0 <= j < s0.cache().len() && (#[trigger] s0.cache()[j]) is Some
                        ==> self.cache()[j] == s0.cache()[j],
            decreases n - i,
        {
            let a_idx = self.a_constraints[i];
            let b_idx = self.b_constraints[i];
            let c_idx = self.c_constraints[i];
            assert(s0.constraints()[i as int] == (a_idx, b_idx, c_idx));
            let a = self.assigned_value(Variable::Lc(a_idx));
            let b = self.assigned_value(Variable::Lc(b_idx));
            let c = self.assigned_value(Variable::Lc(c_idx));
            match (a, b, c) {
                (Some(a), Some(b), Some(c)) => {
                    if !a.mul(&b).equals(&c) {
                        proof {
                            assert(!s0.constraint_holds(i as int));
                            assert(s0.constraint_evaluable(i as int));
                            assert forall|j: int|
                                0 <= j < n && (forall|t: int|
                                    0 <= t < j ==> #[trigger] s0.constraint_holds(t)) implies
                                    #[trigger] s0.constraint_evaluable(j) by {
                                if j > i {
                                    assert(s0.constraint_holds(i as int));
                                } else if j == i {
                                    assert(s0.constraint_evaluable(i as int));
                                } else {
                                    assert(s0.constraint_holds(j));
                                }
                            }
                        }
                        return Ok(Some(i));
                    }
                },
                _ => {
                    proof {
                        assert(!s0.constraint_evaluable(i as int));
                        assert(!s0.constraint_holds(i as int));
                    }
                    return Err(ConstraintSystemError::AssignmentMissing);
                },
            }
            i = i + 1;
        }
        proof {
            assert forall|j: int|
                0 <= j < n && (forall|t: int|
                    0 <= t < j ==> #[trigger] s0.constraint_holds(t)) implies
                    #[trigger] s0.constraint_evaluable(j) by {
                assert(s0.constraint_holds(j));
            }
        }
        Ok(None)
    }

    /// The number of public variables, the constant-one wire included.
    pub fn num_public_vars(&self) -> (r: usize)
        ensures
            r == self.model().publics.len(),
    {
        self.public_assignments.len()
    }

    /// The number of witness variables.
    pub fn num_witness_vars(&self) -> (r: usize)
        ensures
            r == self.model().witnesses.len(),
    {
        self.witness_assignments.len()
    }

    /// The number of constraints.
    pub fn num_constraints(&self) -> (r: usize)
        ensures
            r == self.constraints().len(),
    {
        self.a_constraints.len()
    }

    /// The number of registered linear combinations.
    pub fn num_linear_combs(&self) -> (r: usize)
        ensures
            r == self.model().lcs.len(),
    {
        self.lcs.len()
    }

    /// The public assignments in index order.
    pub fn public_assignments(&self) -> (r: &Vec<FrElement>)
        ensures
            r@ == self.model().publics,
    {
        &self.public_assignments
    }

    /// The witness assignments in index order.
    pub fn witness_assignments(&self) -> (r: &Vec<FrElement>)
        ensures
            r@ == self.model().witnesses,
    {
        &self.witness_assignments
    }

    /// The combination indices `(a, b, c)` of constraint `i`.
    pub fn constraint(&self, i: usize) -> (r: Option<(LcIndex, LcIndex, LcIndex)>)
        requires
            self.wf(),
        ensures
            i < self.constraints().len() ==> r == Some(self.constraints()[i as int]),
            i >= self.constraints().len() ==> r is None,
    {
        if i < self.a_constraints.len() {
            Some((self.a_constraints[i], self.b_constraints[i], self.c_constraints[i]))
        } else {
            None
        }
    }

    /// The combination registered under `idx`.
    pub fn linear_combination(&self, idx: LcIndex) -> (r: Option<&LinearCombination>)
        ensures
            idx@ < self.model().lcs.len() ==> r == Some(&self.model().lcs[idx@ as int]),
            idx@ >= self.model().lcs.len() ==> r is None,
    {
        if idx.0 < self.lcs.len() {
            Some(&self.lcs[idx.0])
        } else {
            None
        }
    }
}

/// In every well-formed system, and so after any sequence of operations
/// from `new`, the public variable 0 and the constant `One` both have the
/// value one.
pub proof fn lemma_constant_wire(cs: &ConstraintSystem)
    requires
        cs.wf(),
    ensures
        cs.model().var_value(Variable::Public(0)) == Some(1nat),
        cs.model().var_value(Variable::One) == Some(1nat),
{
}

/// A combination with a term on a witness that was never allocated has no
/// value, so a constraint that uses it cannot be evaluated.
pub proof fn lemma_missing_witness(m: CircuitModel, k: nat, t: int, i: usize)
    requires
        k < m.lcs.len(),
        0 <= t < m.terms(k).len(),
        m.terms(k)[t].1 == Variable::Witness(i),
        i >= m.witnesses.len(),
    ensures
        m.lc_value(k) is None,
{
    assert(m.eval_prefix(k, (t + 1) as nat) is None);
    lemma_prefix_none(m, k, (t + 1) as nat, m.terms(k).len());
}

/// A combination with a term on itself or on a combination registered after
/// it has no value: references go to earlier combinations only.
pub proof fn lemma_later_reference_has_no_value(m: CircuitModel, k: nat, t: int, j: LcIndex)
    requires
        k < m.lcs.len(),
        0 <= t < m.terms(k).len(),
        m.terms(k)[t].1 == Variable::Lc(j),
        j@ >= k,
    ensures
        m.lc_value(k) is None,
{
    assert(m.eval_prefix(k, (t + 1) as nat) is None);
    lemma_prefix_none(m, k, (t + 1) as nat, m.terms(k).len());
}

/// A missing value propagates outwards: a combination with a term on an
/// earlier combination that has no value has no value either. With
/// `lemma_missing_witness`, a witness that was never allocated, reached
/// through any chain of combinations, leaves the outermost one without a
/// value.
pub proof fn lemma_missing_value_propagates(m: CircuitModel, k: nat, t: int, j: LcIndex)
    requires
        k < m.lcs.len(),
        0 <= t < m.terms(k).len(),
        m.terms(k)[t].1 == Variable::Lc(j),
        j@ < k,
        m.lc_value(j@) is None,
    ensures
        m.lc_value(k) is None,
{
    assert(m.eval_prefix(k, (t + 1) as nat) is None);
    lemma_prefix_none(m, k, (t + 1) as nat, m.terms(k).len());
}

/// The values allocated by a sequence of calls: `Some(v)` for a call of
/// `new_witness_variable(v)`, `None` for a call of any other method.
pub open spec fn allocated_witnesses(calls: Seq<Option<FrElement>>) -> Seq<FrElement>
    decreases calls.len(),
{
    if calls.len() == 0 {
        Seq::empty()
    } else {
        let rest = allocated_witnesses(calls.drop_last());
        match calls.last() {
            Some(v) => rest.push(v),
            None => rest,
        }
    }
}

/// Allocation order: along a sequence of systems that starts with no witness,
/// where each step appends the value of a `new_witness_variable` call or, for
/// any other method, keeps the witnesses as they were, the witnesses at the
/// end are exactly the values passed, in order, and witness `i` reads back
/// as the value of allocation `i`.
pub proof fn lemma_witness_allocation_order(
    states: Seq<CircuitModel>,
    calls: Seq<Option<FrElement>>,
)
    requires
        states.len() == calls.len() + 1,
        states[0].witnesses.len() == 0,
        forall|i: int|
            0 <= i < calls.len() ==> match #[trigger] calls[i] {
                Some(v) => states[i + 1].witnesses == states[i].witnesses.push(v),
                None => states[i + 1].witnesses == states[i].witnesses,
            },
    ensures
        states.last().witnesses == allocated_witnesses(calls),
        forall|i: usize|
            i < allocated_witnesses(calls).len() ==> #[trigger] states.last().var_value(
                Variable::Witness(i),
            ) == Some(allocated_witnesses(calls)[i as int]@),
    decreases calls.len(),
{
    if calls.len() > 0 {
        let n = calls.len() - 1;
        lemma_witness_allocation_order(states.drop_last(), calls.drop_last());
        assert(calls.drop_last() =~= calls.subrange(0, n));
        assert(states.drop_last().last() == states[n]);
    }
}

/// Memoization: once a read of combination `idx` has found a value (so the
/// system after it is as `assigned_value` leaves it), the value sits in the
/// cache, so the next read of `idx` takes the cached branch, changes nothing
/// and returns the same value.
pub proof fn lemma_second_read_is_cached(
    before: &ConstraintSystem,
    after: &ConstraintSystem,
    idx: LcIndex,
    r: Option<FrElement>,
)
    requires
        before.wf(),
        after.wf(),
        after.model() == before.model(),
        opt_value(r) == before.model().lc_value(idx@),
        r is Some,
        after.cache()[idx@ as int] == r,
    ensures
        idx@ < after.cache().len(),
        after.cache()[idx@ as int] == r,
        opt_value(after.cache()[idx@ as int]) == after.model().var_value(Variable::Lc(idx)),
{
}

} // verus!
