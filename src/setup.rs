//! Setup tables for a permutation argument: the evaluation domain and the
//! permutation coefficients of the copy constraints.
use vstd::prelude::*;

verus! {

use crate::field::{fr_mul, fr_pow, values, FrElement};

/// The error of malformed setup inputs.
#[derive(Copy, Clone, PartialEq, Eq, Debug, Structural)]
pub enum SetupError {
    /// The domain has no element.
    EmptyDomain,
    /// The entry at this position of the permutation is not an index into the
    /// identity table.
    PermutationIndexOutOfRange(usize),
}

/// The evaluation domain `[1, omega, omega^2, ..., omega^(size - 1)]`.
pub open spec fn domain_values(omega: nat, size: nat) -> Seq<nat> {
    Seq::new(size, |i: int| fr_pow(omega, i as nat))
}

/// The factor of column `col` of the identity table: `1`, `u` or `u * u`.
pub open spec fn coset_factor(u: nat, col: int) -> nat {
    if col == 0 {
        1
    } else if col == 1 {
        u
    } else {
        fr_mul(u, u)
    }
}

/// The three columns `domain * u^c` for `c` in 0, 1, 2, one after another.
pub open spec fn identity_table(domain: Seq<nat>, u: nat) -> Seq<nat> {
    Seq::new(
        3 * domain.len(),
        |i: int| fr_mul(domain[i % domain.len() as int], coset_factor(u, i / domain.len() as int)),
    )
}

/// The table whose entry `i` is entry `perm[i]` of `table`.
pub open spec fn apply_permutation(table: Seq<nat>, perm: Seq<usize>) -> Seq<nat> {
    Seq::new(perm.len(), |i: int| table[perm[i] as int])
}

/// Generates the evaluation domain `1, omega, omega^2, ...` of `size` elements.
/// A domain of size 0 is rejected.
pub fn generate_domain(omega: &FrElement, size: usize) -> (r: Result<Vec<FrElement>, SetupError>)
    ensures
        size == 0 <==> r == Err::<Vec<FrElement>, SetupError>(SetupError::EmptyDomain),
        size > 0 ==> (r matches Ok(v) && values(v@) == domain_values(omega@, size as nat)),
{
    if size == 0 {
        return Err(SetupError::EmptyDomain);
    }
    let mut r: Vec<FrElement> = Vec::new();
    let mut cur = FrElement::one();
    let mut i: usize = 0;
    while i < size
        invariant
            i <= size,
            r@.len() == i,
            cur@ == fr_pow(omega@, i as nat),
            forall|j: int| 0 <= j < i ==> (#[trigger] r@[j])@ == fr_pow(omega@, j as nat),
        decreases size - i,
    {
        r.push(cur);
        cur = cur.mul(omega);
        i = i + 1;
    }
    assert(values(r@) =~= domain_values(omega@, size as nat));
    Ok(r)
}

/// The identity table: each domain element times `1`, `u` and `u * u`, in
/// three consecutive columns.
fn identity_permutation(domain: &[FrElement], u: &FrElement) -> (r: Vec<FrElement>)
    requires
        domain@.len() * 3 <= usize::MAX,
    ensures
        values(r@) == identity_table(values(domain@), u@),
{
    let n = domain.len();
    let u_powers: [FrElement; 3] = [FrElement::one(), *u, u.mul(u)];
    let mut r: Vec<FrElement> = Vec::new();
    let mut col: usize = 0;
    while col < 3
        invariant
            n == domain@.len(),
            n * 3 <= usize::MAX,
            col <= 3,
            u_powers[0]@ == 1,
            u_powers[1]@ == u@,
            u_powers[2]@ == fr_mul(u@, u@),
            r@.len() == col * n,
            forall|j: int|
                0 <= j < col * n ==> (#[trigger] r@[j])@ == fr_mul(
                    domain@[j % n as int]@,
                    coset_factor(u@, j / n as int),
                ),
        decreases 3 - col,
    {
        let mut i: usize = 0;
        while i < n
            invariant
                n == domain@.len(),
                n * 3 <= usize::MAX,
                col < 3,
                i <= n,
                u_powers[0]@ == 1,
                u_powers[1]@ == u@,
                u_powers[2]@ == fr_mul(u@, u@),
                r@.len() == col * n + i,
                forall|j: int|
                    0 <= j < col * n + i ==> (#[trigger] r@[j])@ == fr_mul(
                        domain@[j % n as int]@,
                        coset_factor(u@, j / n as int),
                    ),
            decreases n - i,
        {
            proof {
                assert((col * n + i) % (n as int) == i as int && (col * n + i) / (n as int) == col as int)
                    by (nonlinear_arith)
                    requires i < n;
            }
            r.push(domain[i].mul(&u_powers[col]));
            i = i + 1;
        }
        proof {
            assert((col + 1) * n == col * n + n) by (nonlinear_arith);
        }
        col = col + 1;
    }
    assert(values(r@) =~= identity_table(values(domain@), u@));
    r
}

/// The permutation coefficients of the copy constraints: entry `i` is entry
/// `permutation[i]` of the identity table built from `domain` and the coset
/// generator. Fails on an empty domain, and otherwise on the first entry that
/// is not an index into the table.
pub fn generate_permutation_coefficients(
    domain: &[FrElement],
    permutation: &[usize],
    order_r_minus_1_root_unity: &FrElement,
) -> (r: Result<Vec<FrElement>, SetupError>)
    requires
        domain@.len() * 3 <= usize::MAX,
    ensures
        r matches Ok(v) ==> values(v@) == apply_permutation(
            identity_table(values(domain@), order_r_minus_1_root_unity@),
            permutation@,
        ),
        r is Ok <==> domain@.len() > 0 && forall|i: int|
            0 <= i < permutation@.len() ==> #[trigger] permutation@[i] < 3 * domain@.len(),
        r == Err::<Vec<FrElement>, SetupError>(SetupError::EmptyDomain) <==> domain@.len() == 0,
        r matches Err(SetupError::PermutationIndexOutOfRange(p)) ==> {
            &&& p < permutation@.len()
            &&& permutation@[p as int] >= 3 * domain@.len()
            &&& forall|i: int| 0 <= i < p ==> #[trigger] permutation@[i] < 3 * domain@.len()
        },
{
    if domain.len() == 0 {
        return Err(SetupError::EmptyDomain);
    }
    let identity = identity_permutation(domain, order_r_minus_1_root_unity);
    let ghost table = identity_table(values(domain@), order_r_minus_1_root_unity@);
    assert(identity@.len() == table.len());
    let mut r: Vec<FrElement> = Vec::new();
    let mut i: usize = 0;
    while i < permutation.len()
        invariant
            domain@.len() > 0,
            values(identity@) == table,
            identity@.len() == 3 * domain@.len(),
            i <= permutation@.len(),
            r@.len() == i,
            forall|j: int| 0 <= j < i ==> #[trigger] permutation@[j] < 3 * domain@.len(),
            forall|j: int| 0 <= j < i ==> (#[trigger] r@[j])@ == table[permutation@[j] as int],
        decreases permutation@.len() - i,
    {
        let index = permutation[i];
        if index >= identity.len() {
            return Err(SetupError::PermutationIndexOutOfRange(i));
        }
        assert(identity@[index as int]@ == table[index as int]);
        r.push(identity[index]);
        i = i + 1;
    }
    assert(values(r@) =~= apply_permutation(table, permutation@));
    Ok(r)
}

/// In a domain generated by an element whose `m`-th power is one, the domain
/// starts at one and its last element times the generator comes back to the
/// first: the domain is a cyclic group.
pub proof fn lemma_domain_closes(omega: nat, m: nat)
    requires
        m > 0,
        fr_pow(omega, m) == 1,
    ensures
        domain_values(omega, m)[0] == 1,
        fr_mul(domain_values(omega, m)[m - 1], omega) == domain_values(omega, m)[0],
{
    assert(fr_pow(omega, 0) == 1);
}

/// The identity permutation leaves a table as it is.
pub proof fn lemma_identity_permutation_unchanged(table: Seq<nat>, perm: Seq<usize>)
    requires
        perm.len() == table.len(),
        forall|i: int| 0 <= i < perm.len() ==> #[trigger] perm[i] == i,
    ensures
        apply_permutation(table, perm) == table,
{
    assert(apply_permutation(table, perm) =~= table);
}

/// Applying a permutation that is its own inverse twice gives the table back.
pub proof fn lemma_involution_round_trip(table: Seq<nat>, perm: Seq<usize>)
    requires
        perm.len() == table.len(),
        forall|i: int| 0 <= i < perm.len() ==> #[trigger] perm[i] < perm.len(),
        forall|i: int| 0 <= i < perm.len() ==> perm[#[trigger] perm[i] as int] == i,
    ensures
        apply_permutation(apply_permutation(table, perm), perm) == table,
{
    assert(apply_permutation(apply_permutation(table, perm), perm) =~= table);
}

/// A fixed source of blinding values that always gives zero, so that proofs
/// built with it are deterministic and carry no zero knowledge.
#[derive(Copy, Clone, Debug)]
pub struct TestRandomFieldGenerator;

impl TestRandomFieldGenerator {
    pub fn generate(&self) -> (r: FrElement)
        ensures
            r@ == 0,
    {
        FrElement::zero()
    }
}

} // verus!
