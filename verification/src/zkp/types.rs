use ark_r1cs_std::alloc::AllocVar;
use ark_r1cs_std::boolean::Boolean;
use ark_r1cs_std::eq::EqGadget;
use ark_r1cs_std::uint8::UInt8;
use ark_relations::r1cs::{ConstraintSystem, ConstraintSystemRef, SynthesisError};
use crate::game::field::{Battlefield, CellType, FIELD_SIZE};
use crate::game::ship::ShipType;
use vstd::prelude::*;

verus! {

/// The proof backend's constraint system over the elliptic-curve field,
/// owning every variable gadget allocated in it; callers hold plain index
/// handles into it.  The backend is opaque to verification; what is known
/// of it is stated through `cs_satisfiable`, `u8_values` and `bool_values`
/// by the trusted operations below, which are the only way this crate
/// touches it.
#[verifier::external_body]
pub struct Backend {
    sys: ConstraintSystemRef<ark_ed_on_bls12_381::Fq>,
    bytes: Vec<UInt8<ark_ed_on_bls12_381::Fq>>,
    bools: Vec<Boolean<ark_ed_on_bls12_381::Fq>>,
}

/// Whether every constraint recorded in the system so far holds under the
/// values assigned to its variables.
pub uninterp spec fn cs_satisfiable(sys: Backend) -> bool;

/// The bytes assigned to the backend's allocated byte variables, in
/// allocation order; an assignment is never rewritten once made.
pub uninterp spec fn u8_values(sys: Backend) -> Seq<u8>;

/// The truth values assigned to the backend's boolean variables, in
/// allocation order.
pub uninterp spec fn bool_values(sys: Backend) -> Seq<bool>;

/// Errors of circuit construction and of the satisfiability query.
#[derive(Clone, Copy, PartialEq, Eq, Structural, Debug)]
pub enum VerifyError {
    /// The backend could not resolve a variable's concrete value during
    /// allocation, or the query ran in a mode without assignments.
    AssignmentMissing,
    /// The fleet spec has no entries, or an entry of length zero.
    InvalidFleetSpec,
    /// Any other failure the backend reports.
    BackendFailure,
}

/// Relies on ark-relations' ConstraintSystem::new_ref: a fresh system in
/// proving mode holds no constraints, so it is satisfied, and it owns no
/// variables yet.
#[verifier::external_body]
pub(crate) fn backend_new() -> (r: Backend)
    ensures
        cs_satisfiable(r),
        u8_values(r).len() == 0,
        bool_values(r).len() == 0,
{
    Backend {
        sys: ConstraintSystem::<ark_ed_on_bls12_381::Fq>::new_ref(),
        bytes: Vec::new(),
        bools: Vec::new(),
    }
}

/// Relies on ark-r1cs-std's AllocVar::new_witness on UInt8: the byte is
/// allocated as a private witness whose bits carry exactly `v`, and the
/// booleanity constraints added along the way hold under that assignment.
/// The system is always in proving mode with the value supplied, so the
/// allocation cannot fail.
#[verifier::external_body]
pub(crate) fn allocate_private(sys: &mut Backend, v: u8) -> (r: Result<usize, VerifyError>)
    ensures
        cs_satisfiable(*final(sys)) == cs_satisfiable(*old(sys)),
        u8_values(*final(sys)) == u8_values(*old(sys)).push(v),
        bool_values(*final(sys)) == bool_values(*old(sys)),
        r is Ok,
        r matches Ok(i) ==> i == u8_values(*old(sys)).len(),
{
    match UInt8::new_witness(sys.sys.clone(), || Ok(v)) {
        Ok(var) => {
            sys.bytes.push(var);
            Ok(sys.bytes.len() - 1)
        },
        Err(SynthesisError::AssignmentMissing) => Err(VerifyError::AssignmentMissing),
        Err(_) => Err(VerifyError::BackendFailure),
    }
}

/// Relies on ark-r1cs-std's AllocVar::new_input on UInt8: the byte is
/// allocated as a public input whose bits carry exactly `v`, and the
/// booleanity constraints added along the way hold under that assignment.
/// The system is always in proving mode with the value supplied, so the
/// allocation cannot fail.
#[verifier::external_body]
pub(crate) fn allocate_public(sys: &mut Backend, v: u8) -> (r: Result<usize, VerifyError>)
    ensures
        cs_satisfiable(*final(sys)) == cs_satisfiable(*old(sys)),
        u8_values(*final(sys)) == u8_values(*old(sys)).push(v),
        bool_values(*final(sys)) == bool_values(*old(sys)),
        r is Ok,
        r matches Ok(i) ==> i == u8_values(*old(sys)).len(),
{
    match UInt8::new_input(sys.sys.clone(), || Ok(v)) {
        Ok(var) => {
            sys.bytes.push(var);
            Ok(sys.bytes.len() - 1)
        },
        Err(SynthesisError::AssignmentMissing) => Err(VerifyError::AssignmentMissing),
        Err(_) => Err(VerifyError::BackendFailure),
    }
}

/// Relies on ark-r1cs-std's EqGadget::is_eq on UInt8: the new boolean
/// variable carries whether the two bytes' assigned values are equal, and
/// the helper constraints the gadget adds hold under the honest assignment
/// it computes.  Both handles index variables of this backend, so the
/// constraints land here; on variables allocated in a proving-mode system
/// the gadget cannot fail.
#[verifier::external_body]
pub(crate) fn boolean_equal(sys: &mut Backend, a: usize, b: usize) -> (r: Result<
    usize,
    VerifyError,
>)
    requires
        a < u8_values(*old(sys)).len(),
        b < u8_values(*old(sys)).len(),
    ensures
        cs_satisfiable(*final(sys)) == cs_satisfiable(*old(sys)),
        u8_values(*final(sys)) == u8_values(*old(sys)),
        bool_values(*final(sys)) == bool_values(*old(sys)).push(
            u8_values(*old(sys))[a as int] == u8_values(*old(sys))[b as int],
        ),
        r is Ok,
        r matches Ok(i) ==> i == bool_values(*old(sys)).len(),
{
    match sys.bytes[a].is_eq(&sys.bytes[b]) {
        Ok(var) => {
            sys.bools.push(var);
            Ok(sys.bools.len() - 1)
        },
        Err(SynthesisError::AssignmentMissing) => Err(VerifyError::AssignmentMissing),
        Err(_) => Err(VerifyError::BackendFailure),
    }
}

/// Relies on ark-r1cs-std's EqGadget::enforce_equal between the boolean and
/// the constant true: it adds one constraint, recorded in this backend,
/// that holds exactly when the boolean's assigned value is true.  Every
/// boolean the backend owns stems from `boolean_equal` on allocated
/// variables and is never a constant, the one shape on which the call
/// could fail.
#[verifier::external_body]
pub(crate) fn assert_equal_true(sys: &mut Backend, b: usize) -> (r: Result<(), VerifyError>)
    requires
        b < bool_values(*old(sys)).len(),
    ensures
        cs_satisfiable(*final(sys)) == (cs_satisfiable(*old(sys)) && bool_values(*old(sys))[
            b as int
        ]),
        u8_values(*final(sys)) == u8_values(*old(sys)),
        bool_values(*final(sys)) == bool_values(*old(sys)),
        r is Ok,
{
    match sys.bools[b].enforce_equal(&Boolean::TRUE) {
        Ok(()) => Ok(()),
        Err(SynthesisError::AssignmentMissing) => Err(VerifyError::AssignmentMissing),
        Err(_) => Err(VerifyError::BackendFailure),
    }
}

/// Relies on ark-relations' ConstraintSystemRef::is_satisfied: in proving
/// mode it reports whether every recorded constraint holds under the
/// recorded assignment; it errs only in setup mode, which this crate's
/// systems are never in.
#[verifier::external_body]
pub(crate) fn is_satisfiable(sys: &Backend) -> (r: Result<bool, VerifyError>)
    ensures
        r is Ok,
        r matches Ok(s) ==> s == cs_satisfiable(*sys),
{
    match sys.sys.is_satisfied() {
        Ok(s) => Ok(s),
        Err(SynthesisError::AssignmentMissing) => Err(VerifyError::AssignmentMissing),
        Err(_) => Err(VerifyError::BackendFailure),
    }
}

/// Relies on ark-relations' ConstraintSystemRef::which_is_unsatisfied: it
/// answers None exactly when the system is satisfied, and otherwise the
/// label of the first unsatisfied constraint; it errs only in setup mode,
/// which this crate's systems are never in.
#[verifier::external_body]
pub(crate) fn first_unsatisfied_constraint(sys: &Backend) -> (r: Result<
    Option<String>,
    VerifyError,
>)
    ensures
        r is Ok,
        r matches Ok(o) ==> ((o is None) <==> cs_satisfiable(*sys)),
{
    match sys.sys.which_is_unsatisfied() {
        Ok(o) => Ok(o),
        Err(SynthesisError::AssignmentMissing) => Err(VerifyError::AssignmentMissing),
        Err(_) => Err(VerifyError::BackendFailure),
    }
}

/// The field-element value a cell is lifted to: one when occupied, zero
/// when empty.
pub open spec fn cell_bit(c: CellType) -> u8 {
    if c == CellType::Occupied {
        1u8
    } else {
        0u8
    }
}

/// ShipType lifted into the constraint system as public inputs: the
/// handles of its two byte variables.
pub struct ShipTypeVar {
    /// Handle of the declared ship length's variable.
    pub ship_size: usize,
    /// Handle of the declared count's variable.
    pub count: usize,
}

/// Lifts the plaintext board into the constraint system: one private
/// field-element variable per cell, in index order, each carrying one for
/// an occupied cell and zero for an empty one.
pub fn allocate_board(sys: &mut Backend, field: &Battlefield) -> (r: Result<
    Vec<usize>,
    VerifyError,
>)
    requires
        field.wf(),
    ensures
        cs_satisfiable(*final(sys)) == cs_satisfiable(*old(sys)),
        u8_values(*final(sys)).len() == u8_values(*old(sys)).len() + 100,
        forall|j: int|
            0 <= j < u8_values(*old(sys)).len() ==> u8_values(*final(sys))[j] == u8_values(
                *old(sys),
            )[j],
        bool_values(*final(sys)) == bool_values(*old(sys)),
        r is Ok,
        r matches Ok(vars) ==> vars@.len() == 100 && forall|i: int|
            0 <= i < 100 ==> (#[trigger] vars@[i]) == u8_values(*old(sys)).len() + i && u8_values(
                *final(sys),
            )[vars@[i] as int] == cell_bit(field@[i]),
{
    let mut vars: Vec<usize> = Vec::new();
    let mut i: usize = 0;
    while i < FIELD_SIZE * FIELD_SIZE
        invariant
            field.wf(),
            i <= 100,
            vars@.len() == i,
            cs_satisfiable(*sys) == cs_satisfiable(*old(sys)),
            u8_values(*sys).len() == u8_values(*old(sys)).len() + i,
            bool_values(*sys) == bool_values(*old(sys)),
            forall|j: int|
                0 <= j < u8_values(*old(sys)).len() ==> u8_values(*sys)[j] == u8_values(
                    *old(sys),
                )[j],
            forall|j: int|
                0 <= j < i ==> (#[trigger] vars@[j]) == u8_values(*old(sys)).len() + j
                    && u8_values(*sys)[vars@[j] as int] == cell_bit(field@[j]),
        decreases 100 - i,
    {
        let bit: u8 = match field.0[i] {
            CellType::Occupied => 1,
            CellType::Empty => 0,
        };
        match allocate_private(sys, bit) {
            Ok(h) => vars.push(h),
            Err(e) => {
                return Err(e);
            },
        }
        i = i + 1;
    }
    Ok(vars)
}

/// Lifts one fleet entry into the constraint system: its length and its
/// expected count, both as public inputs.
pub fn allocate_fleet_entry(sys: &mut Backend, entry: ShipType) -> (r: Result<
    ShipTypeVar,
    VerifyError,
>)
    ensures
        cs_satisfiable(*final(sys)) == cs_satisfiable(*old(sys)),
        u8_values(*final(sys)) == u8_values(*old(sys)).push(entry.ship_size).push(entry.count),
        bool_values(*final(sys)) == bool_values(*old(sys)),
        r is Ok,
        r matches Ok(v) ==> v.ship_size == u8_values(*old(sys)).len() && v.count == u8_values(
            *old(sys),
        ).len() + 1,
{
    let ship_size = match allocate_public(sys, entry.ship_size) {
        Ok(h) => h,
        Err(e) => {
            return Err(e);
        },
    };
    let count = match allocate_public(sys, entry.count) {
        Ok(h) => h,
        Err(e) => {
            return Err(e);
        },
    };
    Ok(ShipTypeVar { ship_size, count })
}

} // verus!
