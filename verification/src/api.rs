//! The compiler from the outside: compile a project, generate witnesses, check them.

use std::path::PathBuf;
use vstd::prelude::*;
use crate::abi_helpers::InputValueOrdered;
use crate::field;
use crate::field::Field;

verus! {

/// `std::path::PathBuf`, which is carried through and never looked into.
#[verifier::external_type_specification]
#[verifier::external_body]
pub struct ExPathBuf(PathBuf);

/// The machine that runs the compiled programs, and the constraints that they are to meet.
pub trait Backend: Sized {
    /// Where the parts of a witness lie.
    type WitnessLayout: Copy;

    /// Where the parts of the constraints lie.
    type ConstraintsLayout: Copy;

    type Constraint;

    /// What the first phase of witness generation leaves for the second.
    type Phase1Result;

    /// What was allocated during a run.
    type AllocationInstrumenter;

    fn run(
        binary: &mut [u64],
        witness_layout: Self::WitnessLayout,
        constraints_layout: Self::ConstraintsLayout,
        params: &[InputValueOrdered],
    ) -> WitgenResult;

    fn run_phase1(
        binary: &mut [u64],
        witness_layout: Self::WitnessLayout,
        constraints_layout: Self::ConstraintsLayout,
        params: &[InputValueOrdered],
    ) -> Self::Phase1Result;

    fn run_phase2(
        phase1: Self::Phase1Result,
        challenges: &[Field],
        witness_layout: Self::WitnessLayout,
        constraints_layout: Self::ConstraintsLayout,
    ) -> WitgenResult;

    fn run_ad(
        binary: &mut [u64],
        coeffs: &[Field],
        witness_layout: Self::WitnessLayout,
        constraints_layout: Self::ConstraintsLayout,
    ) -> (Vec<Field>, Vec<Field>, Vec<Field>, Self::AllocationInstrumenter);

    fn check_witgen_output(
        r1cs: &R1CS<Self>,
        pre_comm: &Vec<Field>,
        post_comm: &Vec<Field>,
        a: &Vec<Field>,
        b: &Vec<Field>,
        c: &Vec<Field>,
    ) -> bool;

    fn check_ad_output(
        r1cs: &R1CS<Self>,
        coeffs: &[Field],
        a: &[Field],
        b: &[Field],
        c: &[Field],
    ) -> bool;
}

/// A rank-1 constraint system.
pub struct R1CS<B: Backend> {
    pub witness_layout: B::WitnessLayout,
    pub constraints_layout: B::ConstraintsLayout,
    pub constraints: Vec<B::Constraint>,
}

/// A witness, in its parts before and after the commitment, and the values of the linear forms
/// on both sides of each constraint.
#[derive(Debug, PartialEq, Eq)]
pub struct WitgenResult {
    pub out_wit_pre_comm: Vec<Field>,
    pub out_wit_post_comm: Vec<Field>,
    pub out_a: Vec<Field>,
    pub out_b: Vec<Field>,
    pub out_c: Vec<Field>,
}

/// The compiler's passes over one project, each of which works on what those before it left.
pub trait Driver: Sized {
    type Project;

    type Machine: Backend;

    type Error;

    fn open_project(root: PathBuf) -> Result<Self::Project, Self::Error>;

    fn new(project: Self::Project, draw_graphs: bool) -> Self;

    fn run_noir_compiler(&mut self) -> Result<(), Self::Error>;

    fn make_struct_access_static(&mut self) -> Result<(), Self::Error>;

    fn monomorphize(&mut self) -> Result<(), Self::Error>;

    fn explictize_witness(&mut self) -> Result<(), Self::Error>;

    fn generate_r1cs(&mut self) -> Result<R1CS<Self::Machine>, Self::Error>;

    fn compile_witgen(&mut self) -> Result<Vec<u64>, Self::Error>;

    fn compile_ad(&self) -> Result<Vec<u64>, Self::Error>;

    fn get_debug_output_dir(&self) -> PathBuf;
}

/// A pass that leads up to the constraint system.
#[derive(Clone, Copy, Debug, PartialEq, Eq)]
pub enum Pass {
    RunNoirCompiler,
    MakeStructAccessStatic,
    Monomorphize,
    ExplictizeWitness,
}

/// Runs one pass, and hands the driver back.
pub fn run_pass<D: Driver>(driver: D, pass: Pass) -> (outcome: (D, Result<(), D::Error>))
    ensures
        match pass {
            Pass::RunNoirCompiler => exists|d: &mut D|
                *d == driver && *final(d) == outcome.0 && call_ensures(
                    D::run_noir_compiler,
                    (d,),
                    outcome.1,
                ),
            Pass::MakeStructAccessStatic => exists|d: &mut D|
                *d == driver && *final(d) == outcome.0 && call_ensures(
                    D::make_struct_access_static,
                    (d,),
                    outcome.1,
                ),
            Pass::Monomorphize => exists|d: &mut D|
                *d == driver && *final(d) == outcome.0 && call_ensures(
                    D::monomorphize,
                    (d,),
                    outcome.1,
                ),
            Pass::ExplictizeWitness => exists|d: &mut D|
                *d == driver && *final(d) == outcome.0 && call_ensures(
                    D::explictize_witness,
                    (d,),
                    outcome.1,
                ),
        },
{
    let mut driver = driver;
    let result = match pass {
        Pass::RunNoirCompiler => driver.run_noir_compiler(),
        Pass::MakeStructAccessStatic => driver.make_struct_access_static(),
        Pass::Monomorphize => driver.monomorphize(),
        Pass::ExplictizeWitness => driver.explictize_witness(),
    };
    (driver, result)
}

/// Generates the constraint system, and hands the driver back.
pub fn run_generation<D: Driver>(driver: D) -> (outcome: (D, Result<R1CS<D::Machine>, D::Error>))
    ensures
        exists|d: &mut D|
            *d == driver && *final(d) == outcome.0 && call_ensures(
                D::generate_r1cs,
                (d,),
                outcome.1,
            ),
{
    let mut driver = driver;
    let result = driver.generate_r1cs();
    (driver, result)
}

/// The passes that lead up to the constraint system, in order.
pub open spec fn passes() -> Seq<Pass> {
    seq![
        Pass::RunNoirCompiler,
        Pass::MakeStructAccessStatic,
        Pass::Monomorphize,
        Pass::ExplictizeWitness,
    ]
}

/// `driver` is the driver of the project at `root` before any pass.
pub open spec fn opened<D: Driver>(root: PathBuf, draw_graphs: bool, driver: D) -> bool {
    exists|project: D::Project|
        call_ensures(D::open_project, (root,), Ok::<D::Project, D::Error>(project))
            && #[trigger] call_ensures(D::new, (project, draw_graphs), driver)
}

/// `after` is what the first `n` passes made of `before`, all with success.
pub open spec fn passed<D: Driver>(before: D, n: nat, after: D) -> bool
    decreases n,
{
    if n == 0 {
        after == before
    } else {
        exists|between: D, outcome: Result<(), D::Error>|
            passed(before, (n - 1) as nat, between) && outcome is Ok && #[trigger] call_ensures(
                run_pass::<D>,
                (between, passes()[n - 1]),
                (after, outcome),
            )
    }
}

/// Pass `n`, which comes after passes that all succeeded, ends in `error`.
pub open spec fn failed_at<D: Driver>(before: D, n: nat, error: D::Error) -> bool {
    exists|between: D, after: D|
        passed(before, n, between) && #[trigger] call_ensures(
            run_pass::<D>,
            (between, passes()[n as int]),
            (after, Err::<(), D::Error>(error)),
        )
}

/// Compiles the project at `root` to a constraint system: the project is opened and the passes
/// run in order, up to the first that fails.
pub fn compile_to_r1cs<D: Driver>(root: PathBuf, draw_graphs: bool) -> (result: Result<
    (D, R1CS<D::Machine>),
    D::Error,
>)
    ensures
        match result {
            Ok((driver, r1cs)) => exists|first: D, last: D|
                opened(root, draw_graphs, first) && #[trigger] passed(first, passes().len(), last)
                    && call_ensures(
                    run_generation::<D>,
                    (last,),
                    (driver, Ok::<R1CS<D::Machine>, D::Error>(r1cs)),
                ),
            Err(error) => {
                ||| call_ensures(D::open_project, (root,), Err::<D::Project, D::Error>(error))
                ||| exists|first: D, n: nat|
                    n < passes().len() && opened(root, draw_graphs, first) && #[trigger] failed_at(
                        first,
                        n,
                        error,
                    )
                ||| exists|first: D, last: D, driver: D|
                    opened(root, draw_graphs, first) && #[trigger] passed(
                        first,
                        passes().len(),
                        last,
                    ) && #[trigger] call_ensures(
                        run_generation::<D>,
                        (last,),
                        (driver, Err::<R1CS<D::Machine>, D::Error>(error)),
                    )
            },
        },
{
    let project = match D::open_project(root) {
        Ok(project) => project,
        Err(error) => return Err(error),
    };
    let mut driver = D::new(project, draw_graphs);
    let ghost first = driver;
    let order = [
        Pass::RunNoirCompiler,
        Pass::MakeStructAccessStatic,
        Pass::Monomorphize,
        Pass::ExplictizeWitness,
    ];
    let mut i: usize = 0;
    assert(order@ =~= passes());
    while i < 4
        invariant
            i <= 4,
            order@ == passes(),
            opened(root, draw_graphs, first),
            passed(first, i as nat, driver),
        decreases 4 - i,
    {
        let ghost before = driver;
        let (next, outcome) = run_pass(driver, order[i]);
        driver = next;
        match outcome {
            Ok(()) => {},
            Err(error) => {
                assert(failed_at(first, i as nat, error));
                return Err(error);
            },
        }
        i += 1;
        assert(passed(first, i as nat, driver)) by {
            let n = i as nat;
            assert(passed(first, (n - 1) as nat, before) && outcome is Ok && call_ensures(
                run_pass::<D>,
                (before, passes()[n - 1]),
                (driver, outcome),
            ));
        }
    }
    let (driver, generated) = run_generation(driver);
    match generated {
        Ok(r1cs) => Ok((driver, r1cs)),
        Err(error) => Err(error),
    }
}

/// Compiles the program that generates witnesses.
pub fn compile_witgen<D: Driver>(driver: &mut D) -> (binary: Result<Vec<u64>, D::Error>)
    ensures
        exists|d: &mut D|
            *d == *old(driver) && *final(d) == *final(driver) && call_ensures(
                D::compile_witgen,
                (d,),
                binary,
            ),
{
    driver.compile_witgen()
}

/// Compiles the program that differentiates the constraints.
pub fn compile_ad<D: Driver>(driver: &D) -> (binary: Result<Vec<u64>, D::Error>)
    ensures
        call_ensures(D::compile_ad, (driver,), binary),
{
    driver.compile_ad()
}

/// Where the driver writes what helps to debug the compiler.
pub fn debug_output_dir<D: Driver>(driver: &D) -> (dir: PathBuf)
    ensures
        call_ensures(D::get_debug_output_dir, (driver,), dir),
{
    driver.get_debug_output_dir()
}

/// Generates a witness.
pub fn run_witgen_from_binary<B: Backend>(
    binary: &mut [u64],
    r1cs: &R1CS<B>,
    params: &[InputValueOrdered],
) -> (result: WitgenResult)
    ensures
        exists|machine: &mut [u64]|
            &*machine == &*old(binary) && &*final(machine) == &*final(binary) && call_ensures(
                B::run,
                (machine, r1cs.witness_layout, r1cs.constraints_layout, params),
                result,
            ),
{
    B::run(binary, r1cs.witness_layout, r1cs.constraints_layout, params)
}

/// The first phase of witness generation: runs the program, and gives the part of the witness
/// that is committed to, with what the second phase needs.
pub fn run_witgen_phase1<B: Backend>(
    binary: &mut [u64],
    r1cs: &R1CS<B>,
    params: &[InputValueOrdered],
) -> (phase1: B::Phase1Result)
    ensures
        exists|machine: &mut [u64]|
            &*machine == &*old(binary) && &*final(machine) == &*final(binary) && call_ensures(
                B::run_phase1,
                (machine, r1cs.witness_layout, r1cs.constraints_layout, params),
                phase1,
            ),
{
    B::run_phase1(binary, r1cs.witness_layout, r1cs.constraints_layout, params)
}

/// The second phase of witness generation: completes the witness, given the challenges.
pub fn run_witgen_phase2<B: Backend>(
    phase1: B::Phase1Result,
    challenges: &[Field],
    r1cs: &R1CS<B>,
) -> (result: WitgenResult)
    ensures
        call_ensures(
            B::run_phase2,
            (phase1, challenges, r1cs.witness_layout, r1cs.constraints_layout),
            result,
        ),
{
    B::run_phase2(phase1, challenges, r1cs.witness_layout, r1cs.constraints_layout)
}

/// Differentiates the constraints, weighted by `coeffs`.
pub fn run_ad_from_binary<B: Backend>(
    binary: &mut [u64],
    r1cs: &R1CS<B>,
    coeffs: &[Field],
) -> (result: (Vec<Field>, Vec<Field>, Vec<Field>, B::AllocationInstrumenter))
    ensures
        exists|machine: &mut [u64]|
            &*machine == &*old(binary) && &*final(machine) == &*final(binary) && call_ensures(
                B::run_ad,
                (machine, coeffs, r1cs.witness_layout, r1cs.constraints_layout),
                result,
            ),
{
    B::run_ad(binary, coeffs, r1cs.witness_layout, r1cs.constraints_layout)
}

/// One coefficient for each constraint, drawn at random.
pub fn random_ad_coeffs<B: Backend>(r1cs: &R1CS<B>) -> (coeffs: Vec<Field>)
    ensures
        coeffs@.len() == r1cs.constraints@.len(),
        forall|i: int| 0 <= i < coeffs@.len() ==> (#[trigger] coeffs@[i])@ < field::modulus(),
        forall|i: int|
            0 <= i < coeffs@.len() ==> call_ensures(Field::random, (), #[trigger] coeffs@[i]),
{
    let mut coeffs: Vec<Field> = Vec::new();
    let count = r1cs.constraints.len();
    while coeffs.len() < count
        invariant
            coeffs@.len() <= count,
            forall|i: int| 0 <= i < coeffs@.len() ==> (#[trigger] coeffs@[i])@ < field::modulus(),
            forall|i: int|
                0 <= i < coeffs@.len() ==> call_ensures(Field::random, (), #[trigger] coeffs@[i]),
        decreases count - coeffs@.len(),
    {
        coeffs.push(Field::random());
    }
    coeffs
}

/// Whether a generated witness meets the constraints.
pub fn check_witgen<B: Backend>(r1cs: &R1CS<B>, res: &WitgenResult) -> (valid: bool)
    ensures
        call_ensures(
            B::check_witgen_output,
            (
                r1cs,
                &res.out_wit_pre_comm,
                &res.out_wit_post_comm,
                &res.out_a,
                &res.out_b,
                &res.out_c,
            ),
            valid,
        ),
{
    B::check_witgen_output(
        r1cs,
        &res.out_wit_pre_comm,
        &res.out_wit_post_comm,
        &res.out_a,
        &res.out_b,
        &res.out_c,
    )
}

/// Whether the differentiated constraints are right.
pub fn check_ad<B: Backend>(
    r1cs: &R1CS<B>,
    coeffs: &[Field],
    a: &[Field],
    b: &[Field],
    c: &[Field],
) -> (valid: bool)
    ensures
        call_ensures(B::check_ad_output, (r1cs, coeffs, a, b, c), valid),
{
    B::check_ad_output(r1cs, coeffs, a, b, c)
}

/// The first phase of witness generation reads no more of a constraint system than its layouts: on
/// a machine that always does the same with the same, two systems that agree on them give the same
/// result, and leave the same binary.
pub proof fn law_phase1_reads_the_layouts<B: Backend>(
    first: R1CS<B>,
    second: R1CS<B>,
    params: &[InputValueOrdered],
)
    requires
        first.witness_layout == second.witness_layout,
        first.constraints_layout == second.constraints_layout,
        forall|m: &mut [u64], n: &mut [u64], r: B::Phase1Result, t: B::Phase1Result|
            &*m == &*n && #[trigger] call_ensures(
                B::run_phase1,
                (m, first.witness_layout, first.constraints_layout, params),
                r,
            ) && #[trigger] call_ensures(
                B::run_phase1,
                (n, first.witness_layout, first.constraints_layout, params),
                t,
            ) ==> r == t && &*final(m) == &*final(n),
    ensures
        forall|m: &mut [u64], n: &mut [u64], r: B::Phase1Result, t: B::Phase1Result|
            &*m == &*n && #[trigger] call_ensures(
                run_witgen_phase1::<B>,
                (m, &first, params),
                r,
            ) && #[trigger] call_ensures(run_witgen_phase1::<B>, (n, &second, params), t) ==> r == t
                && &*final(m) == &*final(n),
{
}

/// The second phase of witness generation reads no more of a constraint system than its layouts:
/// on a machine that always does the same with the same, two systems that agree on them give the
/// same result, from the same first phase and the same challenges.
pub proof fn law_phase2_reads_the_layouts<B: Backend>(
    first: R1CS<B>,
    second: R1CS<B>,
    phase1: B::Phase1Result,
    challenges: &[Field],
    one: WitgenResult,
    other: WitgenResult,
)
    requires
        first.witness_layout == second.witness_layout,
        first.constraints_layout == second.constraints_layout,
        forall|r: WitgenResult, t: WitgenResult| #[trigger]
            call_ensures(
                B::run_phase2,
                (phase1, challenges, first.witness_layout, first.constraints_layout),
                r,
            ) && #[trigger] call_ensures(
                B::run_phase2,
                (phase1, challenges, first.witness_layout, first.constraints_layout),
                t,
            ) ==> r == t,
        call_ensures(run_witgen_phase2::<B>, (phase1, challenges, &first), one),
        call_ensures(run_witgen_phase2::<B>, (phase1, challenges, &second), other),
    ensures
        one == other,
{
}

/// The verdict on a witness rests on no more of it than its two parts and the three vectors of the
/// constraints: where the check always says the same of the same, two witnesses that agree on these
/// get the same verdict.
pub proof fn law_the_verdict_reads_five_vectors<B: Backend>(
    r1cs: R1CS<B>,
    one: WitgenResult,
    other: WitgenResult,
    first: bool,
    second: bool,
)
    requires
        one.out_wit_pre_comm == other.out_wit_pre_comm,
        one.out_wit_post_comm == other.out_wit_post_comm,
        one.out_a == other.out_a,
        one.out_b == other.out_b,
        one.out_c == other.out_c,
        forall|r: bool, t: bool| #[trigger]
            call_ensures(
                B::check_witgen_output,
                (
                    &r1cs,
                    &one.out_wit_pre_comm,
                    &one.out_wit_post_comm,
                    &one.out_a,
                    &one.out_b,
                    &one.out_c,
                ),
                r,
            ) && #[trigger] call_ensures(
                B::check_witgen_output,
                (
                    &r1cs,
                    &one.out_wit_pre_comm,
                    &one.out_wit_post_comm,
                    &one.out_a,
                    &one.out_b,
                    &one.out_c,
                ),
                t,
            ) ==> r == t,
        call_ensures(check_witgen::<B>, (&r1cs, &one), first),
        call_ensures(check_witgen::<B>, (&r1cs, &other), second),
    ensures
        first == second,
{
}

/// A project that was compiled was opened and then went through the front end, the struct accesses,
/// monomorphization and the witnesses, in this order, each pass starting from what the one before it
/// left, all with success; what is given is what the generation then gave.
pub proof fn law_a_compiled_project_went_through_every_pass<D: Driver>(
    root: PathBuf,
    draw_graphs: bool,
    driver: D,
    r1cs: R1CS<D::Machine>,
)
    requires
        call_ensures(
            compile_to_r1cs::<D>,
            (root, draw_graphs),
            Ok::<(D, R1CS<D::Machine>), D::Error>((driver, r1cs)),
        ),
    ensures
        exists|d0: D, d1: D, d2: D, d3: D, d4: D|
            opened(root, draw_graphs, d0) && #[trigger] goes(d0, Pass::RunNoirCompiler, d1)
                && #[trigger] goes(d1, Pass::MakeStructAccessStatic, d2) && #[trigger] goes(
                d2,
                Pass::Monomorphize,
                d3,
            ) && #[trigger] goes(d3, Pass::ExplictizeWitness, d4) && call_ensures(
                run_generation::<D>,
                (d4,),
                (driver, Ok::<R1CS<D::Machine>, D::Error>(r1cs)),
            ),
{
    let (d0, d4): (D, D) = choose|first: D, last: D|
        opened(root, draw_graphs, first) && #[trigger] passed(first, passes().len(), last)
            && call_ensures(
            run_generation::<D>,
            (last,),
            (driver, Ok::<R1CS<D::Machine>, D::Error>(r1cs)),
        );
    let d3 = lemma_passed(d0, 4, d4);
    let d2 = lemma_passed(d0, 3, d3);
    let d1 = lemma_passed(d0, 2, d2);
    let start = lemma_passed(d0, 1, d1);
    assert(start == d0);
}

/// A pass leads from one driver to another, with success.
pub open spec fn goes<D: Driver>(before: D, pass: Pass, after: D) -> bool {
    exists|outcome: Result<(), D::Error>|
        outcome is Ok && #[trigger] call_ensures(run_pass::<D>, (before, pass), (after, outcome))
}

proof fn lemma_passed<D: Driver>(before: D, n: nat, after: D) -> (between: D)
    requires
        n > 0,
        passed(before, n, after),
    ensures
        passed(before, (n - 1) as nat, between),
        goes(between, passes()[n - 1], after),
{
    let (between, outcome): (D, Result<(), D::Error>) = choose|
        between: D,
        outcome: Result<(), D::Error>,
    |
        passed(before, (n - 1) as nat, between) && outcome is Ok && #[trigger] call_ensures(
            run_pass::<D>,
            (between, passes()[n - 1]),
            (after, outcome),
        );
    assert(call_ensures(run_pass::<D>, (between, passes()[n - 1]), (after, outcome)));
    between
}

/// A check is handed what it is to check, each part in its place: a verdict on a witness is one that
/// the check gives of its two parts and the three vectors, a verdict on derivatives one that it gives
/// of the coefficients and the three vectors.
pub proof fn law_checks_are_handed_on<B: Backend>(
    r1cs: &R1CS<B>,
    witness: &WitgenResult,
    coeffs: &[Field],
    a: &[Field],
    b: &[Field],
    c: &[Field],
    witness_valid: bool,
    derivatives_valid: bool,
)
    requires
        call_ensures(check_witgen::<B>, (r1cs, witness), witness_valid),
        call_ensures(check_ad::<B>, (r1cs, coeffs, a, b, c), derivatives_valid),
    ensures
        call_ensures(
            B::check_witgen_output,
            (
                r1cs,
                &witness.out_wit_pre_comm,
                &witness.out_wit_post_comm,
                &witness.out_a,
                &witness.out_b,
                &witness.out_c,
            ),
            witness_valid,
        ),
        call_ensures(B::check_ad_output, (r1cs, coeffs, a, b, c), derivatives_valid),
{
}

/// A run is handed the layouts of the constraint system, and what it makes of the binary is what is
/// made of it: on a machine that always does the same with the same, a whole run and a differentiation
/// read no more of a system than its layouts.
pub proof fn law_runs_read_the_layouts<B: Backend>(
    first: R1CS<B>,
    second: R1CS<B>,
    params: &[InputValueOrdered],
    coeffs: &[Field],
)
    requires
        first.witness_layout == second.witness_layout,
        first.constraints_layout == second.constraints_layout,
        forall|m: &mut [u64], n: &mut [u64], r: WitgenResult, t: WitgenResult|
            &*m == &*n && #[trigger] call_ensures(
                B::run,
                (m, first.witness_layout, first.constraints_layout, params),
                r,
            ) && #[trigger] call_ensures(
                B::run,
                (n, first.witness_layout, first.constraints_layout, params),
                t,
            ) ==> r == t && &*final(m) == &*final(n),
        forall|
            m: &mut [u64],
            n: &mut [u64],
            r: (Vec<Field>, Vec<Field>, Vec<Field>, B::AllocationInstrumenter),
            t: (Vec<Field>, Vec<Field>, Vec<Field>, B::AllocationInstrumenter),
        |
            &*m == &*n && #[trigger] call_ensures(
                B::run_ad,
                (m, coeffs, first.witness_layout, first.constraints_layout),
                r,
            ) && #[trigger] call_ensures(
                B::run_ad,
                (n, coeffs, first.witness_layout, first.constraints_layout),
                t,
            ) ==> r == t && &*final(m) == &*final(n),
    ensures
        forall|m: &mut [u64], n: &mut [u64], r: WitgenResult, t: WitgenResult|
            &*m == &*n && #[trigger] call_ensures(
                run_witgen_from_binary::<B>,
                (m, &first, params),
                r,
            ) && #[trigger] call_ensures(run_witgen_from_binary::<B>, (n, &second, params), t) ==> r
                == t && &*final(m) == &*final(n),
        forall|
            m: &mut [u64],
            n: &mut [u64],
            r: (Vec<Field>, Vec<Field>, Vec<Field>, B::AllocationInstrumenter),
            t: (Vec<Field>, Vec<Field>, Vec<Field>, B::AllocationInstrumenter),
        |
            &*m == &*n && #[trigger] call_ensures(
                run_ad_from_binary::<B>,
                (m, &first, coeffs),
                r,
            ) && #[trigger] call_ensures(run_ad_from_binary::<B>, (n, &second, coeffs), t) ==> r
                == t && &*final(m) == &*final(n),
{
}

/// One coefficient is drawn for each constraint, and each is an element of the field.
pub proof fn law_one_coefficient_for_each_constraint<B: Backend>(
    r1cs: &R1CS<B>,
    coeffs: Vec<Field>,
)
    requires
        call_ensures(random_ad_coeffs::<B>, (r1cs,), coeffs),
    ensures
        coeffs@.len() == r1cs.constraints@.len(),
        forall|i: int|
            0 <= i < coeffs@.len() ==> (#[trigger] coeffs@[i])@ < field::modulus() && call_ensures(
                Field::random,
                (),
                coeffs@[i],
            ),
{
}

} // verus!
