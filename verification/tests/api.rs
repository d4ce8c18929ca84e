//! The compiler from the outside, with a small driver and a small machine.

use std::collections::{HashMap, HashSet};
use std::path::PathBuf;

use mavros_compiler::abi_helpers::InputValueOrdered;
use mavros_compiler::api::{
    check_ad, check_witgen, compile_ad, compile_to_r1cs, compile_witgen, debug_output_dir,
    random_ad_coeffs, run_ad_from_binary, run_witgen_from_binary, run_witgen_phase1,
    run_witgen_phase2, Backend, Driver, WitgenResult, R1CS,
};
use mavros_compiler::ast::{
    Binary, BinaryOpKind, Expression, ExpressionKind, IntegerBitSize, Literal, SignedField,
    Signedness, Type,
};
use mavros_compiler::field::{Field, FieldElement};
use mavros_compiler::lowering::expression_converter::ExpressionConverter;
use mavros_compiler::ssa::builder::HLFunctionBuilder;
use mavros_compiler::ssa::hlssa::{Constant, Opcode, ValueDef};
use mavros_compiler::text_map::TextMap;

/// A machine that multiplies: a program is a list of factors.
#[derive(Debug)]
struct Multiplier;

#[derive(Clone, Copy, Debug, PartialEq, Eq)]
struct Layout(u64);

/// The value of a field element that fits in 64 bits.
fn small(element: &Field) -> u64 {
    assert_eq!(element.limbs[1..], [0, 0, 0]);
    element.limbs[0]
}

impl Backend for Multiplier {
    type WitnessLayout = Layout;
    type ConstraintsLayout = Layout;
    type Constraint = Opcode;
    type Phase1Result = (u64, u64);
    type AllocationInstrumenter = usize;

    fn run(
        binary: &mut [u64],
        witness_layout: Layout,
        constraints_layout: Layout,
        params: &[InputValueOrdered],
    ) -> WitgenResult {
        binary[0] += 1;
        WitgenResult {
            out_wit_pre_comm: vec![Field::from_u64(witness_layout.0)],
            out_wit_post_comm: vec![Field::from_u64(constraints_layout.0)],
            out_a: vec![Field::from_u64(params.len() as u64)],
            out_b: vec![],
            out_c: vec![],
        }
    }

    fn run_phase1(
        binary: &mut [u64],
        witness_layout: Layout,
        constraints_layout: Layout,
        params: &[InputValueOrdered],
    ) -> (u64, u64) {
        binary[0] *= 10;
        (witness_layout.0 * 100 + constraints_layout.0, params.len() as u64)
    }

    fn run_phase2(
        phase1: (u64, u64),
        challenges: &[Field],
        witness_layout: Layout,
        constraints_layout: Layout,
    ) -> WitgenResult {
        WitgenResult {
            out_wit_pre_comm: vec![Field::from_u64(phase1.0), Field::from_u64(phase1.1)],
            out_wit_post_comm: challenges.to_vec(),
            out_a: vec![Field::from_u64(witness_layout.0)],
            out_b: vec![Field::from_u64(constraints_layout.0)],
            out_c: vec![],
        }
    }

    fn run_ad(
        binary: &mut [u64],
        coeffs: &[Field],
        witness_layout: Layout,
        constraints_layout: Layout,
    ) -> (Vec<Field>, Vec<Field>, Vec<Field>, usize) {
        binary[0] = 0;
        (
            coeffs.to_vec(),
            vec![Field::from_u64(witness_layout.0)],
            vec![Field::from_u64(constraints_layout.0)],
            binary.len(),
        )
    }

    fn check_witgen_output(
        r1cs: &R1CS<Multiplier>,
        pre_comm: &Vec<Field>,
        post_comm: &Vec<Field>,
        a: &Vec<Field>,
        b: &Vec<Field>,
        c: &Vec<Field>,
    ) -> bool {
        let total = small(&a[0]) * small(&b[0]);
        pre_comm.len() + post_comm.len() == r1cs.constraints.len() && total == small(&c[0])
    }

    fn check_ad_output(
        r1cs: &R1CS<Multiplier>,
        coeffs: &[Field],
        a: &[Field],
        b: &[Field],
        c: &[Field],
    ) -> bool {
        coeffs.len() == r1cs.constraints.len() && a.len() == 1 && b.len() == 2 && c.len() == 3
    }
}

#[derive(Debug, PartialEq, Eq)]
enum Failure {
    NoSuchProject,
    At(&'static str, Vec<&'static str>),
}

/// Compiles projects whose one expression is known by the project's name.
struct Compiler {
    root: PathBuf,
    draw_graphs: bool,
    passes: Vec<&'static str>,
    program: Option<Expression>,
    constraints: Vec<Opcode>,
    constants: Vec<Constant>,
    compiled: u64,
}

fn integer(number: u128, bytes: &[u8]) -> Expression {
    let typ = || Type::Integer(Signedness::Unsigned, IntegerBitSize::SixtyFour);
    let literal = SignedField {
        field_element: FieldElement { le_bytes: bytes.to_vec() },
        signed: Some(number as i128),
        unsigned: Some(number),
    };
    Expression {
        kind: ExpressionKind::Literal(Literal::Integer(literal, typ())),
        return_type: Some(typ()),
    }
}

/// `constrain a == b`, where both numbers are 2^64 - 1: beyond the Goldilocks modulus, in which
/// they would be 2^32 - 2.
fn beyond_goldilocks() -> Expression {
    let wrapped = (u32::MAX as u64 - 1).to_le_bytes();
    let equality = Expression {
        kind: ExpressionKind::Binary(Binary {
            lhs: Box::new(integer(u64::MAX as u128, &wrapped)),
            operator: BinaryOpKind::Equal,
            rhs: Box::new(integer(u64::MAX as u128, &u64::MAX.to_le_bytes())),
        }),
        return_type: Some(Type::Bool),
    };
    Expression { kind: ExpressionKind::Constrain(Box::new(equality)), return_type: None }
}

impl Compiler {
    fn pass(&mut self, name: &'static str) -> Result<(), Failure> {
        self.passes.push(name);
        if self.root.ends_with(name) {
            Err(Failure::At(name, self.passes.clone()))
        } else {
            Ok(())
        }
    }
}

impl Driver for Compiler {
    type Project = PathBuf;
    type Machine = Multiplier;
    type Error = Failure;

    fn open_project(root: PathBuf) -> Result<PathBuf, Failure> {
        if root.ends_with("missing") {
            Err(Failure::NoSuchProject)
        } else {
            Ok(root)
        }
    }

    fn new(project: PathBuf, draw_graphs: bool) -> Compiler {
        Compiler {
            root: project,
            draw_graphs,
            passes: vec![],
            program: None,
            constraints: vec![],
            constants: vec![],
            compiled: 0,
        }
    }

    fn run_noir_compiler(&mut self) -> Result<(), Failure> {
        self.program = Some(beyond_goldilocks());
        self.pass("run_noir_compiler")
    }

    fn make_struct_access_static(&mut self) -> Result<(), Failure> {
        self.pass("make_struct_access_static")
    }

    fn monomorphize(&mut self) -> Result<(), Failure> {
        let functions = HashMap::new();
        let unconstrained = HashSet::new();
        let slots = HashMap::new();
        let replacements = TextMap::new();
        let mut builder = HLFunctionBuilder::new();
        let entry = builder.add_block();
        let mut converter = ExpressionConverter::new_with_globals(
            &functions,
            &unconstrained,
            false,
            &slots,
            &replacements,
            entry,
        );
        let program = self.program.as_ref().unwrap();
        assert!(converter.convert_expression(program, &mut builder).is_none());
        for block in builder.blocks() {
            for instruction in &block.instructions {
                if matches!(instruction.op, Opcode::AssertBool) {
                    self.constraints.push(instruction.op);
                }
            }
        }
        for value in builder.values() {
            if let ValueDef::Constant(constant) = value {
                self.constants.push(*constant);
            }
        }
        self.pass("monomorphize")
    }

    fn explictize_witness(&mut self) -> Result<(), Failure> {
        self.pass("explictize_witness")
    }

    fn generate_r1cs(&mut self) -> Result<R1CS<Multiplier>, Failure> {
        self.pass("generate_r1cs")?;
        Ok(R1CS {
            witness_layout: Layout(3),
            constraints_layout: Layout(4),
            constraints: self.constraints.clone(),
        })
    }

    fn compile_witgen(&mut self) -> Result<Vec<u64>, Failure> {
        self.compiled += 1;
        Ok(vec![self.compiled])
    }

    fn compile_ad(&self) -> Result<Vec<u64>, Failure> {
        if self.compiled == 0 {
            Err(Failure::At("compile_ad", vec![]))
        } else {
            Ok(vec![self.compiled, 77])
        }
    }

    fn get_debug_output_dir(&self) -> PathBuf {
        self.root.join("debug")
    }
}

fn fixture(name: &str) -> PathBuf {
    PathBuf::from("noir_tests").join(name)
}

fn system(n: usize) -> R1CS<Multiplier> {
    R1CS {
        witness_layout: Layout(3),
        constraints_layout: Layout(4),
        constraints: vec![Opcode::AssertBool; n],
    }
}

/// Integer constants that exceed the Goldilocks modulus are carried to the constraint system
/// exactly, whatever the source field made of them.
#[test]
fn compiles_beyond_field_u64_to_r1cs() {
    let result = compile_to_r1cs::<Compiler>(fixture("goldilocks_u64"), false);
    let (driver, r1cs) = result.unwrap();
    assert!(!r1cs.constraints.is_empty(), "expected a non-empty R1CS");
    println!("goldilocks_u64 -> {} constraints", r1cs.constraints.len());
    assert_eq!(driver.constants, vec![Constant::U(64, u64::MAX as u128); 2]);
}

#[test]
fn passes_run_once_and_in_order() {
    let (driver, r1cs) = compile_to_r1cs::<Compiler>(fixture("goldilocks_u64"), true).unwrap();
    assert_eq!(
        driver.passes,
        vec![
            "run_noir_compiler",
            "make_struct_access_static",
            "monomorphize",
            "explictize_witness",
            "generate_r1cs",
        ]
    );
    assert!(driver.draw_graphs);
    assert_eq!(r1cs.witness_layout, Layout(3));
    assert_eq!(r1cs.constraints_layout, Layout(4));
}

#[test]
fn the_first_failure_ends_the_compilation() {
    let fails = |name: &str| match compile_to_r1cs::<Compiler>(fixture(name), false) {
        Ok(_) => panic!("{name} compiles"),
        Err(failure) => failure,
    };
    let order = [
        "run_noir_compiler",
        "make_struct_access_static",
        "monomorphize",
        "explictize_witness",
        "generate_r1cs",
    ];
    assert_eq!(fails("missing"), Failure::NoSuchProject);
    for (i, name) in order.iter().enumerate() {
        assert_eq!(fails(name), Failure::At(name, order[..=i].to_vec()));
    }
}

#[test]
fn programs_come_from_the_driver() {
    let (mut driver, _) = compile_to_r1cs::<Compiler>(fixture("goldilocks_u64"), false).unwrap();
    assert_eq!(compile_ad(&driver), Err(Failure::At("compile_ad", vec![])));
    assert_eq!(compile_witgen(&mut driver), Ok(vec![1]));
    assert_eq!(compile_witgen(&mut driver), Ok(vec![2]));
    assert_eq!(compile_ad(&driver), Ok(vec![2, 77]));
    assert_eq!(debug_output_dir(&driver), PathBuf::from("noir_tests/goldilocks_u64/debug"));
}

#[test]
fn runs_are_given_the_layouts() {
    let r1cs = system(2);
    let params = [InputValueOrdered::Field(Field::from_u64(5))];
    let mut binary = [6];
    let result = run_witgen_from_binary(&mut binary, &r1cs, &params);
    assert_eq!(binary, [7]);
    assert_eq!(result.out_wit_pre_comm, vec![Field::from_u64(3)]);
    assert_eq!(result.out_wit_post_comm, vec![Field::from_u64(4)]);
    assert_eq!(result.out_a, vec![Field::from_u64(1)]);
}

#[test]
fn the_second_phase_takes_up_the_first() {
    let r1cs = system(2);
    let mut binary = [6];
    let phase1 = run_witgen_phase1(&mut binary, &r1cs, &[]);
    assert_eq!(binary, [60]);
    assert_eq!(phase1, (304, 0));
    let challenges = [Field::from_u64(8), Field::from_u64(9)];
    let result = run_witgen_phase2(phase1, &challenges, &r1cs);
    assert_eq!(result.out_wit_pre_comm, vec![Field::from_u64(304), Field::from_u64(0)]);
    assert_eq!(result.out_wit_post_comm, challenges.to_vec());
    assert_eq!(result.out_a, vec![Field::from_u64(3)]);
    assert_eq!(result.out_b, vec![Field::from_u64(4)]);
}

/// Systems of other constraints and the same layouts run alike.
#[test]
fn runs_read_the_layouts_only() {
    let run = |count| {
        let mut binary = [6];
        let phase1 = run_witgen_phase1(&mut binary, &system(count), &[]);
        (binary, run_witgen_phase2(phase1, &[Field::from_u64(8)], &system(count)))
    };
    assert_eq!(run(1), run(5));
    let mut other = system(1);
    other.witness_layout = Layout(9);
    assert_ne!(run_witgen_phase1(&mut [6], &other, &[]), (304, 0));
}

#[test]
fn differentiation_takes_the_coefficients() {
    let r1cs = system(1);
    let mut binary = [5, 6, 7];
    let coeffs = [Field::from_u64(2)];
    let (a, b, c, allocated) = run_ad_from_binary(&mut binary, &r1cs, &coeffs);
    assert_eq!(binary, [0, 6, 7]);
    assert_eq!(a, vec![Field::from_u64(2)]);
    assert_eq!(b, vec![Field::from_u64(3)]);
    assert_eq!(c, vec![Field::from_u64(4)]);
    assert_eq!(allocated, 3);
}

#[test]
fn outputs_are_checked() {
    let one = |n| vec![Field::from_u64(n)];
    let witness = |c| WitgenResult {
        out_wit_pre_comm: one(1),
        out_wit_post_comm: one(2),
        out_a: one(6),
        out_b: one(7),
        out_c: one(c),
    };
    assert!(check_witgen(&system(2), &witness(42)));
    assert!(!check_witgen(&system(2), &witness(41)));
    assert!(!check_witgen(&system(3), &witness(42)));
    let elements = |n| vec![Field::from_u64(1); n];
    assert!(check_ad(&system(2), &elements(2), &elements(1), &elements(2), &elements(3)));
    assert!(!check_ad(&system(2), &elements(2), &elements(2), &elements(1), &elements(3)));
    assert!(!check_ad(&system(2), &elements(1), &elements(1), &elements(2), &elements(3)));
}

#[test]
fn one_coefficient_is_drawn_for_each_constraint() {
    assert!(random_ad_coeffs(&system(0)).is_empty());
    let coeffs = random_ad_coeffs(&system(100));
    assert_eq!(coeffs.len(), 100);
    for (i, coeff) in coeffs.iter().enumerate() {
        assert!(coeff.limbs[3] <= 0x30644e72e131a029);
        assert!(!coeffs[..i].contains(coeff));
    }
}
