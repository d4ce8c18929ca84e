# mavros_compiler

The middle of the Mavros compiler, which takes monomorphized Noir programs to constraint systems,
verified with Verus.

- `src/ast.rs` is the monomorphized program, `src/ssa/` the code that it becomes: the instruction
  set, the builder, what instructions do, and how control goes from block to block.
- `src/lowering/` takes expressions to code. `expression_converter.rs` does it, `model.rs` says
  what the code is, `soundness.rs` what every step keeps, `admission.rs` decides which expressions
  have code. `meaning.rs` and `correctness.rs` say what the code of straight lines computes,
  `fate.rs` and `travel.rs` where control goes where there are branches and loops; `laws.rs` holds
  the laws on comparisons, places, casts and literals.
- `src/lowlevel_replacement.rs` looks up and registers the Noir functions that stand in for
  low-level ones.
- `src/abi_helpers.rs` brings the inputs of a program into the order of its ABI.
- `src/ast_interpreter.rs` finds and calls the functions of a program that is interpreted.
- `src/api.rs` runs the passes of a driver, and the machine that generates witnesses.
- `src/field.rs` carries field elements over to bn254, `src/text.rs` and `src/text_map.rs` hold
  what the others need of strings.

`app/` is what reads files and calls the Noir compiler.
