//! Replacements for low-level functions: looked up, registered, and called.

use mavros_compiler::ast::FuncId;
use mavros_compiler::lowering::replacement::LowLevelReplacement;
use mavros_compiler::lowlevel_replacement::{
    add_lowlevel_replacements, find_functions_in_crate, functions_to_queue,
    prepare_replacement_crate, replacement_crates, BuildField, Error, ReplacementCrate,
    ReplacementKind, ReplacementSpec,
};
use mavros_compiler::text_map::TextMap;

fn crates() -> Vec<ReplacementCrate> {
    replacement_crates("// p".to_string(), "// s".to_string(), "// f".to_string())
}

/// A crate with one sized and two single replacements.
fn mixed() -> ReplacementCrate {
    let single = |name: &str, function: &str| ReplacementSpec {
        lowlevel_name: name.to_string(),
        kind: ReplacementKind::Single(function.to_string()),
    };
    let sized = ReplacementSpec {
        lowlevel_name: "hash".to_string(),
        kind: ReplacementKind::ByArraySize(vec![
            ("h2".to_string(), 2),
            ("h3".to_string(), 3),
            ("h2_again".to_string(), 2),
        ]),
    };
    ReplacementCrate {
        file_name: "mixed.nr".to_string(),
        dep_name: "mixed".to_string(),
        source: String::new(),
        replacements: vec![single("first", "f"), sized, single("last", "l")],
        field: None,
    }
}

fn module(names: &[(&str, u32)]) -> TextMap<u32> {
    let mut module = TextMap::new();
    for (name, function) in names {
        module.insert(name.to_string(), *function);
    }
    module
}

#[test]
fn the_crates_are_those_of_the_compiler() {
    let crates = crates();
    let names: Vec<&str> = crates.iter().map(|c| c.dep_name.as_str()).collect();
    assert_eq!(names, ["poseidon2_permutation", "sha256_compression", "field_less_than"]);
    let files: Vec<&str> = crates.iter().map(|c| c.file_name.as_str()).collect();
    assert_eq!(
        files,
        ["poseidon2_permutation.nr", "sha256_compression.nr", "field_less_than.nr"]
    );
    let sources: Vec<&str> = crates.iter().map(|c| c.source.as_str()).collect();
    assert_eq!(sources, ["// p", "// s", "// f"]);
    assert_eq!(crates[0].function_names(), ["t2", "t3", "t4", "t8", "t12", "t16"]);
    assert_eq!(crates[1].function_names(), ["sha256_compression"]);
    assert_eq!(crates[2].function_names(), ["field_less_than"]);
    assert_eq!(crates[2].replacements[0].lowlevel_name, "field_less_than");
}

#[test]
fn crates_apply_on_their_field() {
    let mut crates = crates();
    assert!(crates[0].matches_build_field(BuildField::Bn254));
    assert!(!crates[0].matches_build_field(BuildField::Goldilocks));
    assert!(crates[1].matches_build_field(BuildField::Bn254));
    assert!(crates[1].matches_build_field(BuildField::Goldilocks));
    crates[2].field = Some("goldilocks".to_string());
    assert!(!crates[2].matches_build_field(BuildField::Bn254));
    assert!(crates[2].matches_build_field(BuildField::Goldilocks));
    crates[2].field = Some("bls12_381".to_string());
    assert!(!crates[2].matches_build_field(BuildField::Bn254));
    assert!(!crates[2].matches_build_field(BuildField::Goldilocks));
}

#[test]
fn functions_are_found_in_the_order_of_their_names() {
    assert_eq!(mixed().function_names(), ["f", "h2", "h3", "h2_again", "l"]);
    let module = module(&[("a", 1), ("b", 2), ("c", 3)]);
    let found = find_functions_in_crate(&module, &vec!["c", "x", "a", "c"]);
    let found: Vec<(&str, u32)> = found.iter().map(|(name, f)| (name.as_str(), **f)).collect();
    assert_eq!(found, [("c", 3), ("a", 1), ("c", 3)]);
}

#[test]
fn a_crate_is_prepared_once_it_is_checked() {
    let module = module(&[("h3", 30), ("other", 0), ("f", 10)]);
    let prepared = prepare_replacement_crate::<u32, &str>(Ok(&module), &mixed());
    let expected = vec![("f".to_string(), &10), ("h3".to_string(), &30)];
    assert_eq!(prepared, Ok(expected));
    let failed = prepare_replacement_crate::<u32, &str>(Err("type error"), &mixed());
    assert_eq!(failed, Err(Error::NoirCompilerError("type error")));
}

#[test]
fn the_last_function_of_a_name_is_queued() {
    let functions: Vec<(String, u32)> =
        [("l", 1), ("h2", 2), ("f", 3), ("h3", 4), ("h2", 5), ("h2_again", 6)]
            .iter()
            .map(|(name, f)| (name.to_string(), *f))
            .collect();
    assert_eq!(functions_to_queue(&mixed(), &functions), [&3, &5, &4, &6, &1]);
}

#[test]
fn replacements_are_registered_by_name_and_size() {
    let queued: Vec<FuncId> = (10..15).map(FuncId).collect();
    let mut replacements = TextMap::new();
    replacements.insert("kept".to_string(), LowLevelReplacement::Single(FuncId(1)));
    replacements.insert("last".to_string(), LowLevelReplacement::Single(FuncId(2)));
    add_lowlevel_replacements(&mixed(), &queued, &mut replacements);
    let single = |name: &str| match replacements.get(name) {
        Some(LowLevelReplacement::Single(function)) => function.0,
        other => panic!("{name}: {other:?}"),
    };
    assert_eq!((single("kept"), single("first"), single("last")), (1, 10, 14));
    match replacements.get("hash") {
        Some(LowLevelReplacement::ByArraySize(sizes)) => {
            assert_eq!(sizes.len(), 2);
            assert_eq!(sizes[&2], FuncId(13));
            assert_eq!(sizes[&3], FuncId(12));
        }
        other => panic!("hash: {other:?}"),
    }
    assert!(replacements.get("absent").is_none());
}
