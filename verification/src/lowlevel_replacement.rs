//! The functions written in Noir that stand in for low-level functions, and how they are found
//! and registered.

use std::collections::HashMap;
use vstd::prelude::*;
use crate::ast;
use crate::ast::FuncId;
use crate::lowering::model;
use crate::lowering::model::LowerEnv;
use crate::lowering::replacement;
use crate::lowering::replacement::{LowLevelReplacement, LowLevelReplacementView};
use crate::text::same_text;
use crate::text_map::TextMap;

verus! {

/// The Noir functions that stand in for a low-level function: one, or one for each size of the
/// array that is returned.
#[derive(Debug, PartialEq, Eq)]
pub enum ReplacementKind {
    Single(String),
    ByArraySize(Vec<(String, u32)>),
}

/// What a `ReplacementKind` says.
pub enum ReplacementKindView {
    Single(Seq<char>),
    ByArraySize(Seq<(Seq<char>, u32)>),
}

impl View for ReplacementKind {
    type V = ReplacementKindView;

    open spec fn view(&self) -> ReplacementKindView {
        match *self {
            ReplacementKind::Single(name) => ReplacementKindView::Single(name@),
            ReplacementKind::ByArraySize(entries) => ReplacementKindView::ByArraySize(
                entries@.map_values(|e: (String, u32)| (e.0@, e.1)),
            ),
        }
    }
}

/// A low-level function and what stands in for it.
#[derive(Debug, PartialEq, Eq)]
pub struct ReplacementSpec {
    pub lowlevel_name: String,
    pub kind: ReplacementKind,
}

/// What a `ReplacementSpec` says.
pub struct ReplacementSpecView {
    pub lowlevel_name: Seq<char>,
    pub kind: ReplacementKindView,
}

impl View for ReplacementSpec {
    type V = ReplacementSpecView;

    open spec fn view(&self) -> ReplacementSpecView {
        ReplacementSpecView { lowlevel_name: self.lowlevel_name@, kind: self.kind@ }
    }
}

/// A Noir crate of functions that stand in for low-level functions.
#[derive(Debug, PartialEq, Eq)]
pub struct ReplacementCrate {
    pub file_name: String,
    pub dep_name: String,
    pub source: String,
    pub replacements: Vec<ReplacementSpec>,
    /// The field that the crate's constants belong to; `None` if it suits every field.
    pub field: Option<String>,
}

/// What a `ReplacementCrate` says.
pub struct ReplacementCrateView {
    pub file_name: Seq<char>,
    pub dep_name: Seq<char>,
    pub source: Seq<char>,
    pub replacements: Seq<ReplacementSpecView>,
    pub field: Option<Seq<char>>,
}

impl View for ReplacementCrate {
    type V = ReplacementCrateView;

    open spec fn view(&self) -> ReplacementCrateView {
        ReplacementCrateView {
            file_name: self.file_name@,
            dep_name: self.dep_name@,
            source: self.source@,
            replacements: self.replacements@.map_values(|spec: ReplacementSpec| spec@),
            field: match self.field {
                Some(field) => Some(field@),
                None => None,
            },
        }
    }
}

/// The field that the compiler is built for.
#[derive(Clone, Copy, Debug, PartialEq, Eq)]
pub enum BuildField {
    Bn254,
    Goldilocks,
}

/// The names of the Noir functions that a replacement consists of.
pub open spec fn kind_names(kind: ReplacementKindView) -> Seq<Seq<char>> {
    match kind {
        ReplacementKindView::Single(name) => seq![name],
        ReplacementKindView::ByArraySize(entries) => entries.map_values(
            |e: (Seq<char>, u32)| e.0,
        ),
    }
}

/// The names of the Noir functions that the first `n` replacements consist of, in order.
pub open spec fn first_names(specs: Seq<ReplacementSpecView>, n: nat) -> Seq<Seq<char>>
    decreases n,
{
    if n == 0 {
        seq![]
    } else {
        first_names(specs, (n - 1) as nat) + kind_names(specs[n - 1].kind)
    }
}

/// The names of the Noir functions of a crate, in order.
pub open spec fn crate_names(specs: Seq<ReplacementSpecView>) -> Seq<Seq<char>> {
    first_names(specs, specs.len())
}

impl ReplacementCrate {
    /// Whether this crate is to be used in a compiler built for `build`. A crate that suits every
    /// field always is. A crate whose constants belong to a field is used on that field only: it
    /// neither type-checks nor computes correctly under another.
    pub fn matches_build_field(&self, build: BuildField) -> (matching: bool)
        ensures
            matching == match self@.field {
                None => true,
                Some(field) => match build {
                    BuildField::Bn254 => field == "bn254"@,
                    BuildField::Goldilocks => field == "goldilocks"@,
                },
            },
    {
        match &self.field {
            None => true,
            Some(field) => match build {
                BuildField::Bn254 => same_text(field.as_str(), "bn254"),
                BuildField::Goldilocks => same_text(field.as_str(), "goldilocks"),
            },
        }
    }

    /// The names of the crate's functions, in order.
    pub fn function_names(&self) -> (names: Vec<&str>)
        ensures
            names@.map_values(|n: &str| n@) == crate_names(self@.replacements),
    {
        let mut names: Vec<&str> = Vec::new();
        let ghost specs = self@.replacements;
        assert(names@.map_values(|n: &str| n@) =~= first_names(specs, 0));
        let mut i: usize = 0;
        while i < self.replacements.len()
            invariant
                i <= self.replacements@.len(),
                specs == self@.replacements,
                names@.map_values(|n: &str| n@) == first_names(specs, i as nat),
            decreases self.replacements@.len() - i,
        {
            let ghost before = names@;
            match &self.replacements[i].kind {
                ReplacementKind::Single(name) => {
                    names.push(name.as_str());
                },
                ReplacementKind::ByArraySize(entries) => {
                    let mut k: usize = 0;
                    while k < entries.len()
                        invariant
                            k <= entries@.len(),
                            names@.len() == before.len() + k,
                            forall|j: int| 0 <= j < before.len() ==> names@[j] == before[j],
                            forall|j: int|
                                0 <= j < k ==> (#[trigger] names@[before.len() + j])@
                                    == entries@[j].0@,
                        decreases entries@.len() - k,
                    {
                        names.push(entries[k].0.as_str());
                        k += 1;
                    }
                },
            }
            proof {
                let after = names@.map_values(|n: &str| n@);
                let expected = first_names(specs, (i + 1) as nat);
                assert(after.len() == expected.len());
                assert forall|j: int| 0 <= j < after.len() implies after[j] == expected[j] by {
                    if j < before.len() {
                        assert(before.map_values(|n: &str| n@)[j] == after[j]);
                    } else {
                        let k = j - before.len();
                        assert(names@[before.len() + k] == names@[j]);
                    }
                }
                assert(after =~= expected);
            }
            i += 1;
        }
        names
    }
}

/// The functions of a module that have one of the first `n` names, each with its name.
pub open spec fn found<T>(module: Map<Seq<char>, T>, names: Seq<Seq<char>>, n: nat) -> Seq<
    (Seq<char>, T),
>
    decreases n,
{
    if n == 0 {
        seq![]
    } else {
        let before = found(module, names, (n - 1) as nat);
        if module.contains_key(names[n - 1]) {
            before.push((names[n - 1], module[names[n - 1]]))
        } else {
            before
        }
    }
}

/// Every function that a module has under one of the names is found, under its own name; nothing
/// else is.
pub proof fn law_named_functions_are_found<T>(module: Map<Seq<char>, T>, names: Seq<Seq<char>>)
    ensures
        forall|i: int|
            0 <= i < names.len() && module.contains_key(#[trigger] names[i]) ==> found(
                module,
                names,
                names.len(),
            ).contains((names[i], module[names[i]])),
        forall|k: int|
            0 <= k < found(module, names, names.len()).len() ==> {
                let (name, function) = #[trigger] found(module, names, names.len())[k];
                &&& names.contains(name)
                &&& module.contains_key(name)
                &&& function == module[name]
            },
{
    lemma_found(module, names, names.len());
}

proof fn lemma_found<T>(module: Map<Seq<char>, T>, names: Seq<Seq<char>>, n: nat)
    requires
        n <= names.len(),
    ensures
        forall|i: int|
            0 <= i < n && module.contains_key(#[trigger] names[i]) ==> found(
                module,
                names,
                n,
            ).contains((names[i], module[names[i]])),
        forall|k: int|
            0 <= k < found(module, names, n).len() ==> {
                let (name, function) = #[trigger] found(module, names, n)[k];
                &&& names.contains(name)
                &&& module.contains_key(name)
                &&& function == module[name]
            },
    decreases n,
{
    if n > 0 {
        lemma_found(module, names, (n - 1) as nat);
        let before = found(module, names, (n - 1) as nat);
        let after = found(module, names, n);
        assert forall|i: int|
            0 <= i < n && module.contains_key(#[trigger] names[i]) implies after.contains(
            (names[i], module[names[i]]),
        ) by {
            if i < n - 1 {
                let k = choose|k: int|
                    0 <= k < before.len() && before[k] == (names[i], module[names[i]]);
                assert(after[k] == before[k]);
            } else {
                assert(after.last() == (names[i], module[names[i]]));
            }
        }
        assert forall|k: int| 0 <= k < after.len() implies {
            let (name, function) = #[trigger] after[k];
            &&& names.contains(name)
            &&& module.contains_key(name)
            &&& function == module[name]
        } by {
            if k < before.len() {
                assert(after[k] == before[k]);
            }
        }
    }
}

/// Looks up functions by name in the root module of a crate. Those that are not there are left
/// out.
pub fn find_functions_in_crate<'m, T>(root_module: &'m TextMap<T>, function_names: &Vec<&str>) -> (result:
    Vec<(String, &'m T)>)
    ensures
        result@.map_values(|f: (String, &T)| (f.0@, *f.1)) == found(
            root_module@,
            function_names@.map_values(|n: &str| n@),
            function_names@.len(),
        ),
{
    let mut result: Vec<(String, &'m T)> = Vec::new();
    let ghost names = function_names@.map_values(|n: &str| n@);
    assert(result@.map_values(|f: (String, &T)| (f.0@, *f.1)) =~= found(root_module@, names, 0));
    let mut i: usize = 0;
    while i < function_names.len()
        invariant
            i <= function_names@.len(),
            names == function_names@.map_values(|n: &str| n@),
            result@.map_values(|f: (String, &T)| (f.0@, *f.1)) == found(
                root_module@,
                names,
                i as nat,
            ),
        decreases function_names@.len() - i,
    {
        let name = function_names[i];
        if let Some(function) = root_module.get(name) {
            let ghost before = result@;
            result.push((name.to_owned(), function));
            assert(result@.map_values(|f: (String, &T)| (f.0@, *f.1)) =~= before.map_values(
                |f: (String, &T)| (f.0@, *f.1),
            ).push((name@, *function)));
        }
        i += 1;
    }
    result
}

/// Why a replacement crate could not be prepared.
#[derive(Debug, PartialEq, Eq)]
pub enum Error<E> {
    NoirCompilerError(E),
}

/// Looks up the functions of a replacement crate, once the crate has been checked: `checked` is
/// its root module, or what the Noir compiler found wrong with it.
pub fn prepare_replacement_crate<'m, T, E>(
    checked: Result<&'m TextMap<T>, E>,
    replacement: &ReplacementCrate,
) -> (functions: Result<Vec<(String, &'m T)>, Error<E>>)
    ensures
        match checked {
            Ok(root_module) => functions matches Ok(functions) && functions@.map_values(
                |f: (String, &T)| (f.0@, *f.1),
            ) == found(
                root_module@,
                crate_names(replacement@.replacements),
                crate_names(replacement@.replacements).len(),
            ),
            Err(error) => functions == Err::<Vec<(String, &'m T)>, Error<E>>(
                Error::NoirCompilerError(error),
            ),
        },
{
    match checked {
        Ok(root_module) => {
            let names = replacement.function_names();
            assert(names@.len() == names@.map_values(|n: &str| n@).len());
            Ok(find_functions_in_crate(root_module, &names))
        },
        Err(error) => Err(Error::NoirCompilerError(error)),
    }
}

/// Entry `j` is the last of the functions that has this name.
pub open spec fn last_named<T>(functions: Seq<(String, T)>, name: Seq<char>, j: int) -> bool {
    &&& 0 <= j < functions.len()
    &&& functions[j].0@ == name
    &&& forall|k: int| j < k < functions.len() ==> (#[trigger] functions[k]).0@ != name
}

/// Some function has this name.
pub open spec fn is_named<T>(functions: Seq<(String, T)>, name: Seq<char>) -> bool {
    exists|j: int| 0 <= j < functions.len() && (#[trigger] functions[j]).0@ == name
}

/// `function` is the one that this name finds: the last that has it.
pub open spec fn finds<T>(functions: Seq<(String, T)>, name: Seq<char>, function: T) -> bool {
    exists|j: int| #[trigger] last_named(functions, name, j) && function == functions[j].1
}

/// The functions that are to be monomorphized for a replacement crate, in order.
pub fn functions_to_queue<'f, T>(
    replacement: &ReplacementCrate,
    functions: &'f Vec<(String, T)>,
) -> (queue: Vec<&'f T>)
    requires
        forall|i: int|
            0 <= i < crate_names(replacement@.replacements).len() ==> is_named(
                functions@,
                #[trigger] crate_names(replacement@.replacements)[i],
            ),
    ensures
        queue@.len() == crate_names(replacement@.replacements).len(),
        forall|i: int|
            0 <= i < queue@.len() ==> finds(
                functions@,
                crate_names(replacement@.replacements)[i],
                *#[trigger] queue@[i],
            ),
{
    let names = replacement.function_names();
    let ghost views = crate_names(replacement@.replacements);
    assert(names@.len() == views.len());
    let mut queue: Vec<&'f T> = Vec::new();
    let mut i: usize = 0;
    while i < names.len()
        invariant
            i <= names@.len(),
            views == names@.map_values(|n: &str| n@),
            forall|k: int| 0 <= k < views.len() ==> is_named(functions@, #[trigger] views[k]),
            queue@.len() == i,
            forall|k: int|
                0 <= k < i ==> finds(functions@, views[k], *#[trigger] queue@[k]),
        decreases names@.len() - i,
    {
        assert(is_named(functions@, views[i as int]));
        let j = find_last(functions, names[i]);
        queue.push(&functions[j].1);
        i += 1;
    }
    queue
}

/// The last of the functions that has a name.
fn find_last<T>(functions: &Vec<(String, T)>, name: &str) -> (j: usize)
    requires
        is_named(functions@, name@),
    ensures
        last_named(functions@, name@, j as int),
{
    let mut j: usize = functions.len();
    while j > 0
        invariant
            j <= functions@.len(),
            is_named(functions@, name@),
            forall|k: int| j <= k < functions@.len() ==> (#[trigger] functions@[k]).0@ != name@,
        decreases j,
    {
        j -= 1;
        if same_text(functions[j].0.as_str(), name) {
            return j;
        }
    }
    j
}

/// The functions by array size that the first `n` entries name, where `queued` are the
/// monomorphized functions, in order, from `offset` on.
pub open spec fn sized(
    entries: Seq<(Seq<char>, u32)>,
    queued: Seq<FuncId>,
    offset: nat,
    n: nat,
) -> Map<u32, FuncId>
    decreases n,
{
    if n == 0 {
        Map::empty()
    } else {
        sized(entries, queued, offset, (n - 1) as nat).insert(
            entries[n - 1].1,
            queued[offset + n - 1],
        )
    }
}

/// What stands in for a low-level function, where `queued` are the monomorphized functions, in
/// order, from `offset` on.
pub open spec fn replaced_by(kind: ReplacementKindView, queued: Seq<FuncId>, offset: nat) -> LowLevelReplacementView {
    match kind {
        ReplacementKindView::Single(_) => LowLevelReplacementView::Single(queued[offset as int]),
        ReplacementKindView::ByArraySize(entries) => LowLevelReplacementView::ByArraySize(
            sized(entries, queued, offset, entries.len()),
        ),
    }
}

/// The replacements with the first `n` of a crate registered.
pub open spec fn registered(
    replacements: Map<Seq<char>, LowLevelReplacementView>,
    specs: Seq<ReplacementSpecView>,
    queued: Seq<FuncId>,
    n: nat,
) -> Map<Seq<char>, LowLevelReplacementView>
    decreases n,
{
    if n == 0 {
        replacements
    } else {
        registered(replacements, specs, queued, (n - 1) as nat).insert(
            specs[n - 1].lowlevel_name,
            replaced_by(specs[n - 1].kind, queued, first_names(specs, (n - 1) as nat).len()),
        )
    }
}

/// Registers the functions of a replacement crate, once they have been queued for
/// monomorphization: `queued` holds the function that each of the crate's names became.
pub fn add_lowlevel_replacements(
    replacement: &ReplacementCrate,
    queued: &Vec<FuncId>,
    lowlevel_replacements: &mut TextMap<LowLevelReplacement>,
)
    requires
        queued@.len() == crate_names(replacement@.replacements).len(),
    ensures
        replacement::replacement_views(final(lowlevel_replacements)@) == registered(
            replacement::replacement_views(old(lowlevel_replacements)@),
            replacement@.replacements,
            queued@,
            replacement@.replacements.len(),
        ),
{
    broadcast use vstd::std_specs::hash::group_hash_axioms;

    let ghost specs = replacement@.replacements;
    let ghost before = replacement::replacement_views(lowlevel_replacements@);
    let total = queued.len();
    let mut offset: usize = 0;
    let mut i: usize = 0;
    while i < replacement.replacements.len()
        invariant
            i <= replacement.replacements@.len(),
            specs == replacement@.replacements,
            queued@.len() == first_names(specs, specs.len()).len(),
            total == queued@.len(),
            offset == first_names(specs, i as nat).len(),
            replacement::replacement_views(lowlevel_replacements@) == registered(
                before,
                specs,
                queued@,
                i as nat,
            ),
        decreases replacement.replacements@.len() - i,
    {
        proof {
            lemma_names_grow(specs, (i + 1) as nat, specs.len());
        }
        let spec = &replacement.replacements[i];
        let ghost start = offset;
        let lowlevel = match &spec.kind {
            ReplacementKind::Single(_) => {
                let function = queued[offset];
                offset += 1;
                LowLevelReplacement::Single(function)
            },
            ReplacementKind::ByArraySize(entries) => {
                let ghost views = entries@.map_values(|e: (String, u32)| (e.0@, e.1));
                let mut map: HashMap<u32, FuncId> = HashMap::new();
                let mut k: usize = 0;
                while k < entries.len()
                    invariant
                        k <= entries@.len(),
                        views == entries@.map_values(|e: (String, u32)| (e.0@, e.1)),
                        start + views.len() <= queued@.len(),
                        total == queued@.len(),
                        offset == start + k,
                        map@ == sized(views, queued@, start as nat, k as nat),
                    decreases entries@.len() - k,
                {
                    map.insert(entries[k].1, queued[offset]);
                    offset += 1;
                    k += 1;
                }
                LowLevelReplacement::ByArraySize(map)
            },
        };
        let ghost old_map = lowlevel_replacements@;
        lowlevel_replacements.insert(spec.lowlevel_name.clone(), lowlevel);
        assert(replacement::replacement_views(lowlevel_replacements@)
            =~= replacement::replacement_views(old_map).insert(spec.lowlevel_name@, lowlevel@));
        i += 1;
    }
}

/// More replacements have at least as many names.
proof fn lemma_names_grow(specs: Seq<ReplacementSpecView>, i: nat, n: nat)
    requires
        i <= n,
    ensures
        first_names(specs, i).len() <= first_names(specs, n).len(),
    decreases n,
{
    if i < n {
        lemma_names_grow(specs, i, (n - 1) as nat);
    }
}

/// The crates that the compiler comes with, given the texts of their Noir sources.
pub fn replacement_crates(
    poseidon2_permutation: String,
    sha256_compression: String,
    field_less_than: String,
) -> (crates: Vec<ReplacementCrate>)
    ensures
        crates@.map_values(|c: ReplacementCrate| c@) == seq![
            (ReplacementCrateView {
                file_name: "poseidon2_permutation.nr"@,
                dep_name: "poseidon2_permutation"@,
                source: poseidon2_permutation@,
                replacements: seq![
                    (ReplacementSpecView {
                        lowlevel_name: "poseidon2_permutation"@,
                        kind: ReplacementKindView::ByArraySize(
                            seq![
                                ("t2"@, 2u32),
                                ("t3"@, 3u32),
                                ("t4"@, 4u32),
                                ("t8"@, 8u32),
                                ("t12"@, 12u32),
                                ("t16"@, 16u32),
                            ],
                        ),
                    }),
                ],
                field: Some("bn254"@),
            }),
            single_function_crate(
                "sha256_compression.nr"@,
                "sha256_compression"@,
                sha256_compression@,
            ),
            single_function_crate("field_less_than.nr"@, "field_less_than"@, field_less_than@),
        ],
{
    // The round constants of Poseidon2 belong to bn254. The other crates suit every field:
    // SHA-256 works on bytes, and the comparison decomposes its operands.
    let entries = vec![
        ("t2".to_owned(), 2u32),
        ("t3".to_owned(), 3u32),
        ("t4".to_owned(), 4u32),
        ("t8".to_owned(), 8u32),
        ("t12".to_owned(), 12u32),
        ("t16".to_owned(), 16u32),
    ];
    let poseidon2_specs = vec![
        ReplacementSpec {
            lowlevel_name: "poseidon2_permutation".to_owned(),
            kind: ReplacementKind::ByArraySize(entries),
        },
    ];
    let poseidon2 = ReplacementCrate {
        file_name: "poseidon2_permutation.nr".to_owned(),
        dep_name: "poseidon2_permutation".to_owned(),
        source: poseidon2_permutation,
        replacements: poseidon2_specs,
        field: Some("bn254".to_owned()),
    };
    let sha256 = new_single_function_crate(
        "sha256_compression.nr",
        "sha256_compression",
        sha256_compression,
    );
    let less_than = new_single_function_crate(
        "field_less_than.nr",
        "field_less_than",
        field_less_than,
    );
    proof {
        let views = entries@.map_values(|e: (String, u32)| (e.0@, e.1));
        assert(views =~= seq![
            ("t2"@, 2u32),
            ("t3"@, 3u32),
            ("t4"@, 4u32),
            ("t8"@, 8u32),
            ("t12"@, 12u32),
            ("t16"@, 16u32),
        ]);
        assert(poseidon2@.replacements =~= seq![
            (ReplacementSpecView {
                lowlevel_name: "poseidon2_permutation"@,
                kind: ReplacementKindView::ByArraySize(views),
            }),
        ]);
    }
    vec![poseidon2, sha256, less_than]
}

/// A crate for every field whose one function stands in for the low-level function of the same
/// name.
pub open spec fn single_function_crate(
    file_name: Seq<char>,
    name: Seq<char>,
    source: Seq<char>,
) -> ReplacementCrateView {
    ReplacementCrateView {
        file_name,
        dep_name: name,
        source,
        replacements: seq![
            (ReplacementSpecView { lowlevel_name: name, kind: ReplacementKindView::Single(name) }),
        ],
        field: None,
    }
}

/// A crate for every field whose one function stands in for the low-level function of the same
/// name.
fn new_single_function_crate(file_name: &str, name: &str, source: String) -> (result:
    ReplacementCrate)
    ensures
        result@ == single_function_crate(file_name@, name@, source@),
{
    let spec = ReplacementSpec {
        lowlevel_name: name.to_owned(),
        kind: ReplacementKind::Single(name.to_owned()),
    };
    let replacements = vec![spec];
    assert(replacements@.map_values(|s: ReplacementSpec| s@) =~= seq![spec@]);
    ReplacementCrate {
        file_name: file_name.to_owned(),
        dep_name: name.to_owned(),
        source,
        replacements,
        field: None,
    }
}

/// The replacement that is registered last under a name is the one that is found there.
proof fn lemma_registered(
    before: Map<Seq<char>, LowLevelReplacementView>,
    specs: Seq<ReplacementSpecView>,
    queued: Seq<FuncId>,
    i: int,
    n: nat,
)
    requires
        0 <= i < n <= specs.len(),
        forall|j: int|
            i < j < specs.len() ==> (#[trigger] specs[j]).lowlevel_name != specs[i].lowlevel_name,
    ensures
        registered(before, specs, queued, n).contains_key(specs[i].lowlevel_name),
        registered(before, specs, queued, n)[specs[i].lowlevel_name] == replaced_by(
            specs[i].kind,
            queued,
            first_names(specs, i as nat).len(),
        ),
    decreases n,
{
    if i < n - 1 {
        lemma_registered(before, specs, queued, i, (n - 1) as nat);
        assert(specs[n - 1].lowlevel_name != specs[i].lowlevel_name);
    }
}

/// The names of one replacement stand together among the names of the crate.
proof fn lemma_names_at(specs: Seq<ReplacementSpecView>, i: int, k: int, n: nat)
    requires
        0 <= i < n <= specs.len(),
        0 <= k < kind_names(specs[i].kind).len(),
    ensures
        first_names(specs, i as nat).len() + k < first_names(specs, n).len(),
        first_names(specs, n)[first_names(specs, i as nat).len() + k] == kind_names(
            specs[i].kind,
        )[k],
    decreases n,
{
    if i < n - 1 {
        lemma_names_at(specs, i, k, (n - 1) as nat);
    }
}

/// A low-level function that one function stands in for is converted to a call of what that
/// function, found by its name, became.
pub proof fn law_single_replacement_is_called(
    env: LowerEnv,
    before: Map<Seq<char>, LowLevelReplacementView>,
    specs: Seq<ReplacementSpecView>,
    queued: Seq<FuncId>,
    i: int,
    return_type: ast::Type,
)
    requires
        0 <= i < specs.len(),
        specs[i].kind is Single,
        forall|j: int|
            i < j < specs.len() ==> (#[trigger] specs[j]).lowlevel_name != specs[i].lowlevel_name,
        env.replacements == registered(before, specs, queued, specs.len()),
    ensures
        ({
            let at = first_names(specs, i as nat).len() as int;
            &&& crate_names(specs)[at] == specs[i].kind->Single_0
            &&& model::replacement_for(env, specs[i].lowlevel_name, return_type) == Some(queued[at])
        }),
{
    lemma_registered(before, specs, queued, i, specs.len());
    lemma_names_at(specs, i, 0, specs.len());
}

/// A low-level function that is replaced by array size is converted to a call of what the
/// function for the size of the returned array, found by its name, became.
pub proof fn law_sized_replacement_is_called(
    env: LowerEnv,
    before: Map<Seq<char>, LowLevelReplacementView>,
    specs: Seq<ReplacementSpecView>,
    queued: Seq<FuncId>,
    i: int,
    k: int,
    element: Box<ast::Type>,
)
    requires
        0 <= i < specs.len(),
        specs[i].kind is ByArraySize,
        0 <= k < specs[i].kind->ByArraySize_0.len(),
        forall|j: int|
            i < j < specs.len() ==> (#[trigger] specs[j]).lowlevel_name != specs[i].lowlevel_name,
        forall|j: int|
            k < j < specs[i].kind->ByArraySize_0.len() ==> (
            #[trigger] specs[i].kind->ByArraySize_0[j]).1 != specs[i].kind->ByArraySize_0[k].1,
        env.replacements == registered(before, specs, queued, specs.len()),
    ensures
        ({
            let at = first_names(specs, i as nat).len() + k;
            let (name, size) = specs[i].kind->ByArraySize_0[k];
            &&& crate_names(specs)[at] == name
            &&& model::replacement_for(
                env,
                specs[i].lowlevel_name,
                ast::Type::Array(size, element),
            ) == Some(queued[at])
        }),
{
    let entries = specs[i].kind->ByArraySize_0;
    let offset = first_names(specs, i as nat).len();
    lemma_registered(before, specs, queued, i, specs.len());
    lemma_names_at(specs, i, k, specs.len());
    lemma_sized(entries, queued, offset, k, entries.len());
}

/// A low-level function that is replaced by array size has no replacement for another size.
pub proof fn law_other_sizes_have_no_replacement(
    env: LowerEnv,
    before: Map<Seq<char>, LowLevelReplacementView>,
    specs: Seq<ReplacementSpecView>,
    queued: Seq<FuncId>,
    i: int,
    size: u32,
    element: Box<ast::Type>,
)
    requires
        0 <= i < specs.len(),
        specs[i].kind is ByArraySize,
        forall|j: int|
            i < j < specs.len() ==> (#[trigger] specs[j]).lowlevel_name != specs[i].lowlevel_name,
        forall|j: int|
            0 <= j < specs[i].kind->ByArraySize_0.len() ==> (
            #[trigger] specs[i].kind->ByArraySize_0[j]).1 != size,
        env.replacements == registered(before, specs, queued, specs.len()),
    ensures
        model::replacement_for(env, specs[i].lowlevel_name, ast::Type::Array(size, element))
            is None,
{
    let entries = specs[i].kind->ByArraySize_0;
    let offset = first_names(specs, i as nat).len();
    lemma_registered(before, specs, queued, i, specs.len());
    lemma_not_sized(entries, queued, offset, size, entries.len());
}

/// Registering a crate leaves every other low-level function as it was.
pub proof fn law_other_names_are_kept(
    before: Map<Seq<char>, LowLevelReplacementView>,
    specs: Seq<ReplacementSpecView>,
    queued: Seq<FuncId>,
    name: Seq<char>,
)
    requires
        forall|j: int| 0 <= j < specs.len() ==> (#[trigger] specs[j]).lowlevel_name != name,
    ensures
        ({
            let after = registered(before, specs, queued, specs.len());
            &&& after.contains_key(name) == before.contains_key(name)
            &&& before.contains_key(name) ==> after[name] == before[name]
        }),
{
    lemma_not_registered(before, specs, queued, name, specs.len());
}

proof fn lemma_not_registered(
    before: Map<Seq<char>, LowLevelReplacementView>,
    specs: Seq<ReplacementSpecView>,
    queued: Seq<FuncId>,
    name: Seq<char>,
    n: nat,
)
    requires
        n <= specs.len(),
        forall|j: int| 0 <= j < specs.len() ==> (#[trigger] specs[j]).lowlevel_name != name,
    ensures
        ({
            let after = registered(before, specs, queued, n);
            &&& after.contains_key(name) == before.contains_key(name)
            &&& before.contains_key(name) ==> after[name] == before[name]
        }),
    decreases n,
{
    if n > 0 {
        lemma_not_registered(before, specs, queued, name, (n - 1) as nat);
        assert(specs[n - 1].lowlevel_name != name);
    }
}

proof fn lemma_sized(
    entries: Seq<(Seq<char>, u32)>,
    queued: Seq<FuncId>,
    offset: nat,
    k: int,
    n: nat,
)
    requires
        0 <= k < n <= entries.len(),
        forall|j: int| k < j < entries.len() ==> (#[trigger] entries[j]).1 != entries[k].1,
    ensures
        sized(entries, queued, offset, n).contains_key(entries[k].1),
        sized(entries, queued, offset, n)[entries[k].1] == queued[offset + k],
    decreases n,
{
    if k < n - 1 {
        lemma_sized(entries, queued, offset, k, (n - 1) as nat);
        assert(entries[n - 1].1 != entries[k].1);
    }
}

proof fn lemma_not_sized(
    entries: Seq<(Seq<char>, u32)>,
    queued: Seq<FuncId>,
    offset: nat,
    size: u32,
    n: nat,
)
    requires
        n <= entries.len(),
        forall|j: int| 0 <= j < entries.len() ==> (#[trigger] entries[j]).1 != size,
    ensures
        !sized(entries, queued, offset, n).contains_key(size),
    decreases n,
{
    if n > 0 {
        lemma_not_sized(entries, queued, offset, size, (n - 1) as nat);
        assert(entries[n - 1].1 != size);
    }
}

/// The functions that are found come in the order of their names, each as often as its name does:
/// a name that the module does not have is passed over.
pub proof fn law_functions_are_found_in_order<T>(module: Map<Seq<char>, T>, names: Seq<Seq<char>>)
    ensures
        found(module, names, names.len()) == names.filter(
            |name: Seq<char>| module.contains_key(name),
        ).map_values(|name: Seq<char>| (name, module[name])),
    decreases names.len(),
{
    let has = |name: Seq<char>| module.contains_key(name);
    let pair = |name: Seq<char>| (name, module[name]);
    reveal(Seq::filter);
    if names.len() > 0 {
        let fewer = names.drop_last();
        law_functions_are_found_in_order(module, fewer);
        lemma_found_prefix(module, names, fewer, fewer.len());
        let kept = fewer.filter(has);
        if has(names.last()) {
            assert(names.filter(has) == kept.push(names.last()));
            assert(kept.push(names.last()).map_values(pair) =~= kept.map_values(pair).push(
                pair(names.last()),
            ));
        } else {
            assert(names.filter(has) == kept);
        }
    } else {
        assert(names.filter(has).map_values(pair) =~= seq![]);
    }
}

/// What is found under the first names does not depend on those after them.
proof fn lemma_found_prefix<T>(
    module: Map<Seq<char>, T>,
    names: Seq<Seq<char>>,
    fewer: Seq<Seq<char>>,
    n: nat,
)
    requires
        n <= fewer.len() <= names.len(),
        forall|i: int| 0 <= i < fewer.len() ==> fewer[i] == names[i],
    ensures
        found(module, names, n) == found(module, fewer, n),
    decreases n,
{
    if n > 0 {
        lemma_found_prefix(module, names, fewer, (n - 1) as nat);
    }
}

/// A crate is used on every field, or on one field only: no crate is used on one of two fields for
/// want of a name, and a crate that names a field is used on at most one.
pub proof fn law_crates_are_used_on_their_field(
    replacement: &ReplacementCrate,
    on_bn254: bool,
    on_goldilocks: bool,
)
    requires
        call_ensures(
            ReplacementCrate::matches_build_field,
            (replacement, BuildField::Bn254),
            on_bn254,
        ),
        call_ensures(
            ReplacementCrate::matches_build_field,
            (replacement, BuildField::Goldilocks),
            on_goldilocks,
        ),
    ensures
        replacement@.field is None <==> on_bn254 && on_goldilocks,
        replacement@.field matches Some(field) ==> (on_bn254 <==> field == "bn254"@) && (
        on_goldilocks <==> field == "goldilocks"@),
{
    reveal_strlit("bn254");
    reveal_strlit("goldilocks");
    assert("bn254"@.len() == 5 && "goldilocks"@.len() == 10);
}

/// Each name of a crate is the name of one of its replacements, and they stand in the order of the
/// replacements: a crate has as many names as its replacements have together.
pub proof fn law_crates_name_every_function(specs: Seq<ReplacementSpecView>, i: int, k: int)
    requires
        0 <= i < specs.len(),
        0 <= k < match specs[i].kind {
            ReplacementKindView::Single(_) => 1,
            ReplacementKindView::ByArraySize(entries) => entries.len() as int,
        },
    ensures
        crate_names(specs).contains(
            match specs[i].kind {
                ReplacementKindView::Single(name) => name,
                ReplacementKindView::ByArraySize(entries) => entries[k].0,
            },
        ),
{
    lemma_names_at(specs, i, k, specs.len());
    let at = first_names(specs, i as nat).len() + k;
    assert(crate_names(specs)[at] == kind_names(specs[i].kind)[k]);
}

/// The compiler comes with three crates, each with the source that it is given. The first belongs to
/// bn254, and has one function for each size that its permutation has; the two others suit every
/// field, and each has one function, of the name of the low-level function that it stands in for.
pub proof fn law_crates_carry_their_sources(
    poseidon2: String,
    sha256: String,
    less_than: String,
    crates: Vec<ReplacementCrate>,
)
    requires
        call_ensures(replacement_crates, (poseidon2, sha256, less_than), crates),
    ensures
        crates@.len() == 3,
        crates@[0]@.source == poseidon2@,
        crates@[1]@.source == sha256@,
        crates@[2]@.source == less_than@,
        crates@[0]@.field == Some("bn254"@),
        crates@[1]@.field is None && crates@[2]@.field is None,
        forall|i: int|
            0 <= i < 3 ==> (#[trigger] crates@[i])@.replacements.len() == 1
                && crates@[i]@.replacements[0].lowlevel_name == crates@[i]@.dep_name,
        crates@[0]@.replacements[0].kind matches ReplacementKindView::ByArraySize(entries)
            && entries.map_values(|e: (Seq<char>, u32)| e.1) == seq![2u32, 3, 4, 8, 12, 16],
        forall|i: int|
            1 <= i < 3 ==> (#[trigger] crates@[i])@.replacements[0].kind
                == ReplacementKindView::Single(crates@[i]@.replacements[0].lowlevel_name),
{
    let views = crates@.map_values(|c: ReplacementCrate| c@);
    assert(views.len() == crates@.len());
    assert(views[0] == crates@[0]@ && views[1] == crates@[1]@ && views[2] == crates@[2]@);
    let entries = crates@[0]@.replacements[0].kind->ByArraySize_0;
    assert(entries.map_values(|e: (Seq<char>, u32)| e.1) =~= seq![2u32, 3, 4, 8, 12, 16]);
}

/// The function that is queued for a name is one of that name, and no function after it has the name.
pub proof fn law_the_last_of_a_name_is_queued<T>(
    replacement: &ReplacementCrate,
    functions: &Vec<(String, T)>,
    queue: Vec<&T>,
    i: int,
)
    requires
        call_ensures(functions_to_queue::<T>, (replacement, functions), queue),
        0 <= i < queue@.len(),
    ensures
        queue@.len() == crate_names(replacement@.replacements).len(),
        exists|j: int|
            {
                &&& 0 <= j < functions@.len()
                &&& (#[trigger] functions@[j]).0@ == crate_names(replacement@.replacements)[i]
                &&& functions@[j].1 == *queue@[i]
                &&& forall|k: int|
                    j < k < functions@.len() ==> (#[trigger] functions@[k]).0@ != crate_names(
                        replacement@.replacements,
                    )[i]
            },
{
    let names = crate_names(replacement@.replacements);
    assert(finds(functions@, names[i], *queue@[i]));
    let j = choose|j: int|
        #[trigger] last_named(functions@, names[i], j) && *queue@[i] == functions@[j].1;
    assert(functions@[j].0@ == names[i]);
}

} // verus!
