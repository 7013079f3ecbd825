//! Rewrites a resolved module graph into a self-contained, path-addressed
//! output tree: every module gets a unique output path, import specifiers
//! are rewritten to relative paths, and references to the `Deno` global are
//! routed through an injected shim import.
//!
//! Graph resolution and parsing happen before: the caller hands over the
//! specifiers that the [`loader::SourceLoader`] recorded and a
//! [`graph::ModuleGraph`] that holds, for each module, its media type, its
//! text, its references and its identifiers.
use vstd::prelude::*;
use vstd::string::StringSliceAdditionalSpecFns;
use vstd::utf8::*;

pub mod deno_globals;
pub mod error;
pub mod graph;
pub mod loader;
pub mod mappings;
pub mod module_specifiers;
pub mod specifier;
pub mod strings;
pub mod text_changes;

use crate::deno_globals::{deno_global_changes, get_deno_global_text_changes, names_view, GetDenoGlobalTextChangesParams};
use crate::error::TransformError;
use crate::graph::{module_index, Dependency, Module, ModuleGraph, Resolution};
use crate::loader::LoaderSpecifiers;
use crate::mappings::{Mappings, OutputPath, PathView};
use crate::module_specifiers::{
    dependency_change, get_module_specifier_text_changes, join_segments, GetModuleSpecifierTextChangesParams,
};
use crate::specifier::{find_specifier, specifiers_view, ModuleSpecifier, SpecifierView};
use crate::text_changes::{apply_text_changes, changes_view, patched, sort_by_start, ChangeSpec, TextChange};

verus! {

/// A file of the output tree.
pub struct OutputFile {
    /// Relative path, segments separated by `/`.
    pub file_path: String,
    pub file_text: String,
}

/// What a transform starts from.
pub struct TransformOptions {
    /// The specifiers that graph resolution visited.
    pub specifiers: LoaderSpecifiers,
    /// The resolved and parsed modules.
    pub graph: ModuleGraph,
    /// Keep an extension in rewritten specifiers.
    pub keep_extensions: bool,
    /// The module that the `Deno` shim is imported from; `shim-package-name`
    /// when absent.
    pub shim_package_name: Option<String>,
}

/// The visited specifiers without those that serve as another module's
/// type declarations, and the pairs (module, type declarations).
pub struct Specifiers {
    pub local: Vec<ModuleSpecifier>,
    pub remote: Vec<ModuleSpecifier>,
    pub types: Vec<(ModuleSpecifier, ModuleSpecifier)>,
}

pub open spec fn pairs_view(v: Seq<(ModuleSpecifier, ModuleSpecifier)>) -> Seq<(SpecifierView, SpecifierView)> {
    v.map_values(|p: (ModuleSpecifier, ModuleSpecifier)| (p.0@, p.1@))
}

/// The pairs (module, type declarations) of the modules of `v`, in order.
pub open spec fn type_pairs(mods: Seq<Module>, v: Seq<SpecifierView>) -> Seq<(SpecifierView, SpecifierView)>
    decreases v.len(),
{
    if v.len() == 0 {
        Seq::empty()
    } else {
        let rest = type_pairs(mods, v.drop_last());
        match module_index(mods, v.last()) {
            Some(i) => match mods[i].types_dependency {
                Some(Resolution::Resolved(t)) => rest.push((v.last(), t@)),
                _ => rest,
            },
            None => rest,
        }
    }
}

/// The module of `s` is in the graph and its type-declaration reference,
/// if any, resolved.
pub open spec fn resolved_at(mods: Seq<Module>, s: SpecifierView) -> bool {
    match module_index(mods, s) {
        Some(k) => !(mods[k].types_dependency matches Some(Resolution::Unresolved(_))),
        None => false,
    }
}

/// The module of `s` is in the graph and its type-declaration reference
/// did not resolve.
pub open spec fn types_unresolved(mods: Seq<Module>, s: SpecifierView) -> bool {
    match module_index(mods, s) {
        Some(k) => mods[k].types_dependency matches Some(Resolution::Unresolved(_)),
        None => false,
    }
}

/// `e` names a specifier of `v` that has no module, or whose module's
/// type-declaration reference did not resolve.
pub open spec fn loader_error(e: TransformError, mods: Seq<Module>, v: Seq<SpecifierView>) -> bool {
    match e {
        TransformError::MissingModule(s) => v.contains(s@) && module_index(mods, s@) is None,
        TransformError::TypesResolution(s) => v.contains(s@) && types_unresolved(mods, s@),
        _ => false,
    }
}

/// Every module of `v` is in the graph and its type-declaration
/// reference, if any, resolved.
pub open spec fn all_resolved(mods: Seq<Module>, v: Seq<SpecifierView>) -> bool {
    forall|i: int| 0 <= i < v.len() ==> #[trigger] resolved_at(mods, v[i])
}

/// The members of `v` that are (`inside`) or are not in `ex`, in order.
pub open spec fn select(v: Seq<SpecifierView>, ex: Seq<SpecifierView>, inside: bool) -> Seq<SpecifierView>
    decreases v.len(),
{
    if v.len() == 0 {
        Seq::empty()
    } else if ex.contains(v.last()) == inside {
        select(v.drop_last(), ex, inside).push(v.last())
    } else {
        select(v.drop_last(), ex, inside)
    }
}

pub open spec fn type_targets(pairs: Seq<(SpecifierView, SpecifierView)>) -> Seq<SpecifierView> {
    pairs.map_values(|p: (SpecifierView, SpecifierView)| p.1)
}

fn select_specifiers(v: &Vec<ModuleSpecifier>, ex: &Vec<ModuleSpecifier>, inside: bool) -> (r: Vec<ModuleSpecifier>)
    ensures
        specifiers_view(r@) == select(specifiers_view(v@), specifiers_view(ex@), inside),
{
    let ghost vv = specifiers_view(v@);
    let ghost ev = specifiers_view(ex@);
    let mut r: Vec<ModuleSpecifier> = Vec::new();
    let mut i: usize = 0;
    while i < v.len()
        invariant
            i <= v@.len(),
            vv == specifiers_view(v@),
            ev == specifiers_view(ex@),
            specifiers_view(r@) == select(vv.take(i as int), ev, inside),
        decreases v@.len() - i,
    {
        assert(vv.take(i + 1).drop_last() =~= vv.take(i as int));
        assert(vv.take(i + 1).last() == v@[i as int]@);
        let found = find_specifier(ex, &v[i]).is_some();
        if found == inside {
            let ghost before = r@;
            r.push(v[i].copy());
            assert(specifiers_view(r@) =~= specifiers_view(before).push(v@[i as int]@));
        }
        i = i + 1;
    }
    assert(vv.take(v@.len() as int) =~= vv);
    r
}

fn collect_types(
    specifiers: &Vec<ModuleSpecifier>,
    module_graph: &ModuleGraph,
    types: &mut Vec<(ModuleSpecifier, ModuleSpecifier)>,
) -> (r: Result<(), TransformError>)
    ensures
        r is Ok <==> all_resolved(module_graph.modules@, specifiers_view(specifiers@)),
        r is Ok ==> pairs_view(final(types)@) == pairs_view(old(types)@) + type_pairs(module_graph.modules@, specifiers_view(specifiers@)),
        r matches Err(e) ==> loader_error(e, module_graph.modules@, specifiers_view(specifiers@)),
{
    let ghost sv = specifiers_view(specifiers@);
    let ghost mods = module_graph.modules@;
    let ghost start = pairs_view(types@);
    let mut i: usize = 0;
    while i < specifiers.len()
        invariant
            i <= specifiers@.len(),
            sv == specifiers_view(specifiers@),
            mods == module_graph.modules@,
            all_resolved(mods, sv.take(i as int)),
            pairs_view(types@) == start + type_pairs(mods, sv.take(i as int)),
        decreases specifiers@.len() - i,
    {
        let s = &specifiers[i];
        assert(sv.take(i + 1).drop_last() =~= sv.take(i as int));
        assert(sv.take(i + 1).last() == s@);
        assert(sv[i as int] == s@);
        let k = match module_graph.find(s) {
            Some(k) => k,
            None => {
                assert(!resolved_at(mods, sv[i as int]));
                return Err(TransformError::MissingModule(s.copy()));
            },
        };
        match &module_graph.modules[k].types_dependency {
            Some(Resolution::Unresolved(_)) => {
                assert(!resolved_at(mods, sv[i as int]));
                assert(types_unresolved(mods, s@));
                return Err(TransformError::TypesResolution(s.copy()));
            },
            Some(Resolution::Resolved(t)) => {
                let ghost before = types@;
                types.push((s.copy(), t.copy()));
                assert(pairs_view(types@) =~= pairs_view(before).push((s@, t@)));
            },
            None => {},
        }
        assert(all_resolved(mods, sv.take(i + 1))) by {
            assert forall|j: int| 0 <= j < i + 1 implies #[trigger] resolved_at(mods, sv.take(i + 1)[j]) by {
                if j < i {
                    assert(sv.take(i + 1)[j] == sv.take(i as int)[j]);
                }
            }
        }
        i = i + 1;
    }
    assert(sv.take(specifiers@.len() as int) =~= sv);
    Ok(())
}

/// Splits off the specifiers that serve as type declarations. Fails when a
/// visited specifier has no module in the graph or a module's
/// type-declaration reference did not resolve.
pub fn get_specifiers_from_loader(specifiers: &LoaderSpecifiers, module_graph: &ModuleGraph) -> (r: Result<Specifiers, TransformError>)
    ensures
        ({
            let lv = specifiers_view(specifiers.local@);
            let rv = specifiers_view(specifiers.remote@);
            let mods = module_graph.modules@;
            let pairs = type_pairs(mods, lv + rv);
            &&& r is Ok <==> all_resolved(mods, lv + rv)
            &&& r matches Err(e) ==> loader_error(e, mods, lv + rv)
            &&& r matches Ok(s) ==> {
                &&& pairs_view(s.types@) == pairs
                &&& specifiers_view(s.local@) == select(lv, type_targets(pairs), false)
                &&& specifiers_view(s.remote@) == select(rv, type_targets(pairs), false)
            }
        }),
{
    let ghost lv = specifiers_view(specifiers.local@);
    let ghost rv = specifiers_view(specifiers.remote@);
    let ghost mods = module_graph.modules@;
    let mut types: Vec<(ModuleSpecifier, ModuleSpecifier)> = Vec::new();
    proof { lemma_type_pairs_append(mods, lv, rv); lemma_all_resolved_append(mods, lv, rv); }
    match collect_types(&specifiers.local, module_graph, &mut types) {
        Ok(()) => {},
        Err(e) => {
            proof { lemma_loader_error_widen(e, mods, lv, rv); }
            return Err(e);
        },
    }
    match collect_types(&specifiers.remote, module_graph, &mut types) {
        Ok(()) => {},
        Err(e) => {
            proof { lemma_loader_error_widen(e, mods, lv, rv); }
            return Err(e);
        },
    }
    assert(pairs_view(types@) =~= type_pairs(mods, lv + rv));
    let targets = targets_of(&types);
    let local = select_specifiers(&specifiers.local, &targets, false);
    let remote = select_specifiers(&specifiers.remote, &targets, false);
    Ok(Specifiers { local, remote, types })
}

proof fn lemma_loader_error_widen(e: TransformError, mods: Seq<Module>, a: Seq<SpecifierView>, b: Seq<SpecifierView>)
    requires
        loader_error(e, mods, a) || loader_error(e, mods, b),
    ensures
        loader_error(e, mods, a + b),
{
    match e {
        TransformError::MissingModule(s) => lemma_contains_concat(a, b, s@),
        TransformError::TypesResolution(s) => lemma_contains_concat(a, b, s@),
        _ => {},
    }
}

proof fn lemma_contains_concat(a: Seq<SpecifierView>, b: Seq<SpecifierView>, x: SpecifierView)
    ensures
        (a.contains(x) || b.contains(x)) ==> (a + b).contains(x),
{
    if a.contains(x) {
        let i = choose|i: int| 0 <= i < a.len() && a[i] == x;
        assert((a + b)[i] == x);
    } else if b.contains(x) {
        let i = choose|i: int| 0 <= i < b.len() && b[i] == x;
        assert((a + b)[a.len() + i] == x);
    }
}

/// The type-declaration specifier of each pair.
fn targets_of(types: &Vec<(ModuleSpecifier, ModuleSpecifier)>) -> (r: Vec<ModuleSpecifier>)
    ensures
        specifiers_view(r@) == type_targets(pairs_view(types@)),
{
    let mut targets: Vec<ModuleSpecifier> = Vec::new();
    let mut i: usize = 0;
    while i < types.len()
        invariant
            i <= types@.len(),
            specifiers_view(targets@) == type_targets(pairs_view(types@)).take(i as int),
        decreases types@.len() - i,
    {
        let ghost before = targets@;
        targets.push(types[i].1.copy());
        assert(type_targets(pairs_view(types@))[i as int] == types@[i as int].1@);
        assert(specifiers_view(targets@) =~= specifiers_view(before).push(types@[i as int].1@));
        assert(specifiers_view(targets@) =~= type_targets(pairs_view(types@)).take(i + 1));
        i = i + 1;
    }
    assert(type_targets(pairs_view(types@)).take(types@.len() as int) =~= type_targets(pairs_view(types@)));
    targets
}

proof fn lemma_type_pairs_append(mods: Seq<Module>, a: Seq<SpecifierView>, b: Seq<SpecifierView>)
    ensures
        type_pairs(mods, a + b) == type_pairs(mods, a) + type_pairs(mods, b),
    decreases b.len(),
{
    if b.len() == 0 {
        assert(a + b =~= a);
        assert(type_pairs(mods, a) + type_pairs(mods, b) =~= type_pairs(mods, a));
    } else {
        assert((a + b).drop_last() =~= a + b.drop_last());
        assert((a + b).last() == b.last());
        lemma_type_pairs_append(mods, a, b.drop_last());
        let x = type_pairs(mods, a);
        let y = type_pairs(mods, b.drop_last());
        match module_index(mods, b.last()) {
            Some(i) => match mods[i].types_dependency {
                Some(Resolution::Resolved(t)) => {
                    assert((x + y).push((b.last(), t@)) =~= x + y.push((b.last(), t@)));
                },
                _ => {},
            },
            None => {},
        }
    }
}

proof fn lemma_all_resolved_append(mods: Seq<Module>, a: Seq<SpecifierView>, b: Seq<SpecifierView>)
    ensures
        all_resolved(mods, a + b) <==> all_resolved(mods, a) && all_resolved(mods, b),
{
    if all_resolved(mods, a) && all_resolved(mods, b) {
        assert forall|i: int| 0 <= i < (a + b).len() implies #[trigger] resolved_at(mods, (a + b)[i]) by {
            if i < a.len() {
                assert((a + b)[i] == a[i]);
            } else {
                assert((a + b)[i] == b[i - a.len()]);
            }
        }
    }
    if all_resolved(mods, a + b) {
        assert forall|i: int| 0 <= i < a.len() implies #[trigger] resolved_at(mods, a[i]) by {
            assert((a + b)[i] == a[i]);
        }
        assert forall|i: int| 0 <= i < b.len() implies #[trigger] resolved_at(mods, b[i]) by {
            assert((a + b)[i + a.len()] == b[i]);
        }
    }
}

/// The changes made to a module: its references rewritten, then the shim
/// pass.
pub open spec fn module_changes(m: &Mappings, md: Module, keep: bool, shim: Seq<char>) -> Seq<ChangeSpec> {
    md.dependencies@.map_values(|d: Dependency| dependency_change(m, m.path_of(md.specifier@), d, keep))
        + deno_global_changes(md.identifiers@, names_view(md.top_level_decls@), shim)
}

/// The module's final text.
pub open spec fn module_text(m: &Mappings, md: Module, keep: bool, shim: Seq<char>) -> Seq<char> {
    decode_utf8(patched(encode_utf8(md.text@), sort_by_start(module_changes(m, md, keep, shim)), 0))
}

/// Every reference of the module has a target with an output path, and
/// the module's changes apply to its text.
pub open spec fn module_ok(m: &Mappings, md: Module, keep: bool, shim: Seq<char>) -> bool {
    let bytes = encode_utf8(md.text@);
    let sorted = sort_by_start(module_changes(m, md, keep, shim));
    &&& forall|i: int| 0 <= i < md.dependencies@.len() ==> crate::module_specifiers::dependency_ok(m, #[trigger] md.dependencies@[i])
    &&& crate::text_changes::well_placed(bytes.len() as int, sorted)
    &&& valid_utf8(patched(bytes, sorted, 0))
}

/// A path written with `/` between its segments.
pub open spec fn render_path(p: PathView) -> Seq<char> {
    join_segments(p.dir.push(p.stem + p.ext))
}

fn render(p: &OutputPath) -> (r: String)
    ensures
        r@ == render_path(p@),
{
    let file = crate::strings::concat(p.stem.as_str(), p.ext.as_str());
    let mut out = String::new();
    crate::module_specifiers::join_into(&mut out, &p.dir, &file);
    assert(out@ =~= render_path(p@));
    out
}

/// Rewrites one module: its references, then the `Deno` shim, applied to
/// its text. Fails as the specifier pass and the applier fail.
pub fn transform_module(md: &Module, mappings: &Mappings, keep_extensions: bool, shim_package_name: &str) -> (r: Result<OutputFile, TransformError>)
    requires
        mappings.has(md.specifier@),
    ensures
        r matches Ok(f) ==> f.file_path@ == render_path(mappings.path_of(md.specifier@))
            && f.file_text@ == module_text(mappings, *md, keep_extensions, shim_package_name@),
        r is Ok <==> module_ok(mappings, *md, keep_extensions, shim_package_name@),
        r matches Err(e) ==> crate::module_specifiers::specifier_error(e, mappings, md.specifier@, md.dependencies@)
            || e is OverlappingChanges || e is InvalidText,
{
    let mut changes = get_module_specifier_text_changes(&GetModuleSpecifierTextChangesParams {
        specifier: &md.specifier,
        dependencies: &md.dependencies,
        mappings,
        use_js_extension: keep_extensions,
    })?;
    let mut shim_changes = get_deno_global_text_changes(&GetDenoGlobalTextChangesParams {
        identifiers: &md.identifiers,
        top_level_decls: &md.top_level_decls,
        shim_package_name,
    });
    let ghost a = changes@;
    let ghost b = shim_changes@;
    changes.append(&mut shim_changes);
    assert(changes_view(changes@) =~= changes_view(a) + changes_view(b));
    assert(changes_view(changes@) == module_changes(mappings, *md, keep_extensions, shim_package_name@));
    let source = md.text.as_str();
    assert(source.spec_bytes() == encode_utf8(md.text@));
    let text = apply_text_changes(source, changes)?;
    let path = render(mappings.get_file_path(&md.specifier));
    Ok(OutputFile { file_path: path, file_text: text })
}

/// The order in which a list of visited specifiers is mapped: those that
/// are not type declarations of another module, then those that are.
pub open spec fn output_order(v: Seq<SpecifierView>, targets: Seq<SpecifierView>) -> Seq<SpecifierView> {
    select(v, targets, false) + select(v, targets, true)
}

proof fn lemma_select_len(v: Seq<SpecifierView>, ex: Seq<SpecifierView>)
    ensures
        select(v, ex, false).len() + select(v, ex, true).len() == v.len(),
    decreases v.len(),
{
    if v.len() > 0 {
        lemma_select_len(v.drop_last(), ex);
    }
}

proof fn lemma_select_sub(v: Seq<SpecifierView>, ex: Seq<SpecifierView>, inside: bool, x: SpecifierView)
    requires
        select(v, ex, inside).contains(x),
    ensures
        v.contains(x),
    decreases v.len(),
{
    let r = select(v.drop_last(), ex, inside);
    if r.contains(x) {
        lemma_select_sub(v.drop_last(), ex, inside, x);
        let i = choose|i: int| 0 <= i < v.len() - 1 && v.drop_last()[i] == x;
        assert(v[i] == x);
    } else {
        assert(select(v, ex, inside) == r.push(v.last()));
        let i = choose|i: int| 0 <= i < r.len() + 1 && r.push(v.last())[i] == x;
        assert(i == r.len());
        assert(v[v.len() - 1] == x);
    }
}

proof fn lemma_contains_split(a: Seq<SpecifierView>, b: Seq<SpecifierView>, x: SpecifierView)
    requires
        (a + b).contains(x),
    ensures
        a.contains(x) || b.contains(x),
{
    let i = choose|i: int| 0 <= i < (a + b).len() && (a + b)[i] == x;
    if i < a.len() {
        assert(a[i] == x);
    } else {
        assert(b[i - a.len()] == x);
    }
}

/// The shim module's name.
pub open spec fn shim_name(o: Option<String>) -> Seq<char> {
    match o {
        Some(s) => s@,
        None => seq!['s', 'h', 'i', 'm', '-', 'p', 'a', 'c', 'k', 'a', 'g', 'e', '-', 'n', 'a', 'm', 'e'],
    }
}

/// The specifiers that serve as another module's type declarations.
pub open spec fn type_specifiers(options: &TransformOptions) -> Seq<SpecifierView> {
    let lv = specifiers_view(options.specifiers.local@);
    let rv = specifiers_view(options.specifiers.remote@);
    type_targets(type_pairs(options.graph.modules@, lv + rv))
}

/// The local specifiers in the order in which they are mapped.
pub open spec fn mapped_local(options: &TransformOptions) -> Seq<SpecifierView> {
    output_order(specifiers_view(options.specifiers.local@), type_specifiers(options))
}

/// The remote specifiers in the order in which they are mapped.
pub open spec fn mapped_remote(options: &TransformOptions) -> Seq<SpecifierView> {
    output_order(specifiers_view(options.specifiers.remote@), type_specifiers(options))
}

/// The order of the output files: local modules, remote modules, then the
/// modules that serve as type declarations, local before remote.
pub open spec fn emit_order(options: &TransformOptions) -> Seq<SpecifierView> {
    let lv = specifiers_view(options.specifiers.local@);
    let rv = specifiers_view(options.specifiers.remote@);
    let tg = type_specifiers(options);
    select(lv, tg, false) + select(rv, tg, false) + select(lv, tg, true) + select(rv, tg, true)
}

/// Where the `k`-th emitted specifier stands in the mapping order, for
/// lists of lengths `a`, `b`, `c` (local, remote, local type declarations).
pub open spec fn mapped_position(a: int, b: int, c: int, k: int) -> int {
    if k < a {
        k
    } else if k < a + b {
        k + c
    } else if k < a + b + c {
        k - b
    } else {
        k
    }
}

proof fn lemma_mapped_position(a: Seq<SpecifierView>, b: Seq<SpecifierView>, c: Seq<SpecifierView>, d: Seq<SpecifierView>, k: int)
    requires
        0 <= k < a.len() + b.len() + c.len() + d.len(),
    ensures
        ({
            let j = mapped_position(a.len() as int, b.len() as int, c.len() as int, k);
            0 <= j < ((a + c) + (b + d)).len() && ((a + c) + (b + d))[j] == (a + b + c + d)[k]
        }),
{
}

proof fn lemma_emit_has(options: &TransformOptions, m: &Mappings, k: int)
    requires
        m.built_from(&options.graph, mapped_local(options), mapped_remote(options)),
        0 <= k < emit_order(options).len(),
    ensures
        m.has(emit_order(options)[k]),
        crate::graph::media_of(options.graph.modules@, emit_order(options)[k]) is Some,
        module_index(options.graph.modules@, emit_order(options)[k]) is Some,
{
    let lv = specifiers_view(options.specifiers.local@);
    let rv = specifiers_view(options.specifiers.remote@);
    let tg = type_specifiers(options);
    let (a, b, c, d) = (select(lv, tg, false), select(rv, tg, false), select(lv, tg, true), select(rv, tg, true));
    lemma_mapped_position(a, b, c, d, k);
    let j = mapped_position(a.len() as int, b.len() as int, c.len() as int, k);
    let order = mapped_local(options) + mapped_remote(options);
    assert(order == (a + c) + (b + d));
    let s = emit_order(options)[k];
    assert(crate::mappings::entry_specifiers(m.entries())[j] == s);
    crate::specifier::lemma_first_index(crate::mappings::entry_specifiers(m.entries()), s, 0);
    assert(Some(m.entries()[j].media_type) == crate::graph::media_of(options.graph.modules@, order[j]));
}

/// The module of `s` in the graph.
pub open spec fn module_of(mods: Seq<Module>, s: SpecifierView) -> Module {
    mods[module_index(mods, s).unwrap()]
}

/// `f` is the output for the module of `s`: its path in `m`, its final
/// text, and the module's rewrite succeeds.
pub open spec fn file_ok(f: OutputFile, m: &Mappings, options: &TransformOptions, s: SpecifierView) -> bool {
    let md = module_of(options.graph.modules@, s);
    &&& f.file_path@ == render_path(m.path_of(s))
    &&& f.file_text@ == module_text(m, md, options.keep_extensions, shim_name(options.shim_package_name))
    &&& module_ok(m, md, options.keep_extensions, shim_name(options.shim_package_name))
}

/// `files` holds, for each module in output order, its output.
pub open spec fn outputs_match(files: Seq<OutputFile>, m: &Mappings, options: &TransformOptions) -> bool {
    let order = emit_order(options);
    &&& files.len() == order.len()
    &&& forall|k: int| 0 <= k < order.len() ==> file_ok(#[trigger] files[k], m, options, order[k])
}

/// Every visited module is in the graph with its type declarations
/// resolved, and the table built from them makes every module's rewrite
/// succeed.
pub open spec fn transform_ok(options: &TransformOptions) -> bool {
    let lv = specifiers_view(options.specifiers.local@);
    let rv = specifiers_view(options.specifiers.remote@);
    let mapped = mapped_local(options) + mapped_remote(options);
    let order = emit_order(options);
    let mods = options.graph.modules@;
    &&& all_resolved(mods, lv + rv)
    &&& forall|i: int| 0 <= i < mapped.len() ==> crate::graph::media_of(mods, #[trigger] mapped[i]) is Some
    &&& exists|m: Mappings| #[trigger] m.built_from(&options.graph, mapped_local(options), mapped_remote(options))
        && forall|k: int| 0 <= k < order.len() ==> module_ok(&m, #[trigger] module_of(mods, order[k]),
            options.keep_extensions, shim_name(options.shim_package_name))
}

/// `e` is an error that the transform reports, naming what caused it: a
/// visited specifier without module or with an unresolved type-declaration
/// reference; an emitted module with an unresolved reference, and that
/// reference's text; a target of an emitted module's reference that has no
/// output path; or changes that cannot be applied.
pub open spec fn transform_error(e: TransformError, options: &TransformOptions) -> bool {
    let lv = specifiers_view(options.specifiers.local@);
    let rv = specifiers_view(options.specifiers.remote@);
    let mods = options.graph.modules@;
    let order = emit_order(options);
    match e {
        TransformError::MissingModule(_) => loader_error(e, mods, lv + rv),
        TransformError::TypesResolution(_) => loader_error(e, mods, lv + rv),
        TransformError::UnresolvedDependency(s, text) => order.contains(s@)
            && crate::module_specifiers::has_unresolved(module_of(mods, s@).dependencies@, text@),
        TransformError::MissingMapping(t) => !(mapped_local(options) + mapped_remote(options)).contains(t@)
            && exists|k: int| 0 <= k < order.len()
                && crate::module_specifiers::refers_to(#[trigger] module_of(mods, order[k]).dependencies@, t@),
        TransformError::OverlappingChanges => true,
        TransformError::InvalidText => true,
        TransformError::UnsupportedScheme(_) => false,
    }
}

/// Transforms the whole graph. Every local module, then every remote
/// module, then every module that serves as type declarations of another,
/// is emitted with its output path and its final text. Fails on the first
/// error: a specifier without module, a type-declaration reference or a
/// reference that did not resolve, a reference to a module without output
/// path, or changes that cannot be applied.
pub fn transform(options: &TransformOptions) -> (r: Result<Vec<OutputFile>, TransformError>)
    requires
        options.specifiers.local@.len() + options.specifiers.remote@.len() < usize::MAX,
    ensures
        r matches Ok(files) ==> exists|m: Mappings|
            #[trigger] m.built_from(&options.graph, mapped_local(options), mapped_remote(options))
                && outputs_match(files@, &m, options),
        r is Ok <==> transform_ok(options),
        r matches Err(e) ==> transform_error(e, options),
{
    let ghost lv = specifiers_view(options.specifiers.local@);
    let ghost rv = specifiers_view(options.specifiers.remote@);
    let ghost mods = options.graph.modules@;
    let ghost tg = type_specifiers(options);
    let shim = match &options.shim_package_name {
        Some(s) => s.clone(),
        None => String::from_str("shim-package-name"),
    };
    proof { reveal_strlit("shim-package-name"); }
    assert(shim@ =~= shim_name(options.shim_package_name));
    let specifiers = match get_specifiers_from_loader(&options.specifiers, &options.graph) {
        Ok(s) => s,
        Err(e) => {
            return Err(e);
        },
    };
    let targets = targets_of(&specifiers.types);
    assert(specifiers_view(targets@) == tg);
    let mut local = select_specifiers(&options.specifiers.local, &targets, false);
    let mut local_types = select_specifiers(&options.specifiers.local, &targets, true);
    let mut remote = select_specifiers(&options.specifiers.remote, &targets, false);
    let mut remote_types = select_specifiers(&options.specifiers.remote, &targets, true);
    let ghost (l1, l2, r1, r2) = (local@, local_types@, remote@, remote_types@);
    local.append(&mut local_types);
    remote.append(&mut remote_types);
    assert(specifiers_view(local@) =~= specifiers_view(l1) + specifiers_view(l2));
    assert(specifiers_view(remote@) =~= specifiers_view(r1) + specifiers_view(r2));
    assert(specifiers_view(local@) == mapped_local(options));
    assert(specifiers_view(remote@) == mapped_remote(options));
    proof {
        lemma_select_len(lv, tg);
        lemma_select_len(rv, tg);
    }
    let mappings = match Mappings::new(&options.graph, &local, &remote) {
        Ok(m) => m,
        Err(e) => {
            proof {
                let mapped = mapped_local(options) + mapped_remote(options);
                let s = e->MissingModule_0;
                lemma_contains_split(mapped_local(options), mapped_remote(options), s@);
                if mapped_local(options).contains(s@) {
                    lemma_contains_split(select(lv, tg, false), select(lv, tg, true), s@);
                    if select(lv, tg, false).contains(s@) {
                        lemma_select_sub(lv, tg, false, s@);
                    } else {
                        lemma_select_sub(lv, tg, true, s@);
                    }
                } else {
                    lemma_contains_split(select(rv, tg, false), select(rv, tg, true), s@);
                    if select(rv, tg, false).contains(s@) {
                        lemma_select_sub(rv, tg, false, s@);
                    } else {
                        lemma_select_sub(rv, tg, true, s@);
                    }
                }
                lemma_contains_concat(lv, rv, s@);
                let i = choose|i: int| 0 <= i < mapped.len() && mapped[i] == s@;
                assert(crate::graph::media_of(mods, mapped[i]) is None);
            }
            return Err(e);
        },
    };
    let ghost order = emit_order(options);
    let mut all = specifiers.local;
    let mut rest = specifiers.remote;
    let mut lt = select_specifiers(&options.specifiers.local, &targets, true);
    let mut rt = select_specifiers(&options.specifiers.remote, &targets, true);
    let ghost (e1, e2, e3, e4) = (all@, rest@, lt@, rt@);
    all.append(&mut rest);
    all.append(&mut lt);
    all.append(&mut rt);
    assert(specifiers_view(all@) =~= specifiers_view(e1) + specifiers_view(e2) + specifiers_view(e3) + specifiers_view(e4));
    assert(specifiers_view(all@) == order);
    let mut result: Vec<OutputFile> = Vec::new();
    let mut k: usize = 0;
    while k < all.len()
        invariant
            k <= all@.len(),
            specifiers_view(all@) == order,
            order == emit_order(options),
            mods == options.graph.modules@,
            shim@ == shim_name(options.shim_package_name),
            mappings.built_from(&options.graph, mapped_local(options), mapped_remote(options)),
            result@.len() == k,
            forall|j: int| 0 <= j < k ==> file_ok(#[trigger] result@[j], &mappings, options, order[j]),
        decreases all@.len() - k,
    {
        let s = &all[k];
        assert(s@ == order[k as int]);
        proof { lemma_emit_has(options, &mappings, k as int); }
        let mi = match options.graph.find(s) {
            Some(mi) => mi,
            None => {
                proof { assert(false); }
                return Err(TransformError::MissingModule(s.copy()));
            },
        };
        let md = &options.graph.modules[mi];
        proof {
            crate::specifier::lemma_first_index(crate::graph::module_specifiers(mods), s@, 0);
            assert(crate::graph::module_specifiers(mods)[mi as int] == md.specifier@);
            assert(*md == module_of(mods, order[k as int]));
        }
        let f = match transform_module(md, &mappings, options.keep_extensions, shim.as_str()) {
            Ok(f) => f,
            Err(e) => {
                proof {
                    if transform_ok(options) {
                        let m2 = choose|m: Mappings| #[trigger] m.built_from(&options.graph, mapped_local(options), mapped_remote(options))
                            && forall|j: int| 0 <= j < order.len() ==> module_ok(&m, #[trigger] module_of(mods, order[j]),
                                options.keep_extensions, shim_name(options.shim_package_name));
                        crate::mappings::lemma_built_from_unique(&mappings, &m2, &options.graph, mapped_local(options), mapped_remote(options));
                        lemma_same_mapping_same_text(&mappings, &m2, *md, options.keep_extensions, shim@);
                        assert(module_ok(&m2, module_of(mods, order[k as int]), options.keep_extensions, shim_name(options.shim_package_name)));
                    }
                    if e is UnresolvedDependency {
                        assert(order[k as int] == e->UnresolvedDependency_0@);
                    } else if e is MissingMapping {
                        let t = e->MissingMapping_0;
                        {
                            let mapped = mapped_local(options) + mapped_remote(options);
                            crate::specifier::lemma_first_index(crate::mappings::entry_specifiers(mappings.entries()), t@, 0);
                            assert(crate::mappings::entry_specifiers(mappings.entries()) == mapped);
                            assert(crate::module_specifiers::refers_to(module_of(mods, order[k as int]).dependencies@, t@));
                            if mapped.contains(t@) {
                                let i = choose|i: int| 0 <= i < mapped.len() && mapped[i] == t@;
                                assert(false);
                            }
                        }
                    }
                }
                return Err(e);
            },
        };
        let ghost before = result@;
        result.push(f);
        proof {
            assert(file_ok(result@[k as int], &mappings, options, order[k as int]));
            assert forall|j: int| 0 <= j < k + 1 implies file_ok(#[trigger] result@[j], &mappings, options, order[j]) by {
                if j < k {
                    assert(result@[j] == before[j]);
                }
            }
        }
        k = k + 1;
    }
    assert(outputs_match(result@, &mappings, options));
    proof {
        let mapped = mapped_local(options) + mapped_remote(options);
        assert forall|j: int| 0 <= j < order.len() implies module_ok(&mappings, #[trigger] module_of(mods, order[j]),
            options.keep_extensions, shim_name(options.shim_package_name)) by {
            assert(file_ok(result@[j], &mappings, options, order[j]));
        }
        assert forall|i: int| 0 <= i < mapped.len() implies crate::graph::media_of(mods, #[trigger] mapped[i]) is Some by {
            assert(Some(mappings.entries()[i].media_type) == crate::graph::media_of(mods, mapped[i]));
        }
        assert(mappings.built_from(&options.graph, mapped_local(options), mapped_remote(options)));
    }
    Ok(result)
}

proof fn lemma_same_mapping_same_text(m1: &Mappings, m2: &Mappings, md: Module, keep: bool, shim: Seq<char>)
    requires
        m1.has(md.specifier@),
        forall|s: SpecifierView| #[trigger] m1.has(s) == m2.has(s),
        forall|s: SpecifierView| m1.has(s) ==> #[trigger] m1.path_of(s) == m2.path_of(s) && m1.media_type_of(s) == m2.media_type_of(s),
    ensures
        module_ok(m1, md, keep, shim) == module_ok(m2, md, keep, shim),
        module_ok(m1, md, keep, shim) ==> module_text(m1, md, keep, shim) == module_text(m2, md, keep, shim),
{
    let from = md.specifier@;
    let deps = md.dependencies@;
    assert(m1.path_of(from) == m2.path_of(from));
    assert forall|i: int| 0 <= i < deps.len() implies crate::module_specifiers::dependency_ok(m1, #[trigger] deps[i])
        == crate::module_specifiers::dependency_ok(m2, deps[i]) by {
        if deps[i].resolution is Resolved {
            assert(m1.has(deps[i].resolution->Resolved_0@) == m2.has(deps[i].resolution->Resolved_0@));
        }
    }
    if forall|i: int| 0 <= i < deps.len() ==> crate::module_specifiers::dependency_ok(m1, #[trigger] deps[i]) {
        let d1 = deps.map_values(|d: Dependency| dependency_change(m1, m1.path_of(from), d, keep));
        let d2 = deps.map_values(|d: Dependency| dependency_change(m2, m2.path_of(from), d, keep));
        assert forall|i: int| 0 <= i < d1.len() implies d1[i] == d2[i] by {
            let d = deps[i];
            let t = d.resolution->Resolved_0;
            assert(crate::module_specifiers::dependency_ok(m1, d));
            assert(m1.path_of(t@) == m2.path_of(t@));
            assert(m1.media_type_of(t@) == m2.media_type_of(t@));
        }
        assert(d1 =~= d2);
        assert(module_changes(m1, md, keep, shim) == module_changes(m2, md, keep, shim));
    } else {
        let i = choose|i: int| 0 <= i < deps.len() && !crate::module_specifiers::dependency_ok(m1, #[trigger] deps[i]);
        assert(!crate::module_specifiers::dependency_ok(m2, deps[i]));
    }
}

/// Running the transform twice on the same options gives the same files,
/// in the same order, with the same texts.
pub proof fn lemma_transform_deterministic(options: &TransformOptions, f1: Seq<OutputFile>, f2: Seq<OutputFile>)
    requires
        exists|m: Mappings| #[trigger] m.built_from(&options.graph, mapped_local(options), mapped_remote(options)) && outputs_match(f1, &m, options),
        exists|m: Mappings| #[trigger] m.built_from(&options.graph, mapped_local(options), mapped_remote(options)) && outputs_match(f2, &m, options),
    ensures
        f1.len() == f2.len(),
        forall|k: int| 0 <= k < f1.len() ==> (#[trigger] f1[k]).file_path@ == f2[k].file_path@ && f1[k].file_text@ == f2[k].file_text@,
{
    let ml = mapped_local(options);
    let mr = mapped_remote(options);
    let m1 = choose|m: Mappings| #[trigger] m.built_from(&options.graph, ml, mr) && outputs_match(f1, &m, options);
    let m2 = choose|m: Mappings| #[trigger] m.built_from(&options.graph, ml, mr) && outputs_match(f2, &m, options);
    crate::mappings::lemma_built_from_unique(&m1, &m2, &options.graph, ml, mr);
    let order = emit_order(options);
    let mods = options.graph.modules@;
    assert forall|k: int| 0 <= k < f1.len() implies (#[trigger] f1[k]).file_path@ == f2[k].file_path@ && f1[k].file_text@ == f2[k].file_text@ by {
        let md = module_of(mods, order[k]);
        lemma_emit_has(options, &m1, k);
        crate::specifier::lemma_first_index(crate::graph::module_specifiers(mods), order[k], 0);
        assert(md.specifier@ == order[k]);
        assert(file_ok(f1[k], &m1, options, order[k]));
        assert(file_ok(f2[k], &m2, options, order[k]));
        lemma_same_mapping_same_text(&m1, &m2, md, options.keep_extensions, shim_name(options.shim_package_name));
    }
}

} // verus!
