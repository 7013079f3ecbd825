use deno_node_transform::deno_globals::get_unique_name;
use deno_node_transform::error::TransformError;
use deno_node_transform::graph::{MediaType, Module, ModuleGraph};
use deno_node_transform::loader::SourceLoader;
use deno_node_transform::mappings::{split_name, Mappings};
use deno_node_transform::specifier::{ModuleSpecifier, SpecifierKind};
use deno_node_transform::strings::decimal_string;
use deno_node_transform::text_changes::{apply_text_changes, TextChange};

fn spec(scheme: &str, host: &str, dir: &[&str], name: &str) -> ModuleSpecifier {
    ModuleSpecifier::new(scheme, host, dir.iter().map(|s| s.to_string()).collect(), name)
}

fn change(start: usize, end: usize, text: &str) -> TextChange {
    TextChange { start, end, new_text: text.to_string() }
}

fn plain_module(s: ModuleSpecifier, media_type: MediaType) -> Module {
    Module {
        specifier: s,
        media_type,
        text: String::new(),
        dependencies: vec![],
        types_dependency: None,
        identifiers: vec![],
        top_level_decls: vec![],
    }
}

fn path_string(m: &Mappings, s: &ModuleSpecifier) -> String {
    let p = m.get_file_path(s);
    let mut parts = p.dir.clone();
    parts.push(format!("{}{}", p.stem, p.ext));
    parts.join("/")
}

#[test]
fn apply_sorts_changes_by_start() {
    let r = apply_text_changes("abcdef", vec![change(4, 5, "E"), change(0, 0, ">"), change(1, 2, "B")]);
    assert_eq!(r.ok().unwrap(), ">aBcdEf");
}

#[test]
fn apply_without_changes_keeps_text() {
    assert_eq!(apply_text_changes("test;", vec![]).ok().unwrap(), "test;");
}

#[test]
fn apply_rejects_overlapping_changes() {
    let r = apply_text_changes("abcdef", vec![change(1, 4, "x"), change(3, 5, "y")]);
    assert!(matches!(r, Err(TransformError::OverlappingChanges)));
}

#[test]
fn apply_rejects_change_past_the_end() {
    let r = apply_text_changes("abc", vec![change(2, 9, "x")]);
    assert!(matches!(r, Err(TransformError::OverlappingChanges)));
}

#[test]
fn apply_rejects_split_character() {
    let r = apply_text_changes("é", vec![change(1, 2, "x")]);
    assert!(matches!(r, Err(TransformError::InvalidText)));
}

#[test]
fn apply_handles_multibyte_text() {
    let r = apply_text_changes("é = Deno;", vec![change(5, 9, "shim.Deno")]);
    assert_eq!(r.ok().unwrap(), "é = shim.Deno;");
}

#[test]
fn unique_name_is_base_when_free() {
    assert_eq!(get_unique_name("denoShim", &vec!["Deno".to_string()]), "denoShim");
}

#[test]
fn unique_name_appends_counter() {
    let taken = vec!["denoShim".to_string(), "denoShim1".to_string(), "x".to_string()];
    assert_eq!(get_unique_name("denoShim", &taken), "denoShim2");
}

#[test]
fn decimal_rendering() {
    assert_eq!(decimal_string(0), "0");
    assert_eq!(decimal_string(7), "7");
    assert_eq!(decimal_string(1203), "1203");
}

#[test]
fn split_name_at_last_dot() {
    let (s, e) = split_name(&"mod.d.ts".to_string());
    assert_eq!((s.as_str(), e.as_str()), ("mod.d", ".ts"));
    let (s, e) = split_name(&"folder".to_string());
    assert_eq!((s.as_str(), e.as_str()), ("folder", ""));
    let (s, e) = split_name(&".hidden".to_string());
    assert_eq!((s.as_str(), e.as_str()), (".hidden", ""));
}

#[test]
fn loader_records_each_specifier_once() {
    let mut loader = SourceLoader::new();
    let a = spec("file", "", &["x"], "a.ts");
    let r = spec("https", "example.com", &[], "r.ts");
    assert_eq!(loader.load(&a).ok(), Some(SpecifierKind::Local));
    assert_eq!(loader.load(&r).ok(), Some(SpecifierKind::Remote));
    assert_eq!(loader.load(&a).ok(), Some(SpecifierKind::Local));
    let s = loader.into_specifiers();
    assert_eq!(s.local.len(), 1);
    assert_eq!(s.remote.len(), 1);
}

#[test]
fn loader_refuses_unknown_scheme() {
    let mut loader = SourceLoader::new();
    let d = spec("data", "", &[], "x");
    assert!(matches!(loader.load(&d), Err(TransformError::UnsupportedScheme(_))));
    let s = loader.into_specifiers();
    assert_eq!(s.local.len() + s.remote.len(), 0);
}

#[test]
fn mappings_keep_local_layout_below_common_base() {
    let a = spec("file", "", &["p", "src"], "a.ts");
    let b = spec("file", "", &["p", "src", "sub"], "b.js");
    let g = ModuleGraph { modules: vec![plain_module(a.copy(), MediaType::TypeScript), plain_module(b.copy(), MediaType::JavaScript)] };
    let m = Mappings::new(&g, &vec![a.copy(), b.copy()], &vec![]).ok().unwrap();
    assert_eq!(path_string(&m, &a), "a.ts");
    assert_eq!(path_string(&m, &b), "sub/b.js");
}

#[test]
fn mappings_with_no_local_modules() {
    let r = spec("https", "example.com", &["lib"], "x.ts");
    let g = ModuleGraph { modules: vec![plain_module(r.copy(), MediaType::TypeScript)] };
    let m = Mappings::new(&g, &vec![], &vec![r.copy()]).ok().unwrap();
    assert_eq!(path_string(&m, &r), "deps/0/x.ts");
}

#[test]
fn mappings_widen_root_of_group() {
    let a = spec("https", "example.com", &["a", "b"], "x.ts");
    let b = spec("https", "example.com", &["a", "c"], "y.ts");
    let g = ModuleGraph { modules: vec![plain_module(a.copy(), MediaType::TypeScript), plain_module(b.copy(), MediaType::TypeScript)] };
    let m = Mappings::new(&g, &vec![], &vec![a.copy(), b.copy()]).ok().unwrap();
    assert_eq!(path_string(&m, &a), "deps/0/b/x.ts");
    assert_eq!(path_string(&m, &b), "deps/0/c/y.ts");
}

#[test]
fn mappings_extension_follows_media_type() {
    let a = spec("https", "example.com", &[], "x.js");
    let g = ModuleGraph { modules: vec![plain_module(a.copy(), MediaType::TypeScript)] };
    let m = Mappings::new(&g, &vec![], &vec![a.copy()]).ok().unwrap();
    assert_eq!(path_string(&m, &a), "deps/0/x.ts");
}

#[test]
fn mappings_suffix_skips_taken_stems() {
    let a = spec("https", "h", &[], "f");
    let b = spec("https", "h", &[], "f_2.ts");
    let c = spec("https", "h", &[], "f.ts");
    let g = ModuleGraph {
        modules: vec![
            plain_module(a.copy(), MediaType::JavaScript),
            plain_module(b.copy(), MediaType::TypeScript),
            plain_module(c.copy(), MediaType::TypeScript),
        ],
    };
    let m = Mappings::new(&g, &vec![], &vec![a.copy(), b.copy(), c.copy()]).ok().unwrap();
    assert_eq!(path_string(&m, &a), "deps/0/f.js");
    assert_eq!(path_string(&m, &b), "deps/0/f_2.ts");
    assert_eq!(path_string(&m, &c), "deps/0/f_3.ts");
}

#[test]
fn mappings_fail_without_media_type() {
    let a = spec("file", "", &[], "a.ts");
    let g = ModuleGraph { modules: vec![] };
    assert!(matches!(Mappings::new(&g, &vec![a], &vec![]), Err(TransformError::MissingModule(_))));
}


#[test]
fn apply_puts_insertion_before_replacement_at_same_offset() {
    let r = apply_text_changes("Deno;", vec![change(0, 4, "x"), change(0, 0, "y")]);
    assert_eq!(r.ok().unwrap(), "yx;");
}

#[test]
fn mappings_keep_declaration_extension_whole() {
    let a = spec("https", "example.com", &[], "mod.d.ts");
    let g = ModuleGraph { modules: vec![plain_module(a.copy(), MediaType::Dts)] };
    let m = Mappings::new(&g, &vec![], &vec![a.copy()]).ok().unwrap();
    assert_eq!(path_string(&m, &a), "deps/0/mod.d.ts");
}
