use deno_node_transform::error::TransformError;
use deno_node_transform::graph::{Dependency, Identifier, MediaType, Module, ModuleGraph, Resolution};
use deno_node_transform::loader::SourceLoader;
use deno_node_transform::specifier::ModuleSpecifier;
use deno_node_transform::{transform, OutputFile, TransformOptions};

/// Parses a URL of the simple shapes used here into a specifier.
fn spec(url: &str) -> ModuleSpecifier {
    let (scheme, rest) = url.split_once("://").unwrap();
    let (host, path) = match rest.find('/') {
        Some(i) => (&rest[..i], &rest[i + 1..]),
        None => (rest, ""),
    };
    let mut segs: Vec<String> = path.split('/').map(|s| s.to_string()).collect();
    let name = segs.pop().unwrap_or_default();
    ModuleSpecifier::new(scheme, host, segs, &name)
}

/// The byte span of the `nth` occurrence of `needle` in `text`.
fn span(text: &str, needle: &str, nth: usize) -> (usize, usize) {
    let mut from = 0;
    let mut found = 0;
    loop {
        let i = from + text[from..].find(needle).unwrap();
        if found == nth {
            return (i, i + needle.len());
        }
        found += 1;
        from = i + 1;
    }
}

fn ident(text: &str, name: &str, nth: usize, top_level: bool) -> Identifier {
    let (start, end) = span(text, name, nth);
    Identifier { start, end, text: name.to_string(), top_level }
}

/// A reference whose literal contents are `literal`, resolving to `target`.
fn dep(text: &str, literal: &str, target: &str) -> Dependency {
    let (start, end) = span(text, literal, 0);
    Dependency { start, end, resolution: Resolution::Resolved(spec(target)) }
}

fn module(
    url: &str,
    media_type: MediaType,
    text: &str,
    dependencies: Vec<Dependency>,
    identifiers: Vec<Identifier>,
    decls: &[&str],
) -> Module {
    Module {
        specifier: spec(url),
        media_type,
        text: text.to_string(),
        dependencies,
        types_dependency: None,
        identifiers,
        top_level_decls: decls.iter().map(|d| d.to_string()).collect(),
    }
}

/// Records the modules' specifiers in order, as graph resolution would.
fn options(modules: Vec<Module>, keep_extensions: bool, shim: Option<&str>) -> TransformOptions {
    let mut loader = SourceLoader::new();
    for m in &modules {
        loader.load(&m.specifier).ok().unwrap();
    }
    TransformOptions {
        specifiers: loader.into_specifiers(),
        graph: ModuleGraph { modules },
        keep_extensions,
        shim_package_name: shim.map(|s| s.to_string()),
    }
}

fn assert_files(result: Vec<OutputFile>, expected: &[(&str, &str)]) {
    let actual: Vec<(String, String)> = result.into_iter().map(|f| (f.file_path, f.file_text)).collect();
    let expected: Vec<(String, String)> = expected.iter().map(|(p, t)| (p.to_string(), t.to_string())).collect();
    assert_eq!(actual, expected);
}

#[test]
fn transform_standalone_file() {
    let text = "test;";
    let m = module("file:///mod.ts", MediaType::TypeScript, text, vec![], vec![ident(text, "test", 0, true)], &[]);
    let result = transform(&options(vec![m], false, None)).ok().unwrap();
    assert_files(result, &[("mod.ts", "test;")]);
}

#[test]
fn transform_deno_shim() {
    let text = "Deno.readTextFile();";
    let ids = vec![ident(text, "Deno", 0, true), ident(text, "readTextFile", 0, false)];
    let m = module("file:///mod.ts", MediaType::TypeScript, text, vec![], ids, &[]);
    let result = transform(&options(vec![m], false, None)).ok().unwrap();
    assert_files(result, &[(
        "mod.ts",
        "import * as denoShim from \"shim-package-name\";\ndenoShim.Deno.readTextFile();",
    )]);
}

#[test]
fn transform_deno_shim_with_name_collision() {
    let text = "Deno.readTextFile(); const denoShim = {};";
    let ids = vec![
        ident(text, "Deno", 0, true),
        ident(text, "readTextFile", 0, false),
        ident(text, "denoShim", 0, true),
    ];
    let m = module("file:///mod.ts", MediaType::TypeScript, text, vec![], ids, &["denoShim"]);
    let result = transform(&options(vec![m], false, Some("test-shim"))).ok().unwrap();
    assert_files(result, &[(
        "mod.ts",
        "import * as denoShim1 from \"test-shim\";\ndenoShim1.Deno.readTextFile(); const denoShim = {};",
    )]);
}

#[test]
fn transform_global_this_deno() {
    let text = "globalThis.Deno.readTextFile();";
    let ids = vec![
        ident(text, "globalThis", 0, true),
        ident(text, "Deno", 0, false),
        ident(text, "readTextFile", 0, false),
    ];
    let m = module("file:///mod.ts", MediaType::TypeScript, text, vec![], ids, &[]);
    let result = transform(&options(vec![m], false, Some("test-shim"))).ok().unwrap();
    assert_files(result, &[(
        "mod.ts",
        "import * as denoShim from \"test-shim\";\n({ Deno: denoShim.Deno, ...globalThis }).Deno.readTextFile();",
    )]);
}

#[test]
fn transform_deno_collision() {
    let text = "const Deno = {};const { Deno: Deno2 } = globalThis;Deno2.readTextFile();Deno.test;";
    let ids = vec![
        ident(text, "Deno", 0, true),
        ident(text, "Deno", 1, false),
        ident(text, "Deno2", 0, true),
        ident(text, "globalThis", 0, true),
        ident(text, "Deno2", 1, true),
        ident(text, "readTextFile", 0, false),
        ident(text, "Deno", 4, true),
        ident(text, "test", 0, false),
    ];
    let m = module("file:///mod.ts", MediaType::TypeScript, text, vec![], ids, &["Deno", "Deno2"]);
    let result = transform(&options(vec![m], false, Some("test-shim"))).ok().unwrap();
    assert_files(result, &[(
        "mod.ts",
        "import * as denoShim from \"test-shim\";\nconst Deno = {};const { Deno: Deno2 } = ({ Deno: denoShim.Deno, ...globalThis });Deno2.readTextFile();Deno.test;",
    )]);
}

fn two_local_files(keep_extensions: bool) -> TransformOptions {
    let text = "import * as other from './other.ts';";
    let m = module(
        "file:///mod.ts",
        MediaType::TypeScript,
        text,
        vec![dep(text, "./other.ts", "file:///other.ts")],
        vec![ident(text, "other", 0, true)],
        &["other"],
    );
    let o = module("file:///other.ts", MediaType::TypeScript, "5;", vec![], vec![], &[]);
    options(vec![m, o], keep_extensions, None)
}

#[test]
fn transform_other_file_no_extensions() {
    let result = transform(&two_local_files(false)).ok().unwrap();
    assert_files(result, &[("mod.ts", "import * as other from './other';"), ("other.ts", "5;")]);
}

#[test]
fn transform_other_file_keep_extensions() {
    let result = transform(&two_local_files(true)).ok().unwrap();
    assert_files(result, &[("mod.ts", "import * as other from './other.js';"), ("other.ts", "5;")]);
}

/// A module whose text is one import of `literal` as `name`, resolving to
/// `target`.
fn importer(url: &str, media_type: MediaType, name: &str, literal: &str, target: &str) -> Module {
    let text = format!("import * as {} from '{}';", name, literal);
    let d = dep(&text, literal, target);
    let i = ident(&text, name, 0, true);
    module(url, media_type, &text, vec![d], vec![i], &[name])
}

fn remote_graph() -> TransformOptions {
    let modules = vec![
        importer("file:///mod.ts", MediaType::TypeScript, "other", "http://localhost/mod.ts", "http://localhost/mod.ts"),
        importer("http://localhost/mod.ts", MediaType::TypeScript, "myOther", "./other.ts", "http://localhost/other.ts"),
        importer("http://localhost/other.ts", MediaType::TypeScript, "folder", "./folder", "http://localhost/folder"),
        importer("http://localhost/folder", MediaType::JavaScript, "folder2", "./folder.ts", "http://localhost/folder.ts"),
        importer("http://localhost/folder.ts", MediaType::TypeScript, "folder3", "./folder.js", "http://localhost/folder.js"),
        importer("http://localhost/folder.js", MediaType::JavaScript, "otherFolder", "./otherFolder", "http://localhost/otherFolder"),
        importer("http://localhost/otherFolder", MediaType::JavaScript, "subFolder", "./sub/subfolder", "http://localhost/sub/subfolder"),
        importer("http://localhost/sub/subfolder", MediaType::JavaScript, "localhost2", "http://localhost2", "http://localhost2"),
        importer("http://localhost2", MediaType::JavaScript, "localhost3Mod", "https://localhost3/mod.ts", "https://localhost3/mod.ts"),
        importer("https://localhost3/mod.ts", MediaType::TypeScript, "localhost3", "https://localhost3", "https://localhost3"),
        module("https://localhost3", MediaType::JavaScript, "5;", vec![], vec![], &[]),
    ];
    options(modules, false, None)
}

#[test]
fn transform_remote_files() {
    let result = transform(&remote_graph()).ok().unwrap();
    assert_files(result, &[
        ("mod.ts", "import * as other from './deps/0/mod';"),
        ("deps/0/mod.ts", "import * as myOther from './other';"),
        ("deps/0/other.ts", "import * as folder from './folder';"),
        ("deps/0/folder.js", "import * as folder2 from './folder_2';"),
        ("deps/0/folder_2.ts", "import * as folder3 from './folder_3';"),
        ("deps/0/folder_3.js", "import * as otherFolder from './otherFolder';"),
        ("deps/0/otherFolder.js", "import * as subFolder from './sub/subfolder';"),
        ("deps/0/sub/subfolder.js", "import * as localhost2 from '../../1';"),
        ("deps/1.js", "import * as localhost3Mod from './2/mod';"),
        ("deps/2/mod.ts", "import * as localhost3 from '../2';"),
        ("deps/2.js", "5;"),
    ]);
}

#[test]
fn transform_twice_gives_identical_output() {
    let first = transform(&remote_graph()).ok().unwrap();
    let second = transform(&remote_graph()).ok().unwrap();
    let a: Vec<(String, String)> = first.into_iter().map(|f| (f.file_path, f.file_text)).collect();
    let b: Vec<(String, String)> = second.into_iter().map(|f| (f.file_path, f.file_text)).collect();
    assert_eq!(a, b);
}

#[test]
fn transform_nested_local_files_keep_their_base() {
    let text = "import * as b from '../b/b.ts';";
    let a = module(
        "file:///root/src/a/a.ts",
        MediaType::TypeScript,
        text,
        vec![dep(text, "../b/b.ts", "file:///root/src/b/b.ts")],
        vec![ident(text, "b", 0, true)],
        &["b"],
    );
    let b = module("file:///root/src/b/b.ts", MediaType::TypeScript, "1;", vec![], vec![], &[]);
    let result = transform(&options(vec![a, b], false, None)).ok().unwrap();
    assert_files(result, &[("a/a.ts", "import * as b from '../b/b';"), ("b/b.ts", "1;")]);
}

#[test]
fn transform_unresolved_reference_fails() {
    let text = "import * as x from './x.ts';";
    let (start, end) = span(text, "./x.ts", 0);
    let m = Module {
        specifier: spec("file:///mod.ts"),
        media_type: MediaType::TypeScript,
        text: text.to_string(),
        dependencies: vec![Dependency { start, end, resolution: Resolution::Unresolved("./x.ts".to_string()) }],
        types_dependency: None,
        identifiers: vec![],
        top_level_decls: vec![],
    };
    match transform(&options(vec![m], false, None)) {
        Err(TransformError::UnresolvedDependency(s, text)) => {
            assert_eq!(s.name, "mod.ts");
            assert_eq!(text, "./x.ts");
        }
        _ => panic!("expected an unresolved reference"),
    }
}

#[test]
fn transform_reference_without_module_fails() {
    let text = "import * as x from './x.ts';";
    let m = module("file:///mod.ts", MediaType::TypeScript, text, vec![dep(text, "./x.ts", "file:///x.ts")], vec![], &[]);
    match transform(&options(vec![m], false, None)) {
        Err(TransformError::MissingMapping(s)) => assert_eq!(s.name, "x.ts"),
        _ => panic!("expected a missing mapping"),
    }
}

#[test]
fn transform_visited_specifier_without_module_fails() {
    let mut loader = SourceLoader::new();
    loader.load(&spec("file:///mod.ts")).ok().unwrap();
    let opts = TransformOptions {
        specifiers: loader.into_specifiers(),
        graph: ModuleGraph { modules: vec![] },
        keep_extensions: false,
        shim_package_name: None,
    };
    assert!(matches!(transform(&opts), Err(TransformError::MissingModule(_))));
}

#[test]
fn transform_unresolved_types_fails() {
    let mut m = module("file:///mod.ts", MediaType::TypeScript, "1;", vec![], vec![], &[]);
    m.types_dependency = Some(Resolution::Unresolved("./mod.d.ts".to_string()));
    assert!(matches!(transform(&options(vec![m], false, None)), Err(TransformError::TypesResolution(_))));
}

#[test]
fn transform_emits_type_declarations_last() {
    let mut a = module("file:///a.js", MediaType::JavaScript, "1;", vec![], vec![], &[]);
    a.types_dependency = Some(Resolution::Resolved(spec("file:///a.d.ts")));
    let d = module("file:///a.d.ts", MediaType::Dts, "export {};", vec![], vec![], &[]);
    let b = module("file:///b.js", MediaType::JavaScript, "2;", vec![], vec![], &[]);
    let result = transform(&options(vec![a, d, b], false, None)).ok().unwrap();
    assert_files(result, &[("a.js", "1;"), ("b.js", "2;"), ("a.d.ts", "export {};")]);
}

#[test]
fn transform_emits_type_declarations_after_remote_modules() {
    let mut a = module("file:///a.js", MediaType::JavaScript, "1;", vec![], vec![], &[]);
    a.types_dependency = Some(Resolution::Resolved(spec("file:///a.d.ts")));
    let d = module("file:///a.d.ts", MediaType::Dts, "export {};", vec![], vec![], &[]);
    let r = module("https://example.com/r.js", MediaType::JavaScript, "2;", vec![], vec![], &[]);
    let result = transform(&options(vec![a, d, r], false, None)).ok().unwrap();
    assert_files(result, &[("a.js", "1;"), ("deps/0/r.js", "2;"), ("a.d.ts", "export {};")]);
}
