//! The resolved module graph, as the graph resolver and the parser hand it
//! over: for each module its specifier, media type, text, the specifier
//! references found in it and the identifiers it holds.
use vstd::prelude::*;

use crate::specifier::{first_index, find_specifier, specifiers_view, ModuleSpecifier, SpecifierView};

verus! {

/// The kind of a module's content, which decides its output extension.
#[derive(PartialEq, Eq, Structural, Clone, Copy, Debug)]
pub enum MediaType {
    JavaScript,
    Jsx,
    Mjs,
    Cjs,
    TypeScript,
    Mts,
    Cts,
    Dts,
    Tsx,
    Json,
}

/// The extension of an output file of this media type.
pub open spec fn ts_extension(m: MediaType) -> Seq<char> {
    match m {
        MediaType::JavaScript => seq!['.', 'j', 's'],
        MediaType::Jsx => seq!['.', 'j', 's', 'x'],
        MediaType::Mjs => seq!['.', 'm', 'j', 's'],
        MediaType::Cjs => seq!['.', 'c', 'j', 's'],
        MediaType::TypeScript => seq!['.', 't', 's'],
        MediaType::Mts => seq!['.', 'm', 't', 's'],
        MediaType::Cts => seq!['.', 'c', 't', 's'],
        MediaType::Dts => seq!['.', 'd', '.', 't', 's'],
        MediaType::Tsx => seq!['.', 't', 's', 'x'],
        MediaType::Json => seq!['.', 'j', 's', 'o', 'n'],
    }
}

/// The extension under which the module is imported at run time.
pub open spec fn js_extension(m: MediaType) -> Seq<char> {
    match m {
        MediaType::JavaScript => seq!['.', 'j', 's'],
        MediaType::Jsx => seq!['.', 'j', 's'],
        MediaType::Mjs => seq!['.', 'm', 'j', 's'],
        MediaType::Cjs => seq!['.', 'c', 'j', 's'],
        MediaType::TypeScript => seq!['.', 'j', 's'],
        MediaType::Mts => seq!['.', 'm', 'j', 's'],
        MediaType::Cts => seq!['.', 'c', 'j', 's'],
        MediaType::Dts => seq!['.', 'j', 's'],
        MediaType::Tsx => seq!['.', 'j', 's'],
        MediaType::Json => seq!['.', 'j', 's', 'o', 'n'],
    }
}

impl MediaType {
    /// The extension of an output file of this media type.
    pub fn as_ts_extension(&self) -> (r: &'static str)
        ensures
            r@ == ts_extension(*self),
    {
        match self {
            MediaType::JavaScript => {
                let r = ".js";
                proof { reveal_strlit(".js"); }
                assert(r@ =~= seq!['.', 'j', 's']);
                r
            },
            MediaType::Jsx => {
                let r = ".jsx";
                proof { reveal_strlit(".jsx"); }
                assert(r@ =~= seq!['.', 'j', 's', 'x']);
                r
            },
            MediaType::Mjs => {
                let r = ".mjs";
                proof { reveal_strlit(".mjs"); }
                assert(r@ =~= seq!['.', 'm', 'j', 's']);
                r
            },
            MediaType::Cjs => {
                let r = ".cjs";
                proof { reveal_strlit(".cjs"); }
                assert(r@ =~= seq!['.', 'c', 'j', 's']);
                r
            },
            MediaType::TypeScript => {
                let r = ".ts";
                proof { reveal_strlit(".ts"); }
                assert(r@ =~= seq!['.', 't', 's']);
                r
            },
            MediaType::Mts => {
                let r = ".mts";
                proof { reveal_strlit(".mts"); }
                assert(r@ =~= seq!['.', 'm', 't', 's']);
                r
            },
            MediaType::Cts => {
                let r = ".cts";
                proof { reveal_strlit(".cts"); }
                assert(r@ =~= seq!['.', 'c', 't', 's']);
                r
            },
            MediaType::Dts => {
                let r = ".d.ts";
                proof { reveal_strlit(".d.ts"); }
                assert(r@ =~= seq!['.', 'd', '.', 't', 's']);
                r
            },
            MediaType::Tsx => {
                let r = ".tsx";
                proof { reveal_strlit(".tsx"); }
                assert(r@ =~= seq!['.', 't', 's', 'x']);
                r
            },
            MediaType::Json => {
                let r = ".json";
                proof { reveal_strlit(".json"); }
                assert(r@ =~= seq!['.', 'j', 's', 'o', 'n']);
                r
            },
        }
    }

    /// The extension under which the module is imported at run time.
    pub fn as_js_extension(&self) -> (r: &'static str)
        ensures
            r@ == js_extension(*self),
    {
        match self {
            MediaType::JavaScript => {
                let r = ".js";
                proof { reveal_strlit(".js"); }
                assert(r@ =~= seq!['.', 'j', 's']);
                r
            },
            MediaType::Jsx => {
                let r = ".js";
                proof { reveal_strlit(".js"); }
                assert(r@ =~= seq!['.', 'j', 's']);
                r
            },
            MediaType::Mjs => {
                let r = ".mjs";
                proof { reveal_strlit(".mjs"); }
                assert(r@ =~= seq!['.', 'm', 'j', 's']);
                r
            },
            MediaType::Cjs => {
                let r = ".cjs";
                proof { reveal_strlit(".cjs"); }
                assert(r@ =~= seq!['.', 'c', 'j', 's']);
                r
            },
            MediaType::TypeScript => {
                let r = ".js";
                proof { reveal_strlit(".js"); }
                assert(r@ =~= seq!['.', 'j', 's']);
                r
            },
            MediaType::Mts => {
                let r = ".mjs";
                proof { reveal_strlit(".mjs"); }
                assert(r@ =~= seq!['.', 'm', 'j', 's']);
                r
            },
            MediaType::Cts => {
                let r = ".cjs";
                proof { reveal_strlit(".cjs"); }
                assert(r@ =~= seq!['.', 'c', 'j', 's']);
                r
            },
            MediaType::Dts => {
                let r = ".js";
                proof { reveal_strlit(".js"); }
                assert(r@ =~= seq!['.', 'j', 's']);
                r
            },
            MediaType::Tsx => {
                let r = ".js";
                proof { reveal_strlit(".js"); }
                assert(r@ =~= seq!['.', 'j', 's']);
                r
            },
            MediaType::Json => {
                let r = ".json";
                proof { reveal_strlit(".json"); }
                assert(r@ =~= seq!['.', 'j', 's', 'o', 'n']);
                r
            },
        }
    }
}

/// What a reference in the graph resolved to.
pub enum Resolution {
    Resolved(ModuleSpecifier),
    /// The reference could not be resolved; holds its text.
    Unresolved(String),
}

/// A module specifier reference in a module's text: the span of the string
/// literal's contents (without the quotes) and what it resolved to.
pub struct Dependency {
    pub start: usize,
    pub end: usize,
    pub resolution: Resolution,
}

/// An identifier occurrence, with its byte span, its text, and whether it
/// binds to the module's top-level scope (it is not shadowed by an inner
/// binding).
pub struct Identifier {
    pub start: usize,
    pub end: usize,
    pub text: String,
    pub top_level: bool,
}

/// A module of the graph, with what the parser found in it.
pub struct Module {
    pub specifier: ModuleSpecifier,
    pub media_type: MediaType,
    pub text: String,
    /// The specifier references, in source order.
    pub dependencies: Vec<Dependency>,
    /// The associated type-declaration reference, if any.
    pub types_dependency: Option<Resolution>,
    /// Every identifier occurrence, in source order.
    pub identifiers: Vec<Identifier>,
    /// The names declared at the module's top level.
    pub top_level_decls: Vec<String>,
}

/// The modules that graph resolution found.
pub struct ModuleGraph {
    pub modules: Vec<Module>,
}

pub open spec fn module_specifiers(mods: Seq<Module>) -> Seq<SpecifierView> {
    mods.map_values(|m: Module| m.specifier@)
}

/// The index of the module for `s`.
pub open spec fn module_index(mods: Seq<Module>, s: SpecifierView) -> Option<int> {
    first_index(module_specifiers(mods), s, 0)
}

/// The media type of the module for `s`.
pub open spec fn media_of(mods: Seq<Module>, s: SpecifierView) -> Option<MediaType> {
    match module_index(mods, s) {
        Some(i) => Some(mods[i].media_type),
        None => None,
    }
}

impl ModuleGraph {
    /// The index of the module for `s`.
    pub fn find(&self, s: &ModuleSpecifier) -> (r: Option<usize>)
        ensures
            match r {
                Some(i) => module_index(self.modules@, s@) == Some(i as int) && i < self.modules@.len(),
                None => module_index(self.modules@, s@) is None,
            },
    {
        let mut i: usize = 0;
        let ghost sv = module_specifiers(self.modules@);
        while i < self.modules.len()
            invariant
                i <= self.modules@.len(),
                sv == module_specifiers(self.modules@),
                first_index(sv, s@, 0) == first_index(sv, s@, i as int),
            decreases self.modules@.len() - i,
        {
            if self.modules[i].specifier.same_as(s) {
                assert(sv[i as int] == s@);
                return Some(i);
            }
            assert(sv[i as int] != s@);
            i = i + 1;
        }
        None
    }

    /// The media type of the module for `s`.
    pub fn media_type(&self, s: &ModuleSpecifier) -> (r: Option<MediaType>)
        ensures
            r == media_of(self.modules@, s@),
    {
        match self.find(s) {
            Some(i) => Some(self.modules[i].media_type),
            None => None,
        }
    }
}

} // verus!
