//! Records every specifier that graph resolution visits, local and remote
//! apart, each once, in the order first seen.
use vstd::prelude::*;

use crate::error::TransformError;
use crate::specifier::{find_specifier, kind_of, specifiers_view, ModuleSpecifier, SpecifierKind, SpecifierView};

verus! {

/// What a loader hands back for a remote module.
pub struct LoadResponse {
    /// The response headers as name-value pairs, if any.
    pub maybe_headers: Option<Vec<(String, String)>>,
    pub content: String,
}

/// The visited specifiers, local and remote, in first-seen order.
pub struct LoaderSpecifiers {
    pub local: Vec<ModuleSpecifier>,
    pub remote: Vec<ModuleSpecifier>,
}

impl LoaderSpecifiers {
    /// Each list holds each specifier once, and only specifiers of its kind.
    pub open spec fn wf(&self) -> bool {
        &&& specifiers_view(self.local@).no_duplicates()
        &&& specifiers_view(self.remote@).no_duplicates()
        &&& forall|i: int| 0 <= i < self.local@.len() ==> kind_of(#[trigger] self.local@[i]@) == Some(SpecifierKind::Local)
        &&& forall|i: int| 0 <= i < self.remote@.len() ==> kind_of(#[trigger] self.remote@[i]@) == Some(SpecifierKind::Remote)
    }
}

/// Appends `s` unless the list already holds it.
pub open spec fn record(v: Seq<SpecifierView>, s: SpecifierView) -> Seq<SpecifierView> {
    if v.contains(s) {
        v
    } else {
        v.push(s)
    }
}

/// The recorder that graph resolution calls for every module it loads. It
/// decides how the module is fetched; the fetch itself is the caller's.
pub struct SourceLoader {
    specifiers: LoaderSpecifiers,
}

impl SourceLoader {
    pub closed spec fn local(&self) -> Seq<SpecifierView> {
        specifiers_view(self.specifiers.local@)
    }

    pub closed spec fn remote(&self) -> Seq<SpecifierView> {
        specifiers_view(self.specifiers.remote@)
    }

    pub closed spec fn wf(&self) -> bool {
        self.specifiers.wf()
    }

    pub fn new() -> (r: SourceLoader)
        ensures
            r.wf(),
            r.local() == Seq::<SpecifierView>::empty(),
            r.remote() == Seq::<SpecifierView>::empty(),
    {
        let r = SourceLoader { specifiers: LoaderSpecifiers { local: Vec::new(), remote: Vec::new() } };
        assert(r.local() =~= Seq::<SpecifierView>::empty());
        assert(r.remote() =~= Seq::<SpecifierView>::empty());
        r
    }

    /// Records a visited specifier and says how it is fetched: a `file`
    /// specifier is read from disk, an `http(s)` one is requested. Any
    /// other scheme is refused and nothing is recorded.
    pub fn load(&mut self, specifier: &ModuleSpecifier) -> (r: Result<SpecifierKind, TransformError>)
        requires
            old(self).wf(),
        ensures
            final(self).wf(),
            match kind_of(specifier@) {
                None => r matches Err(TransformError::UnsupportedScheme(s)) && s@ == specifier@
                    && final(self).local() == old(self).local() && final(self).remote() == old(self).remote(),
                Some(SpecifierKind::Local) => r == Ok::<SpecifierKind, TransformError>(SpecifierKind::Local)
                    && final(self).local() == record(old(self).local(), specifier@)
                    && final(self).remote() == old(self).remote(),
                Some(SpecifierKind::Remote) => r == Ok::<SpecifierKind, TransformError>(SpecifierKind::Remote)
                    && final(self).remote() == record(old(self).remote(), specifier@)
                    && final(self).local() == old(self).local(),
            },
    {
        match specifier.kind() {
            None => Err(TransformError::UnsupportedScheme(specifier.copy())),
            Some(SpecifierKind::Local) => {
                if find_specifier(&self.specifiers.local, specifier).is_none() {
                    let ghost before = self.specifiers.local@;
                    self.specifiers.local.push(specifier.copy());
                    assert(specifiers_view(self.specifiers.local@) =~= specifiers_view(before).push(specifier@));
                }
                Ok(SpecifierKind::Local)
            },
            Some(SpecifierKind::Remote) => {
                if find_specifier(&self.specifiers.remote, specifier).is_none() {
                    let ghost before = self.specifiers.remote@;
                    self.specifiers.remote.push(specifier.copy());
                    assert(specifiers_view(self.specifiers.remote@) =~= specifiers_view(before).push(specifier@));
                }
                Ok(SpecifierKind::Remote)
            },
        }
    }

    pub fn into_specifiers(self) -> (r: LoaderSpecifiers)
        requires
            self.wf(),
        ensures
            r.wf(),
            specifiers_view(r.local@) == self.local(),
            specifiers_view(r.remote@) == self.remote(),
    {
        self.specifiers
    }
}

} // verus!
