//! Module specifiers, held as plain values: scheme, host, directory
//! segments and the last path segment.
use vstd::prelude::*;

verus! {

/// An absolute module identifier, such as `file:///a/b/mod.ts` (scheme
/// `file`, no host, directory `["a", "b"]`, name `mod.ts`) or
/// `https://example.com` (scheme `https`, host `example.com`, no directory,
/// empty name).
pub struct ModuleSpecifier {
    pub scheme: String,
    /// Host and port; empty for local files.
    pub host: String,
    /// The path segments before the last one.
    pub dir: Vec<String>,
    /// The last path segment; empty when the path ends with `/`.
    pub name: String,
}

/// A specifier as plain values.
pub struct SpecifierView {
    pub scheme: Seq<char>,
    pub host: Seq<char>,
    pub dir: Seq<Seq<char>>,
    pub name: Seq<char>,
}

pub open spec fn segments_view(v: Seq<String>) -> Seq<Seq<char>> {
    v.map_values(|s: String| s@)
}

pub open spec fn specifiers_view(v: Seq<ModuleSpecifier>) -> Seq<SpecifierView> {
    v.map_values(|s: ModuleSpecifier| s@)
}

impl View for ModuleSpecifier {
    type V = SpecifierView;

    open spec fn view(&self) -> SpecifierView {
        SpecifierView {
            scheme: self.scheme@,
            host: self.host@,
            dir: segments_view(self.dir@),
            name: self.name@,
        }
    }
}

/// Whether a specifier names a file on disk or a module on the network.
#[derive(PartialEq, Eq, Structural, Clone, Copy, Debug)]
pub enum SpecifierKind {
    Local,
    Remote,
}

/// `file` is local, `http` and `https` are remote; other schemes are not
/// supported.
pub open spec fn kind_of(s: SpecifierView) -> Option<SpecifierKind> {
    if s.scheme == seq!['f', 'i', 'l', 'e'] {
        Some(SpecifierKind::Local)
    } else if s.scheme == seq!['h', 't', 't', 'p'] || s.scheme == seq!['h', 't', 't', 'p', 's'] {
        Some(SpecifierKind::Remote)
    } else {
        None
    }
}

/// Whether the two segment lists are equal.
pub fn same_segments(a: &Vec<String>, b: &Vec<String>) -> (r: bool)
    ensures
        r == (segments_view(a@) == segments_view(b@)),
{
    if a.len() != b.len() {
        return false;
    }
    let mut i: usize = 0;
    while i < a.len()
        invariant
            a@.len() == b@.len(),
            i <= a@.len(),
            forall|k: int| 0 <= k < i ==> a@[k]@ == b@[k]@,
        decreases a@.len() - i,
    {
        if a[i] != b[i] {
            assert(segments_view(a@)[i as int] != segments_view(b@)[i as int]);
            return false;
        }
        i = i + 1;
    }
    assert(segments_view(a@) =~= segments_view(b@));
    true
}

pub fn clone_segments(a: &Vec<String>) -> (r: Vec<String>)
    ensures
        segments_view(r@) == segments_view(a@),
{
    let mut r: Vec<String> = Vec::new();
    let mut i: usize = 0;
    while i < a.len()
        invariant
            i <= a@.len(),
            segments_view(r@) == segments_view(a@.take(i as int)),
        decreases a@.len() - i,
    {
        r.push(a[i].clone());
        assert(segments_view(a@.take(i + 1)) =~= segments_view(a@.take(i as int)).push(a@[i as int]@));
        assert(segments_view(r@) =~= segments_view(a@.take(i + 1)));
        i = i + 1;
    }
    assert(a@.take(a@.len() as int) =~= a@);
    r
}

impl ModuleSpecifier {
    pub fn new(scheme: &str, host: &str, dir: Vec<String>, name: &str) -> (r: ModuleSpecifier)
        ensures
            r@ == (SpecifierView { scheme: scheme@, host: host@, dir: segments_view(dir@), name: name@ }),
    {
        ModuleSpecifier {
            scheme: String::from_str(scheme),
            host: String::from_str(host),
            dir,
            name: String::from_str(name),
        }
    }

    pub fn copy(&self) -> (r: ModuleSpecifier)
        ensures
            r@ == self@,
    {
        ModuleSpecifier {
            scheme: self.scheme.clone(),
            host: self.host.clone(),
            dir: clone_segments(&self.dir),
            name: self.name.clone(),
        }
    }

    /// Whether the two specifiers are the same.
    pub fn same_as(&self, other: &ModuleSpecifier) -> (r: bool)
        ensures
            r == (self@ == other@),
    {
        self.scheme == other.scheme && self.host == other.host && self.name == other.name
            && same_segments(&self.dir, &other.dir)
    }

    /// Whether the specifier is local, remote, or of a scheme that is not
    /// supported.
    pub fn kind(&self) -> (r: Option<SpecifierKind>)
        ensures
            r == kind_of(self@),
    {
        proof {
            reveal_strlit("file");
            reveal_strlit("http");
            reveal_strlit("https");
        }
        let file = String::from_str("file");
        let http = String::from_str("http");
        let https = String::from_str("https");
        assert(file@ =~= seq!['f', 'i', 'l', 'e']);
        assert(http@ =~= seq!['h', 't', 't', 'p']);
        assert(https@ =~= seq!['h', 't', 't', 'p', 's']);
        if self.scheme == file {
            Some(SpecifierKind::Local)
        } else if self.scheme == http || self.scheme == https {
            Some(SpecifierKind::Remote)
        } else {
            None
        }
    }
}

/// The first index at or after `from` where `v` holds `s`.
pub open spec fn first_index(v: Seq<SpecifierView>, s: SpecifierView, from: int) -> Option<int>
    decreases v.len() - from,
{
    if from < 0 || from >= v.len() {
        None
    } else if v[from] == s {
        Some(from)
    } else {
        first_index(v, s, from + 1)
    }
}

pub proof fn lemma_first_index(v: Seq<SpecifierView>, s: SpecifierView, from: int)
    requires
        0 <= from,
    ensures
        first_index(v, s, from) matches Some(i) ==> from <= i < v.len() && v[i] == s,
        first_index(v, s, from) is None <==> forall|k: int| from <= k < v.len() ==> v[k] != s,
    decreases v.len() - from,
{
    if from < v.len() && v[from] != s {
        lemma_first_index(v, s, from + 1);
    }
}

/// Finds the first place of `s` in `v`.
pub fn find_specifier(v: &Vec<ModuleSpecifier>, s: &ModuleSpecifier) -> (r: Option<usize>)
    ensures
        match r {
            Some(i) => first_index(specifiers_view(v@), s@, 0) == Some(i as int),
            None => first_index(specifiers_view(v@), s@, 0) is None,
        },
        r is None <==> !specifiers_view(v@).contains(s@),
        r matches Some(i) ==> i < v@.len() && v@[i as int]@ == s@,
{
    let ghost sv = specifiers_view(v@);
    let mut i: usize = 0;
    while i < v.len()
        invariant
            i <= v@.len(),
            sv == specifiers_view(v@),
            first_index(sv, s@, 0) == first_index(sv, s@, i as int),
            forall|k: int| 0 <= k < i ==> v@[k]@ != s@,
        decreases v@.len() - i,
    {
        if v[i].same_as(s) {
            assert(sv[i as int] == s@);
            return Some(i);
        }
        assert(sv[i as int] != s@);
        i = i + 1;
    }
    assert(!sv.contains(s@)) by {
        if sv.contains(s@) {
            let k = choose|k: int| 0 <= k < v@.len() && sv[k] == s@;
            assert(v@[k]@ == s@);
        }
    }
    None
}

} // verus!
