//! The specifier pass: every module reference in a module is rewritten to
//! the path of the target's output file, relative to the module's own.
use vstd::prelude::*;

use crate::error::TransformError;
use crate::graph::{js_extension, Dependency, Resolution};
use crate::mappings::{common_len, Mappings, OutputPath, PathView};
use crate::specifier::{segments_view, ModuleSpecifier, SpecifierView};
use crate::strings::concat;
use crate::text_changes::{changes_view, ChangeSpec, TextChange};

verus! {

pub struct GetModuleSpecifierTextChangesParams<'a> {
    /// The module whose references are rewritten.
    pub specifier: &'a ModuleSpecifier,
    /// Its references, in source order.
    pub dependencies: &'a Vec<Dependency>,
    pub mappings: &'a Mappings,
    /// Keep an extension in rewritten specifiers: the one under which the
    /// target is imported at run time.
    pub use_js_extension: bool,
}

/// The segments joined with `/`.
pub open spec fn join_segments(segs: Seq<Seq<char>>) -> Seq<char>
    decreases segs.len(),
{
    if segs.len() == 0 {
        Seq::empty()
    } else if segs.len() == 1 {
        segs[0]
    } else {
        join_segments(segs.drop_last()) + seq!['/'] + segs.last()
    }
}

/// `../` repeated `n` times.
pub open spec fn parent_steps(n: nat) -> Seq<char>
    decreases n,
{
    if n == 0 {
        Seq::empty()
    } else {
        parent_steps((n - 1) as nat) + seq!['.', '.', '/']
    }
}

/// The specifier that reaches file `file` in directory `to` from a file in
/// directory `from`: `./` when `to` lies below `from`, else one `../` for
/// each segment of `from` below the directory they share.
pub open spec fn relative_specifier(from: Seq<Seq<char>>, to: Seq<Seq<char>>, file: Seq<char>) -> Seq<char> {
    let c = common_len(from, to);
    let prefix = if from.len() == c {
        seq!['.', '/']
    } else {
        parent_steps((from.len() - c) as nat)
    };
    prefix + join_segments(to.skip(c as int).push(file))
}

/// The file part of a rewritten specifier: the target's stem, with its
/// run-time extension when extensions are kept.
pub open spec fn target_file(m: &Mappings, t: ModuleSpecifier, keep: bool) -> Seq<char> {
    m.path_of(t@).stem + if keep {
        js_extension(m.media_type_of(t@))
    } else {
        Seq::empty()
    }
}

/// The reference resolved to a module that has an output path.
pub open spec fn dependency_ok(m: &Mappings, d: Dependency) -> bool {
    d.resolution matches Resolution::Resolved(t) && m.has(t@)
}

/// The change for a reference that `dependency_ok` accepts.
pub open spec fn dependency_change(m: &Mappings, from: PathView, d: Dependency, keep: bool) -> ChangeSpec {
    let t = d.resolution->Resolved_0;
    ChangeSpec {
        start: d.start as int,
        end: d.end as int,
        text: relative_specifier(from.dir, m.path_of(t@).dir, target_file(m, t, keep)),
    }
}

/// One of the references is unresolved with text `text`.
pub open spec fn has_unresolved(deps: Seq<Dependency>, text: Seq<char>) -> bool {
    exists|i: int| 0 <= i < deps.len() && (#[trigger] deps[i].resolution matches Resolution::Unresolved(x) && x@ == text)
}

/// One of the references resolved to `t`.
pub open spec fn refers_to(deps: Seq<Dependency>, t: SpecifierView) -> bool {
    exists|i: int| 0 <= i < deps.len() && (#[trigger] deps[i].resolution matches Resolution::Resolved(u) && u@ == t)
}

/// `e` names the module when one of its references did not resolve, or
/// names a target of a reference that has no output path.
pub open spec fn specifier_error(e: TransformError, m: &Mappings, from: SpecifierView, deps: Seq<Dependency>) -> bool {
    match e {
        TransformError::UnresolvedDependency(s, text) => s@ == from && has_unresolved(deps, text@),
        TransformError::MissingMapping(t) => !m.has(t@) && refers_to(deps, t@),
        _ => false,
    }
}

pub(crate) fn join_into(out: &mut String, segs: &Vec<String>, file: &String)
    ensures
        final(out)@ == old(out)@ + join_segments(segments_view(segs@).push(file@)),
{
    let ghost all = segments_view(segs@).push(file@);
    let mut i: usize = 0;
    let ghost start = out@;
    proof { reveal_strlit("/"); }
    assert("/"@ =~= seq!['/']);
    while i < segs.len()
        invariant
            i <= segs@.len(),
            all == segments_view(segs@).push(file@),
            "/"@ == seq!['/'],
            i > 0 ==> out@ == start + join_segments(all.take(i as int)) + seq!['/'],
            i == 0 ==> out@ == start,
        decreases segs@.len() - i,
    {
        let ghost before = out@;
        out.append(segs[i].as_str());
        assert(out@ == before + segs@[i as int]@);
        proof {
            assert(all.take(i + 1).drop_last() =~= all.take(i as int));
            assert(all.take(i + 1).last() == segs@[i as int]@);
            if i == 0 {
                assert(join_segments(all.take(1)) == all.take(1)[0]);
            } else {
                assert(join_segments(all.take(i + 1)) == join_segments(all.take(i as int)) + seq!['/'] + segs@[i as int]@);
            }
        }
        out.append("/");
        assert(out@ =~= start + join_segments(all.take(i + 1)) + seq!['/']);
        i = i + 1;
    }
    out.append(file.as_str());
    proof {
        assert(all.take(i + 1) =~= all);
        assert(all.take(i + 1).drop_last() =~= all.take(i as int));
        if i == 0 {
            assert(join_segments(all) == all[0]);
        }
    }
    assert(out@ =~= start + join_segments(all));
}

fn build_relative(from: &OutputPath, to: &OutputPath, file: &String) -> (r: String)
    ensures
        r@ == relative_specifier(from@.dir, to@.dir, file@),
{
    let c = crate::mappings::common_prefix_len(&from.dir, &to.dir);
    proof {
        crate::mappings::lemma_common_len_bound(from@.dir, to@.dir);
        reveal_strlit("./");
        reveal_strlit("../");
    }
    assert("./"@ =~= seq!['.', '/']);
    assert("../"@ =~= seq!['.', '.', '/']);
    let mut out = String::new();
    if from.dir.len() == c {
        out.append("./");
    } else {
        let mut k: usize = 0;
        let n = from.dir.len() - c;
        while k < n
            invariant
                k <= n,
                "../"@ == seq!['.', '.', '/'],
                out@ == parent_steps(k as nat),
            decreases n - k,
        {
            let ghost before = out@;
            out.append("../");
            assert(parent_steps((k + 1) as nat) == parent_steps(k as nat) + seq!['.', '.', '/']);
            assert(out@ =~= parent_steps((k + 1) as nat));
            k = k + 1;
        }
    }
    let rest = crate::mappings::skip_segments(&to.dir, c);
    join_into(&mut out, &rest, file);
    assert(out@ =~= relative_specifier(from@.dir, to@.dir, file@));
    out
}

/// One change per reference of the module, replacing the specifier
/// literal's contents with the relative path from the module's output file
/// to the target's, without extension unless extensions are kept. Fails
/// with `UnresolvedDependency` on a reference that did not resolve and with
/// `MissingMapping` on one whose target has no output path.
pub fn get_module_specifier_text_changes(params: &GetModuleSpecifierTextChangesParams) -> (r: Result<Vec<TextChange>, TransformError>)
    requires
        params.mappings.has(params.specifier@),
    ensures
        ({
            let m = params.mappings;
            let deps = params.dependencies@;
            let from = m.path_of(params.specifier@);
            &&& r is Ok <==> forall|i: int| 0 <= i < deps.len() ==> dependency_ok(m, #[trigger] deps[i])
            &&& r matches Ok(v) ==> changes_view(v@) == deps.map_values(|d: Dependency| dependency_change(m, from, d, params.use_js_extension))
            &&& r matches Err(e) ==> specifier_error(e, m, params.specifier@, deps)
        }),
{
    let m = params.mappings;
    let deps = params.dependencies;
    let ghost from_v = m.path_of(params.specifier@);
    let from = m.get_file_path(params.specifier);
    let mut r: Vec<TextChange> = Vec::new();
    let mut i: usize = 0;
    while i < deps.len()
        invariant
            i <= deps@.len(),
            deps@ == params.dependencies@,
            m == params.mappings,
            from@ == from_v,
            from_v == m.path_of(params.specifier@),
            forall|k: int| 0 <= k < i ==> dependency_ok(m, #[trigger] deps@[k]),
            changes_view(r@) == deps@.take(i as int).map_values(|d: Dependency| dependency_change(m, from_v, d, params.use_js_extension)),
        decreases deps@.len() - i,
    {
        let d = &deps[i];
        match &d.resolution {
            Resolution::Unresolved(text) => {
                assert(deps@[i as int].resolution == Resolution::Unresolved(*text));
                assert(!dependency_ok(m, deps@[i as int]));
                return Err(TransformError::UnresolvedDependency(params.specifier.copy(), text.clone()));
            },
            Resolution::Resolved(t) => {
                if m.find(t).is_none() {
                    assert(!dependency_ok(m, deps@[i as int]));
                    let e = TransformError::MissingMapping(t.copy());
                    proof {
                        assert(deps@[i as int].resolution == Resolution::Resolved(*t));
                    }
                    return Err(e);
                }
                assert(dependency_ok(m, deps@[i as int]));
                let to = m.get_file_path(t);
                let file = if params.use_js_extension {
                    concat(to.stem.as_str(), m.get_media_type(t).as_js_extension())
                } else {
                    to.stem.clone()
                };
                assert(file@ =~= target_file(m, *t, params.use_js_extension));
                let text = build_relative(from, to, &file);
                let ghost old_r = r@;
                assert(deps@[i as int].resolution == Resolution::Resolved(*t));
                assert(dependency_change(m, from_v, deps@[i as int], params.use_js_extension).text == text@);
                r.push(TextChange { start: d.start, end: d.end, new_text: text });
                assert(changes_view(r@) =~= changes_view(old_r).push(dependency_change(m, from_v, deps@[i as int], params.use_js_extension)));
                assert(changes_view(r@) =~= deps@.take(i + 1).map_values(|d: Dependency| dependency_change(m, from_v, d, params.use_js_extension)));
            },
        }
        i = i + 1;
    }
    assert(deps@.take(deps@.len() as int) =~= deps@);
    Ok(r)
}

} // verus!
