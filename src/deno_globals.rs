//! The shim pass: references to the `Deno` global that resolve to the
//! module's top-level scope are routed through an imported shim.
use vstd::prelude::*;

use crate::graph::Identifier;
use crate::strings::{concat, decimal, decimal_string, lemma_decimal_injective, lemma_decimal_nonempty, lemma_free_candidate};
use crate::text_changes::{changes_view, ChangeSpec, TextChange};

verus! {

pub struct GetDenoGlobalTextChangesParams<'a> {
    /// Every identifier occurrence of the module, in source order.
    pub identifiers: &'a Vec<Identifier>,
    /// The names declared at the module's top level.
    pub top_level_decls: &'a Vec<String>,
    /// The module that the shim is imported from.
    pub shim_package_name: &'a str,
}

pub open spec fn names_view(v: Seq<String>) -> Seq<Seq<char>> {
    v.map_values(|s: String| s@)
}

pub open spec fn identifier_names(ids: Seq<Identifier>) -> Seq<Seq<char>> {
    ids.map_values(|i: Identifier| i.text@)
}

/// The `k`-th attempt at a name: the name itself, then `name1`, `name2`, ...
pub open spec fn name_attempt(name: Seq<char>, k: nat) -> Seq<char> {
    if k == 0 {
        name
    } else {
        name + decimal(k)
    }
}

/// `k` is the first attempt whose name is not taken.
pub open spec fn first_free(name: Seq<char>, taken: Seq<Seq<char>>, k: nat) -> bool {
    &&& !taken.contains(name_attempt(name, k))
    &&& forall|j: nat| j < k ==> taken.contains(#[trigger] name_attempt(name, j))
}

/// The first attempt at `name` that is not taken.
pub open spec fn unique_name(name: Seq<char>, taken: Seq<Seq<char>>) -> Seq<char> {
    name_attempt(name, choose|k: nat| first_free(name, taken, k))
}

proof fn lemma_name_attempt_injective(name: Seq<char>)
    ensures
        forall|a: nat, b: nat| #[trigger] name_attempt(name, a) == #[trigger] name_attempt(name, b) ==> a == b,
{
    assert forall|a: nat, b: nat| #[trigger] name_attempt(name, a) == #[trigger] name_attempt(name, b)
        implies a == b by {
        if a != 0 && b != 0 {
            assert(name_attempt(name, a).skip(name.len() as int) =~= decimal(a));
            assert(name_attempt(name, b).skip(name.len() as int) =~= decimal(b));
            lemma_decimal_injective(a, b);
        } else if a != 0 {
            lemma_decimal_nonempty(a);
            assert(name_attempt(name, a).len() > name.len());
        } else if b != 0 {
            lemma_decimal_nonempty(b);
            assert(name_attempt(name, b).len() > name.len());
        }
    }
}

proof fn lemma_first_free_unique(name: Seq<char>, taken: Seq<Seq<char>>, k: nat)
    requires
        first_free(name, taken, k),
    ensures
        unique_name(name, taken) == name_attempt(name, k),
{
    let c = choose|c: nat| first_free(name, taken, c);
    if c < k {
        assert(taken.contains(name_attempt(name, c)));
    } else if c > k {
        assert(taken.contains(name_attempt(name, k)));
    }
}

/// The name itself if no identifier of the module has it, else the name
/// with the smallest number appended that makes it unused.
pub fn get_unique_name(name: &str, all_idents: &Vec<String>) -> (r: String)
    ensures
        r@ == unique_name(name@, names_view(all_idents@)),
{
    let ghost taken = names_view(all_idents@);
    proof {
        lemma_name_attempt_injective(name@);
        lemma_free_candidate(taken, |k: nat| name_attempt(name@, k));
    }
    let ghost kstar = choose|k: nat| k <= taken.len() && !taken.contains(name_attempt(name@, k));
    let mut count: usize = 0;
    let mut new_name = String::from_str(name);
    loop
        invariant
            taken == names_view(all_idents@),
            count <= kstar <= taken.len(),
            !taken.contains(name_attempt(name@, kstar)),
            new_name@ == name_attempt(name@, count as nat),
            forall|j: nat| j < count ==> taken.contains(#[trigger] name_attempt(name@, j)),
        decreases kstar - count,
    {
        let mut i: usize = 0;
        let mut found = false;
        while i < all_idents.len()
            invariant
                taken == names_view(all_idents@),
                i <= all_idents@.len(),
                found == (exists|j: int| 0 <= j < i && taken[j] == new_name@),
            decreases all_idents@.len() - i,
        {
            if all_idents[i] == new_name {
                assert(taken[i as int] == new_name@);
                found = true;
            }
            i = i + 1;
        }
        if !found {
            proof { lemma_first_free_unique(name@, taken, count as nat); }
            return new_name;
        }
        assert(taken.contains(name_attempt(name@, count as nat))) by {
            let j = choose|j: int| 0 <= j < all_idents@.len() && taken[j] == new_name@;
        }
        count = count + 1;
        let digits = decimal_string(count);
        new_name = concat(name, digits.as_str());
    }
}

pub open spec fn deno_name() -> Seq<char> {
    seq!['D', 'e', 'n', 'o']
}

pub open spec fn global_this_name() -> Seq<char> {
    seq!['g', 'l', 'o', 'b', 'a', 'l', 'T', 'h', 'i', 's']
}

/// `<alias>.Deno`
pub open spec fn shim_reference(alias: Seq<char>) -> Seq<char> {
    alias + seq!['.'] + deno_name()
}

/// `({ Deno: <alias>.Deno, ...globalThis })`
pub open spec fn merged_global(alias: Seq<char>) -> Seq<char> {
    seq!['(', '{', ' '] + deno_name() + seq![':', ' '] + shim_reference(alias) + seq![',', ' ', '.', '.', '.']
        + global_this_name() + seq![' ', '}', ')']
}

/// `import * as <alias> from "<package>";` and a line break.
pub open spec fn shim_import(alias: Seq<char>, package: Seq<char>) -> Seq<char> {
    seq!['i', 'm', 'p', 'o', 'r', 't', ' ', '*', ' ', 'a', 's', ' '] + alias + seq![' ', 'f', 'r', 'o', 'm', ' ', '"']
        + package + seq!['"', ';', '\n']
}

/// The change for one identifier occurrence, if it needs one.
pub open spec fn identifier_change(id: Identifier, alias: Seq<char>, has_deno_decl: bool) -> Option<ChangeSpec> {
    if id.top_level && id.text@ == global_this_name() {
        Some(ChangeSpec { start: id.start as int, end: id.end as int, text: merged_global(alias) })
    } else if id.top_level && !has_deno_decl && id.text@ == deno_name() {
        Some(ChangeSpec { start: id.start as int, end: id.end as int, text: shim_reference(alias) })
    } else {
        None
    }
}

/// The changes for the identifier occurrences, in their order.
pub open spec fn identifier_changes(ids: Seq<Identifier>, alias: Seq<char>, has_deno_decl: bool) -> Seq<ChangeSpec>
    decreases ids.len(),
{
    if ids.len() == 0 {
        Seq::empty()
    } else {
        identifier_changes(ids.drop_last(), alias, has_deno_decl) + match identifier_change(ids.last(), alias, has_deno_decl) {
            Some(c) => seq![c],
            None => Seq::empty(),
        }
    }
}

/// The alias of the shim's namespace in a module: `denoShim`, or the first
/// numbered variant of it that no identifier of the module uses.
pub open spec fn shim_alias(ids: Seq<Identifier>) -> Seq<char> {
    unique_name(seq!['d', 'e', 'n', 'o', 'S', 'h', 'i', 'm'], identifier_names(ids))
}

/// What the shim pass yields for a module: the rewritten references and,
/// when there is one, the shim import inserted at the very start.
pub open spec fn deno_global_changes(ids: Seq<Identifier>, decls: Seq<Seq<char>>, package: Seq<char>) -> Seq<ChangeSpec> {
    let alias = shim_alias(ids);
    let body = identifier_changes(ids, alias, decls.contains(deno_name()));
    if body.len() > 0 {
        seq![ChangeSpec { start: 0, end: 0, text: shim_import(alias, package) }] + body
    } else {
        Seq::empty()
    }
}

/// The identifier occurrences are in source order, each non-empty, and no
/// two overlap.
pub open spec fn identifiers_valid(ids: Seq<Identifier>) -> bool {
    &&& forall|i: int| 0 <= i < ids.len() ==> (#[trigger] ids[i]).start < ids[i].end
    &&& forall|i: int, j: int| 0 <= i < j < ids.len() ==> (#[trigger] ids[i]).end <= (#[trigger] ids[j]).start
}

/// Each change is non-empty, and each ends before the next one starts.
pub open spec fn rewrites_ordered(cs: Seq<ChangeSpec>) -> bool {
    &&& forall|i: int| 0 <= i < cs.len() ==> (#[trigger] cs[i]).start < cs[i].end
    &&& forall|i: int, j: int| 0 <= i < j < cs.len() ==> (#[trigger] cs[i]).end <= (#[trigger] cs[j]).start
}

proof fn lemma_identifier_changes_spans(ids: Seq<Identifier>, alias: Seq<char>, has_deno_decl: bool)
    ensures
        forall|i: int| 0 <= i < identifier_changes(ids, alias, has_deno_decl).len() ==> exists|k: int|
            0 <= k < ids.len() && (#[trigger] identifier_changes(ids, alias, has_deno_decl)[i]).start == ids[k].start as int
                && identifier_changes(ids, alias, has_deno_decl)[i].end == ids[k].end as int,
    decreases ids.len(),
{
    if ids.len() > 0 {
        let rest = ids.drop_last();
        lemma_identifier_changes_spans(rest, alias, has_deno_decl);
        let ic = identifier_changes(ids, alias, has_deno_decl);
        let prev = identifier_changes(rest, alias, has_deno_decl);
        assert forall|i: int| 0 <= i < ic.len() implies exists|k: int|
            0 <= k < ids.len() && (#[trigger] ic[i]).start == ids[k].start as int && ic[i].end == ids[k].end as int by {
            if i < prev.len() {
                assert(ic[i] == prev[i]);
                let k = choose|k: int| 0 <= k < rest.len() && prev[i].start == rest[k].start as int && prev[i].end == rest[k].end as int;
                assert(ids[k] == rest[k]);
            } else {
                assert(ic[i].start == ids[ids.len() - 1].start as int);
            }
        }
    }
}

/// With valid identifiers, the rewrites are in source order and disjoint.
pub proof fn lemma_identifier_changes_ordered(ids: Seq<Identifier>, alias: Seq<char>, has_deno_decl: bool)
    requires
        identifiers_valid(ids),
    ensures
        rewrites_ordered(identifier_changes(ids, alias, has_deno_decl)),
    decreases ids.len(),
{
    if ids.len() > 0 {
        let rest = ids.drop_last();
        assert(identifiers_valid(rest)) by {
            assert forall|i: int, j: int| 0 <= i < j < rest.len() implies (#[trigger] rest[i]).end <= (#[trigger] rest[j]).start by {
                assert(rest[i] == ids[i] && rest[j] == ids[j]);
            }
        }
        lemma_identifier_changes_ordered(rest, alias, has_deno_decl);
        lemma_identifier_changes_spans(rest, alias, has_deno_decl);
        let ic = identifier_changes(ids, alias, has_deno_decl);
        let prev = identifier_changes(rest, alias, has_deno_decl);
        let last = ids[ids.len() - 1];
        assert forall|i: int| 0 <= i < ic.len() implies (#[trigger] ic[i]).start < ic[i].end by {
            if i < prev.len() {
                assert(ic[i] == prev[i]);
            }
        }
        assert forall|i: int, j: int| 0 <= i < j < ic.len() implies (#[trigger] ic[i]).end <= (#[trigger] ic[j]).start by {
            if j < prev.len() {
                assert(ic[i] == prev[i] && ic[j] == prev[j]);
            } else {
                assert(ic[i] == prev[i]);
                let k = choose|k: int| 0 <= k < rest.len() && prev[i].start == rest[k].start as int && prev[i].end == rest[k].end as int;
                assert(rest[k] == ids[k]);
                assert(ids[k].end <= ids[ids.len() - 1].start);
            }
        }
    }
}

fn literal(s: &str) -> (r: String)
    ensures
        r@ == s@,
{
    String::from_str(s)
}

/// Rewrites every top-level reference to `Deno` (unless the module declares
/// its own top-level `Deno`) into `<alias>.Deno`, and every top-level
/// reference to `globalThis` into an object that lays the shim's `Deno`
/// over `globalThis`; then, if anything was rewritten, inserts the shim
/// import at offset 0.
pub fn get_deno_global_text_changes(params: &GetDenoGlobalTextChangesParams) -> (r: Vec<TextChange>)
    ensures
        changes_view(r@) == deno_global_changes(params.identifiers@, names_view(params.top_level_decls@), params.shim_package_name@),
        identifiers_valid(params.identifiers@) && r@.len() > 0 ==> r@[0].start == 0 && r@[0].end == 0
            && rewrites_ordered(changes_view(r@).drop_first()),
{
    let ids = params.identifiers;
    let deno = literal("Deno");
    let global_this = literal("globalThis");
    proof {
        reveal_strlit("Deno");
        reveal_strlit("globalThis");
        reveal_strlit("denoShim");
    }
    assert(deno@ =~= deno_name());
    assert(global_this@ =~= global_this_name());
    let mut has_deno_decl = false;
    let mut i: usize = 0;
    while i < params.top_level_decls.len()
        invariant
            i <= params.top_level_decls@.len(),
            deno@ == deno_name(),
            has_deno_decl == (exists|j: int| 0 <= j < i && names_view(params.top_level_decls@)[j] == deno_name()),
        decreases params.top_level_decls@.len() - i,
    {
        if params.top_level_decls[i] == deno {
            assert(names_view(params.top_level_decls@)[i as int] == deno_name());
            has_deno_decl = true;
        }
        i = i + 1;
    }
    assert(has_deno_decl == names_view(params.top_level_decls@).contains(deno_name()));
    let mut all_names: Vec<String> = Vec::new();
    let mut i: usize = 0;
    while i < ids.len()
        invariant
            i <= ids@.len(),
            names_view(all_names@) == identifier_names(ids@.take(i as int)),
        decreases ids@.len() - i,
    {
        let ghost old_names = all_names@;
        let t = ids[i].text.clone();
        all_names.push(t);
        assert(names_view(all_names@) =~= names_view(old_names).push(ids@[i as int].text@));
        assert(names_view(all_names@) =~= identifier_names(ids@.take(i + 1)));
        i = i + 1;
    }
    assert(ids@.take(ids@.len() as int) =~= ids@);
    let alias = get_unique_name("denoShim", &all_names);
    let ghost alias_v = alias@;
    assert("denoShim"@ =~= seq!['d', 'e', 'n', 'o', 'S', 'h', 'i', 'm']);
    assert(alias_v == shim_alias(ids@));
    let with_dot = concat(alias.as_str(), ".");
    let shim_ref = concat(with_dot.as_str(), "Deno");
    proof { reveal_strlit("."); }
    assert(shim_ref@ =~= shim_reference(alias_v));
    let merged = concat(concat("({ Deno: ", shim_ref.as_str()).as_str(), ", ...globalThis })");
    proof {
        reveal_strlit("({ Deno: ");
        reveal_strlit(", ...globalThis })");
    }
    assert(merged@ =~= merged_global(alias_v));
    let mut body: Vec<TextChange> = Vec::new();
    let mut i: usize = 0;
    while i < ids.len()
        invariant
            i <= ids@.len(),
            deno@ == deno_name(),
            global_this@ == global_this_name(),
            shim_ref@ == shim_reference(alias_v),
            merged@ == merged_global(alias_v),
            changes_view(body@) == identifier_changes(ids@.take(i as int), alias_v, has_deno_decl),
        decreases ids@.len() - i,
    {
        let id = &ids[i];
        let ghost old_body = body@;
        assert(ids@.take(i + 1).drop_last() =~= ids@.take(i as int));
        assert(ids@.take(i + 1).last() == *id);
        if id.top_level && id.text == global_this {
            body.push(TextChange { start: id.start, end: id.end, new_text: merged.clone() });
            assert(changes_view(body@) =~= changes_view(old_body).push(identifier_change(*id, alias_v, has_deno_decl).unwrap()));
        } else if id.top_level && !has_deno_decl && id.text == deno {
            body.push(TextChange { start: id.start, end: id.end, new_text: shim_ref.clone() });
            assert(changes_view(body@) =~= changes_view(old_body).push(identifier_change(*id, alias_v, has_deno_decl).unwrap()));
        } else {
            assert(changes_view(body@) =~= changes_view(old_body) + Seq::<ChangeSpec>::empty());
        }
        i = i + 1;
    }
    if body.len() == 0 {
        assert(changes_view(body@) =~= Seq::<ChangeSpec>::empty());
        return body;
    }
    let import_text = concat(concat(concat(concat("import * as ", alias.as_str()).as_str(), " from \"").as_str(),
        params.shim_package_name).as_str(), "\";\n");
    proof {
        reveal_strlit("import * as ");
        reveal_strlit(" from \"");
        reveal_strlit("\";\n");
    }
    assert(import_text@ =~= shim_import(alias_v, params.shim_package_name@));
    proof {
        if identifiers_valid(ids@) {
            lemma_identifier_changes_ordered(ids@, alias_v, has_deno_decl);
        }
    }
    let mut r: Vec<TextChange> = Vec::new();
    r.push(TextChange { start: 0, end: 0, new_text: import_text });
    let ghost first = r@;
    let ghost body_v = body@;
    r.append(&mut body);
    assert(changes_view(r@) =~= changes_view(first) + changes_view(body_v));
    assert(changes_view(r@).drop_first() =~= changes_view(body_v));
    r
}

proof fn lemma_identifier_changes_members(ids: Seq<Identifier>, alias: Seq<char>, has_deno_decl: bool)
    ensures
        identifier_changes(ids, alias, has_deno_decl).len() == 0 <==> forall|k: int|
            0 <= k < ids.len() ==> #[trigger] identifier_change(ids[k], alias, has_deno_decl) is None,
        forall|k: int| 0 <= k < ids.len() && #[trigger] identifier_change(ids[k], alias, has_deno_decl) is Some ==>
            identifier_changes(ids, alias, has_deno_decl).contains(identifier_change(ids[k], alias, has_deno_decl).unwrap()),
    decreases ids.len(),
{
    if ids.len() > 0 {
        let rest = ids.drop_last();
        lemma_identifier_changes_members(rest, alias, has_deno_decl);
        let ic = identifier_changes(ids, alias, has_deno_decl);
        let prev = identifier_changes(rest, alias, has_deno_decl);
        assert forall|k: int| 0 <= k < ids.len() && #[trigger] identifier_change(ids[k], alias, has_deno_decl) is Some implies
            ic.contains(identifier_change(ids[k], alias, has_deno_decl).unwrap()) by {
            if k < rest.len() {
                assert(rest[k] == ids[k]);
                let c = identifier_change(ids[k], alias, has_deno_decl).unwrap();
                let i = choose|i: int| 0 <= i < prev.len() && prev[i] == c;
                assert(ic[i] == c);
            } else {
                assert(ic[ic.len() - 1] == identifier_change(ids[k], alias, has_deno_decl).unwrap());
            }
        }
        if forall|k: int| 0 <= k < ids.len() ==> #[trigger] identifier_change(ids[k], alias, has_deno_decl) is None {
            assert forall|k: int| 0 <= k < rest.len() implies #[trigger] identifier_change(rest[k], alias, has_deno_decl) is None by {
                assert(rest[k] == ids[k]);
            }
            assert(identifier_change(ids[ids.len() - 1], alias, has_deno_decl) is None);
        }
    }
}

/// The shim pass changes nothing exactly when no identifier is a
/// top-level `globalThis`, nor a top-level `Deno` in a module that does not
/// declare its own `Deno`.
pub proof fn lemma_clean_module_unchanged(ids: Seq<Identifier>, decls: Seq<Seq<char>>, package: Seq<char>)
    ensures
        deno_global_changes(ids, decls, package).len() == 0 <==> forall|k: int| 0 <= k < ids.len() ==> !(
            (#[trigger] ids[k]).top_level && (ids[k].text@ == global_this_name() || (ids[k].text@ == deno_name() && !decls.contains(deno_name())))),
{
    let alias = shim_alias(ids);
    let h = decls.contains(deno_name());
    lemma_identifier_changes_members(ids, alias, h);
    let body = identifier_changes(ids, alias, h);
    assert(deno_global_changes(ids, decls, package).len() == 0 <==> body.len() == 0);
    if body.len() == 0 {
        assert forall|k: int| 0 <= k < ids.len() implies !((#[trigger] ids[k]).top_level && (ids[k].text@ == global_this_name()
            || (ids[k].text@ == deno_name() && !h))) by {
            assert(identifier_change(ids[k], alias, h) is None);
        }
    } else {
        let k = choose|k: int| 0 <= k < ids.len() && !(#[trigger] identifier_change(ids[k], alias, h) is None);
        assert(ids[k].top_level && (ids[k].text@ == global_this_name() || (ids[k].text@ == deno_name() && !h)));
    }
}

/// Every top-level reference to `Deno` in a module that does not declare
/// its own `Deno` becomes `<alias>.Deno` at its own span, and the changes
/// start with the one import of the shim under that alias.
pub proof fn lemma_deno_reference_rewritten(ids: Seq<Identifier>, decls: Seq<Seq<char>>, package: Seq<char>, k: int)
    requires
        0 <= k < ids.len(),
        ids[k].top_level,
        ids[k].text@ == deno_name(),
        !decls.contains(deno_name()),
    ensures
        ({
            let cs = deno_global_changes(ids, decls, package);
            let alias = shim_alias(ids);
            &&& cs.len() > 0
            &&& cs[0] == (ChangeSpec { start: 0, end: 0, text: shim_import(alias, package) })
            &&& cs.contains(ChangeSpec { start: ids[k].start as int, end: ids[k].end as int, text: shim_reference(alias) })
        }),
{
    let alias = shim_alias(ids);
    let h = decls.contains(deno_name());
    lemma_identifier_changes_members(ids, alias, h);
    assert(deno_name() != global_this_name()) by {
        assert(deno_name().len() != global_this_name().len());
    }
    let c = identifier_change(ids[k], alias, h).unwrap();
    assert(identifier_change(ids[k], alias, h) is Some);
    let body = identifier_changes(ids, alias, h);
    let i = choose|i: int| 0 <= i < body.len() && body[i] == c;
    let cs = deno_global_changes(ids, decls, package);
    assert(cs[i + 1] == c);
}

} // verus!
