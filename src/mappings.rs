//! The output path of every module: local modules keep their place under
//! the deepest directory that holds them all, remote modules are clustered
//! by origin into numbered groups under `deps/`.
use vstd::prelude::*;

use crate::error::TransformError;
use crate::graph::{media_of, ts_extension, MediaType, ModuleGraph};
use crate::specifier::{
    clone_segments, first_index, lemma_first_index, segments_view, specifiers_view, ModuleSpecifier,
    SpecifierView,
};
use crate::strings::{concat, decimal, decimal_string, lemma_decimal_injective, lemma_free_candidate, prefix_of};

verus! {

/// A relative output path: directory segments, file stem and extension
/// (with its dot, or empty).
pub struct OutputPath {
    pub dir: Vec<String>,
    pub stem: String,
    pub ext: String,
}

pub struct PathView {
    pub dir: Seq<Seq<char>>,
    pub stem: Seq<char>,
    pub ext: Seq<char>,
}

impl View for OutputPath {
    type V = PathView;

    open spec fn view(&self) -> PathView {
        PathView { dir: segments_view(self.dir@), stem: self.stem@, ext: self.ext@ }
    }
}

/// The position of the last `.` in `s`, or -1.
pub open spec fn dot_pos(s: Seq<char>) -> int
    decreases s.len(),
{
    if s.len() == 0 {
        -1
    } else if s.last() == '.' {
        s.len() - 1
    } else {
        dot_pos(s.drop_last())
    }
}

proof fn lemma_dot_pos(s: Seq<char>)
    ensures
        -1 <= dot_pos(s) < s.len(),
    decreases s.len(),
{
    if s.len() > 0 && s.last() != '.' {
        lemma_dot_pos(s.drop_last());
    }
}

/// A file name split into stem and extension at its last dot; a name
/// whose only dot leads it has no extension.
pub open spec fn split_ext(s: Seq<char>) -> (Seq<char>, Seq<char>) {
    let p = dot_pos(s);
    if p > 0 {
        (s.take(p), s.skip(p))
    } else {
        (s, Seq::empty())
    }
}

fn last_dot(s: &str) -> (r: usize)
    ensures
        r as int == dot_pos(s@) + 1,
{
    let n = s.unicode_len();
    let mut i: usize = n;
    assert(s@.take(n as int) =~= s@);
    while i > 0
        invariant
            i <= n == s@.len(),
            dot_pos(s@) == dot_pos(s@.take(i as int)),
        decreases i,
    {
        if s.get_char(i - 1) == '.' {
            assert(s@.take(i as int).last() == '.');
            return i;
        }
        assert(s@.take(i as int).drop_last() =~= s@.take(i - 1));
        i = i - 1;
    }
    assert(s@.take(0).len() == 0);
    0
}

/// Splits a file name into stem and extension.
pub fn split_name(name: &String) -> (r: (String, String))
    ensures
        (r.0@, r.1@) == split_ext(name@),
{
    proof {
        lemma_dot_pos(name@);
    }
    let n = name.as_str().unicode_len();
    let d = last_dot(name.as_str());
    if d > 1 {
        let stem = prefix_of(name.as_str(), d - 1);
        let ext = name.as_str().substring_char(d - 1, n).to_owned();
        assert(ext@ =~= name@.skip(d - 1));
        (stem, ext)
    } else {
        (name.clone(), String::new())
    }
}

/// How many leading segments `a` and `b` share.
pub open spec fn common_len(a: Seq<Seq<char>>, b: Seq<Seq<char>>) -> nat
    decreases a.len(),
{
    if a.len() == 0 || b.len() == 0 || a[0] != b[0] {
        0
    } else {
        1 + common_len(a.drop_first(), b.drop_first())
    }
}

proof fn lemma_common_len(a: Seq<Seq<char>>, b: Seq<Seq<char>>, k: int)
    requires
        0 <= k <= a.len(),
        k <= b.len(),
        forall|i: int| 0 <= i < k ==> a[i] == b[i],
        k == a.len() || k == b.len() || a[k] != b[k],
    ensures
        common_len(a, b) == k,
    decreases a.len(),
{
    if k > 0 {
        lemma_common_len(a.drop_first(), b.drop_first(), k - 1);
    }
}

pub(crate) proof fn lemma_common_len_bound(a: Seq<Seq<char>>, b: Seq<Seq<char>>)
    ensures
        common_len(a, b) <= a.len(),
        common_len(a, b) <= b.len(),
    decreases a.len(),
{
    if !(a.len() == 0 || b.len() == 0 || a[0] != b[0]) {
        lemma_common_len_bound(a.drop_first(), b.drop_first());
    }
}

pub(crate) fn common_prefix_len(a: &Vec<String>, b: &Vec<String>) -> (r: usize)
    ensures
        r == common_len(segments_view(a@), segments_view(b@)),
{
    let mut i: usize = 0;
    while i < a.len() && i < b.len() && a[i] == b[i]
        invariant
            i <= a@.len(),
            i <= b@.len(),
            forall|k: int| 0 <= k < i ==> a@[k]@ == b@[k]@,
        decreases a@.len() - i,
    {
        i = i + 1;
    }
    proof {
        let sa = segments_view(a@);
        let sb = segments_view(b@);
        assert(forall|k: int| 0 <= k < i ==> sa[k] == sb[k]);
        lemma_common_len(sa, sb, i as int);
    }
    i
}

/// The stem of the `k`-th attempt: the stem itself, then `stem_2`,
/// `stem_3`, ...
pub open spec fn suffix_stem(stem: Seq<char>, k: nat) -> Seq<char> {
    if k == 0 {
        stem
    } else {
        stem + seq!['_'] + decimal(k + 1)
    }
}

proof fn lemma_suffix_stem_injective(stem: Seq<char>)
    ensures
        forall|a: nat, b: nat| #[trigger] suffix_stem(stem, a) == #[trigger] suffix_stem(stem, b) ==> a == b,
{
    assert forall|a: nat, b: nat| #[trigger] suffix_stem(stem, a) == #[trigger] suffix_stem(stem, b)
        implies a == b by {
        if a != 0 && b != 0 {
            let n = stem.len() + 1int;
            assert(suffix_stem(stem, a).skip(n) =~= decimal((a + 1) as nat));
            assert(suffix_stem(stem, b).skip(n) =~= decimal((b + 1) as nat));
            lemma_decimal_injective((a + 1) as nat, (b + 1) as nat);
        } else if a != 0 {
            assert(suffix_stem(stem, a).len() > stem.len());
        } else if b != 0 {
            assert(suffix_stem(stem, b).len() > stem.len());
        }
    }
}

pub open spec fn suffixed(c: PathView, k: nat) -> PathView {
    PathView { dir: c.dir, stem: suffix_stem(c.stem, k), ext: c.ext }
}

/// Two paths collide when they share directory and stem, and, unless
/// extensions are ignored, extension.
pub open spec fn conflict(p: PathView, q: PathView, ignore_ext: bool) -> bool {
    p.dir == q.dir && p.stem == q.stem && (ignore_ext || p.ext == q.ext)
}

pub open spec fn is_free(taken: Seq<PathView>, p: PathView, ignore_ext: bool) -> bool {
    forall|i: int| 0 <= i < taken.len() ==> !conflict(#[trigger] taken[i], p, ignore_ext)
}

/// `p` is the first attempt for candidate `c` that collides with nothing
/// in `taken`.
pub open spec fn chosen(taken: Seq<PathView>, c: PathView, ignore_ext: bool, p: PathView) -> bool {
    exists|k: nat|
        #![trigger suffixed(c, k)]
        p == suffixed(c, k) && is_free(taken, p, ignore_ext) && forall|j: nat|
            j < k ==> !is_free(taken, #[trigger] suffixed(c, j), ignore_ext)
}

fn suffixed_path(c: &OutputPath, k: usize) -> (r: OutputPath)
    requires
        k < usize::MAX,
    ensures
        r@ == suffixed(c@, k as nat),
{
    let stem = if k == 0 {
        c.stem.clone()
    } else {
        let with_sep = concat(c.stem.as_str(), "_");
        let digits = decimal_string(k + 1);
        proof { reveal_strlit("_"); }
        let r = concat(with_sep.as_str(), digits.as_str());
        assert(r@ =~= c.stem@ + seq!['_'] + decimal((k + 1) as nat));
        r
    };
    OutputPath { dir: clone_segments(&c.dir), stem, ext: c.ext.clone() }
}

fn collides(p: &OutputPath, q: &OutputPath, ignore_ext: bool) -> (r: bool)
    ensures
        r == conflict(p@, q@, ignore_ext),
{
    crate::specifier::same_segments(&p.dir, &q.dir) && p.stem == q.stem && (ignore_ext || p.ext == q.ext)
}

/// A path for one module's output, with its module and media type.
pub struct MappingEntry {
    pub specifier: ModuleSpecifier,
    pub path: OutputPath,
    pub media_type: MediaType,
}

pub open spec fn entry_paths(v: Seq<MappingEntry>) -> Seq<PathView> {
    v.map_values(|e: MappingEntry| e.path@)
}

pub open spec fn entry_specifiers(v: Seq<MappingEntry>) -> Seq<SpecifierView> {
    v.map_values(|e: MappingEntry| e.specifier@)
}

/// The first attempt for `c` that collides with no path in `taken`.
fn pick_free(taken: &Vec<MappingEntry>, c: &OutputPath, ignore_ext: bool) -> (r: OutputPath)
    requires
        taken@.len() < usize::MAX,
    ensures
        chosen(entry_paths(taken@), c@, ignore_ext, r@),
{
    let ghost tp = entry_paths(taken@);
    let ghost stems = tp.map_values(|p: PathView| p.stem);
    let ghost kstar: nat = 0;
    proof {
        lemma_suffix_stem_injective(c@.stem);
        lemma_free_candidate(stems, |k: nat| suffix_stem(c@.stem, k));
        kstar = choose|k: nat| k <= stems.len() && !stems.contains(suffix_stem(c@.stem, k));
        assert(is_free(tp, suffixed(c@, kstar), ignore_ext)) by {
            assert forall|i: int| 0 <= i < tp.len() implies !conflict(#[trigger] tp[i], suffixed(c@, kstar), ignore_ext) by {
                assert(stems[i] == tp[i].stem);
            }
        }
    }
    let mut k: usize = 0;
    loop
        invariant
            tp == entry_paths(taken@),
            taken@.len() < usize::MAX,
            k <= kstar <= taken@.len(),
            is_free(tp, suffixed(c@, kstar), ignore_ext),
            forall|j: nat| j < k ==> !is_free(tp, #[trigger] suffixed(c@, j), ignore_ext),
        decreases kstar - k,
    {
        let cand = suffixed_path(c, k);
        let mut i: usize = 0;
        let mut free = true;
        while i < taken.len()
            invariant
                tp == entry_paths(taken@),
                i <= taken@.len(),
                free == (forall|j: int| 0 <= j < i ==> !conflict(#[trigger] tp[j], cand@, ignore_ext)),
            decreases taken@.len() - i,
        {
            if collides(&taken[i].path, &cand, ignore_ext) {
                free = false;
            }
            proof {
                assert(tp[i as int] == taken@[i as int].path@);
            }
            i = i + 1;
        }
        if free {
            assert(cand@ == suffixed(c@, k as nat));
            return cand;
        }
        assert(!is_free(tp, suffixed(c@, k as nat), ignore_ext));
        k = k + 1;
    }
}

/// A group of remote modules that share an origin: the origin and
/// directory of its first member, and how many of that directory's
/// segments form the group's root.
pub struct GroupSpec {
    pub scheme: Seq<char>,
    pub host: Seq<char>,
    pub rep_dir: Seq<Seq<char>>,
    pub root_len: int,
}

/// The groups in order of discovery, and the group of each remote module.
pub struct Clustering {
    pub groups: Seq<GroupSpec>,
    pub group_of: Seq<int>,
}

/// The first group at or after `from` with the origin of `s`.
pub open spec fn group_from(gs: Seq<GroupSpec>, s: SpecifierView, from: int) -> Option<int>
    decreases gs.len() - from,
{
    if from < 0 || from >= gs.len() {
        None
    } else if gs[from].scheme == s.scheme && gs[from].host == s.host {
        Some(from)
    } else {
        group_from(gs, s, from + 1)
    }
}

pub open spec fn min_int(a: int, b: int) -> int {
    if a <= b { a } else { b }
}

/// Remote modules in first-seen order, folded into groups: a module joins
/// the group of its origin, whose root shrinks to the directory that it
/// shares with the module; a module of a new origin starts a group whose
/// root is its own directory.
pub open spec fn cluster(rs: Seq<SpecifierView>) -> Clustering
    decreases rs.len(),
{
    if rs.len() == 0 {
        Clustering { groups: Seq::empty(), group_of: Seq::empty() }
    } else {
        let c = cluster(rs.drop_last());
        let s = rs.last();
        match group_from(c.groups, s, 0) {
            Some(g) => Clustering {
                groups: c.groups.update(
                    g,
                    GroupSpec {
                        root_len: min_int(c.groups[g].root_len, common_len(c.groups[g].rep_dir, s.dir) as int),
                        ..c.groups[g]
                    },
                ),
                group_of: c.group_of.push(g),
            },
            None => Clustering {
                groups: c.groups.push(
                    GroupSpec { scheme: s.scheme, host: s.host, rep_dir: s.dir, root_len: s.dir.len() as int },
                ),
                group_of: c.group_of.push(c.groups.len() as int),
            },
        }
    }
}

pub open spec fn deps_segment() -> Seq<char> {
    seq!['d', 'e', 'p', 's']
}

/// The output path that a remote module asks for before collisions are
/// resolved: `deps/<group>/` and its path below the group's root, the
/// extension replaced by the one of its media type. A module that is its
/// group's root directory becomes `deps/<group>` with that extension.
pub open spec fn remote_candidate(rs: Seq<SpecifierView>, j: int, media: MediaType) -> PathView {
    let c = cluster(rs);
    let g = c.group_of[j];
    remote_path(rs[j], g as nat, c.groups[g].root_len, media)
}

/// The segments of a remote module's output path in group `g` whose root
/// has `root_len` segments.
pub open spec fn remote_segments(s: SpecifierView, g: nat, root_len: int) -> Seq<Seq<char>> {
    seq![deps_segment(), decimal(g)] + s.dir.skip(root_len) + (if s.name.len() > 0 {
        seq![s.name]
    } else {
        Seq::empty()
    })
}

pub open spec fn remote_path(s: SpecifierView, g: nat, root_len: int, media: MediaType) -> PathView {
    let segs = remote_segments(s, g, root_len);
    PathView { dir: segs.drop_last(), stem: remote_stem(segs.last(), media), ext: ts_extension(media) }
}

/// `.d.ts`
pub open spec fn dts_suffix() -> Seq<char> {
    seq!['.', 'd', '.', 't', 's']
}

/// The stem of a remote module's file: a declaration file loses its whole
/// `.d.ts`, any other name what follows its last dot.
pub open spec fn remote_stem(name: Seq<char>, media: MediaType) -> Seq<char> {
    if media == MediaType::Dts && name.len() >= 5 && name.skip(name.len() - 5) == dts_suffix() {
        name.take(name.len() - 5)
    } else {
        split_ext(name).0
    }
}

/// How many leading directory segments the first `n` local modules share.
pub open spec fn shared_len(ls: Seq<SpecifierView>, n: int) -> int
    decreases n,
{
    if n <= 0 {
        0
    } else if n == 1 {
        ls[0].dir.len() as int
    } else {
        min_int(shared_len(ls, n - 1), common_len(ls[0].dir, ls[n - 1].dir) as int)
    }
}

/// The output path that a local module asks for: its path below the
/// deepest directory that holds every local module, name unchanged.
pub open spec fn local_candidate(ls: Seq<SpecifierView>, j: int) -> PathView {
    let s = ls[j];
    PathView { dir: s.dir.skip(shared_len(ls, ls.len() as int)), stem: split_ext(s.name).0, ext: split_ext(s.name).1 }
}

proof fn lemma_shared_len(ls: Seq<SpecifierView>, n: int)
    requires
        0 <= n <= ls.len(),
    ensures
        0 <= shared_len(ls, n),
        forall|j: int| 0 <= j < n ==> shared_len(ls, n) <= #[trigger] ls[j].dir.len(),
    decreases n,
{
    if n > 1 {
        lemma_shared_len(ls, n - 1);
        lemma_common_len_bound(ls[0].dir, ls[n - 1].dir);
    }
}

struct Group {
    rep: usize,
    root_len: usize,
}

spec fn group_view(g: Group, rs: Seq<SpecifierView>) -> GroupSpec {
    GroupSpec { scheme: rs[g.rep as int].scheme, host: rs[g.rep as int].host, rep_dir: rs[g.rep as int].dir, root_len: g.root_len as int }
}

fn find_group(
    remote: &Vec<ModuleSpecifier>,
    groups: &Vec<Group>,
    s: &ModuleSpecifier,
    cs: Ghost<Seq<GroupSpec>>,
    rv: Ghost<Seq<SpecifierView>>,
) -> (r: Option<usize>)
    requires
        rv@ == specifiers_view(remote@),
        groups@.len() == cs@.len(),
        forall|h: int| 0 <= h < groups@.len() ==> groups@[h].rep < remote@.len() && group_view(#[trigger] groups@[h], rv@) == cs@[h],
    ensures
        match r {
            Some(g) => group_from(cs@, s@, 0) == Some(g as int) && g < groups@.len(),
            None => group_from(cs@, s@, 0) is None,
        },
{
    let mut g: usize = 0;
    while g < groups.len()
        invariant
            rv@ == specifiers_view(remote@),
            g <= groups@.len() == cs@.len(),
            forall|h: int| 0 <= h < groups@.len() ==> groups@[h].rep < remote@.len() && group_view(#[trigger] groups@[h], rv@) == cs@[h],
            group_from(cs@, s@, 0) == group_from(cs@, s@, g as int),
        decreases groups@.len() - g,
    {
        let rep = &remote[groups[g].rep];
        assert(rep@ == rv@[groups@[g as int].rep as int]);
        assert(group_view(groups@[g as int], rv@) == cs@[g as int]);
        if rep.scheme == s.scheme && rep.host == s.host {
            return Some(g);
        }
        g = g + 1;
    }
    None
}

fn cluster_remotes(remote: &Vec<ModuleSpecifier>) -> (r: (Vec<Group>, Vec<usize>))
    ensures
        ({
            let c = cluster(specifiers_view(remote@));
            let rv = specifiers_view(remote@);
            &&& r.0@.len() == c.groups.len()
            &&& forall|g: int| 0 <= g < r.0@.len() ==> r.0@[g].rep < remote@.len() && group_view(#[trigger] r.0@[g], rv) == c.groups[g]
            &&& r.1@.len() == remote@.len() == c.group_of.len()
            &&& forall|j: int| 0 <= j < r.1@.len() ==> #[trigger] r.1@[j] == c.group_of[j] && r.1@[j] < r.0@.len()
                && c.groups[c.group_of[j]].root_len <= rv[j].dir.len()
        }),
{
    let ghost rv = specifiers_view(remote@);
    let mut groups: Vec<Group> = Vec::new();
    let mut group_of: Vec<usize> = Vec::new();
    let mut i: usize = 0;
    while i < remote.len()
        invariant
            rv == specifiers_view(remote@),
            i <= remote@.len(),
            groups@.len() == cluster(rv.take(i as int)).groups.len(),
            forall|g: int| 0 <= g < groups@.len() ==> groups@[g].rep < i && group_view(#[trigger] groups@[g], rv)
                == cluster(rv.take(i as int)).groups[g],
            group_of@.len() == i == cluster(rv.take(i as int)).group_of.len(),
            forall|j: int| 0 <= j < i ==> #[trigger] group_of@[j] == cluster(rv.take(i as int)).group_of[j]
                && group_of@[j] < groups@.len()
                && cluster(rv.take(i as int)).groups[group_of@[j] as int].root_len <= rv[j].dir.len(),
        decreases remote@.len() - i,
    {
        let ghost c = cluster(rv.take(i as int));
        let ghost cs = c.groups;
        let s = &remote[i];
        assert(rv.take(i + 1).drop_last() =~= rv.take(i as int));
        assert(rv.take(i + 1).last() == s@);
        let found_group = find_group(remote, &groups, s, Ghost(cs), Ghost(rv));
        if let Some(g) = found_group {
            let rep = groups[g].rep;
            let cl = common_prefix_len(&remote[rep].dir, &s.dir);
            assert(remote@[rep as int]@ == rv[rep as int]);
            proof { lemma_common_len_bound(rv[rep as int].dir, s@.dir); }
            let old_len = groups[g].root_len;
            let new_len = if cl < old_len { cl } else { old_len };
            groups.set(g, Group { rep, root_len: new_len });
            group_of.push(g);
        } else {
            groups.push(Group { rep: i, root_len: s.dir.len() });
            group_of.push(groups.len() - 1);
        }
        proof {
            let c2 = cluster(rv.take(i + 1));
            assert(groups@.len() == c2.groups.len());
            assert forall|h: int| 0 <= h < groups@.len() implies groups@[h].rep < i + 1 && group_view(#[trigger] groups@[h], rv) == c2.groups[h] by {
            }
            assert forall|j: int| 0 <= j < i + 1 implies #[trigger] group_of@[j] == c2.group_of[j]
                && group_of@[j] < groups@.len()
                && c2.groups[group_of@[j] as int].root_len <= rv[j].dir.len() by {
                if j < i {
                    assert(group_of@[j] == c.group_of[j]);
                }
            }
        }
        i = i + 1;
    }
    assert(rv.take(remote@.len() as int) =~= rv);
    (groups, group_of)
}

pub(crate) fn skip_segments(v: &Vec<String>, from: usize) -> (r: Vec<String>)
    requires
        from <= v@.len(),
    ensures
        segments_view(r@) == segments_view(v@).skip(from as int),
{
    let mut r: Vec<String> = Vec::new();
    let mut i: usize = from;
    while i < v.len()
        invariant
            from <= i <= v@.len(),
            segments_view(r@) == segments_view(v@).subrange(from as int, i as int),
        decreases v@.len() - i,
    {
        let ghost old_r = r@;
        let c = v[i].clone();
        r.push(c);
        assert(segments_view(r@) =~= segments_view(old_r).push(v@[i as int]@));
        assert(segments_view(r@) =~= segments_view(v@).subrange(from as int, i + 1));
        i = i + 1;
    }
    assert(segments_view(v@).subrange(from as int, v@.len() as int) =~= segments_view(v@).skip(from as int));
    r
}

fn build_remote_path(s: &ModuleSpecifier, g: usize, root_len: usize, media: MediaType) -> (r: OutputPath)
    requires
        root_len <= s.dir@.len(),
    ensures
        r@ == remote_path(s@, g as nat, root_len as int, media),
{
    let ghost segs = remote_segments(s@, g as nat, root_len as int);
    let mut dir: Vec<String> = Vec::new();
    let d0 = String::from_str("deps");
    let d1 = decimal_string(g);
    proof { reveal_strlit("deps"); }
    assert(d0@ =~= deps_segment());
    dir.push(d0);
    dir.push(d1);
    let rest = skip_segments(&s.dir, root_len);
    let mut i: usize = 0;
    assert(segments_view(dir@) =~= seq![deps_segment(), decimal(g as nat)]);
    while i < rest.len()
        invariant
            i <= rest@.len(),
            segments_view(dir@) == seq![deps_segment(), decimal(g as nat)] + segments_view(rest@).take(i as int),
        decreases rest@.len() - i,
    {
        let ghost old_dir = dir@;
        let c = rest[i].clone();
        dir.push(c);
        assert(segments_view(dir@) =~= segments_view(old_dir).push(rest@[i as int]@));
        assert(segments_view(dir@) =~= seq![deps_segment(), decimal(g as nat)] + segments_view(rest@).take(i + 1));
        i = i + 1;
    }
    assert(segments_view(rest@).take(rest@.len() as int) =~= segments_view(rest@));
    let n = s.name.as_str().unicode_len();
    let ghost before = dir@;
    if n > 0 {
        let c = s.name.clone();
        dir.push(c);
        assert(segments_view(dir@) =~= segments_view(before).push(s.name@));
    }
    assert(segments_view(dir@) =~= segs);
    let last = dir.pop().unwrap();
    assert(segments_view(dir@) =~= segs.drop_last());
    let is_dts = match media {
        MediaType::Dts => true,
        _ => false,
    };
    proof { reveal_strlit(".d.ts"); }
    assert(".d.ts"@ =~= dts_suffix());
    let stem = if is_dts && crate::strings::has_suffix(last.as_str(), ".d.ts") {
        let n = last.as_str().unicode_len();
        let r = prefix_of(last.as_str(), n - 5);
        assert(last@.subrange(n - 5, n as int) =~= last@.skip(n - 5));
        r
    } else {
        split_name(&last).0
    };
    OutputPath { dir, stem, ext: String::from_str(media.as_ts_extension()) }
}

/// The output path of every module of a transform. Distinct entries have
/// distinct paths.
pub struct Mappings {
    inner: Vec<MappingEntry>,
}

impl Mappings {
    pub closed spec fn entries(&self) -> Seq<MappingEntry> {
        self.inner@
    }

    /// No two entries share a path.
    pub open spec fn wf(&self) -> bool {
        forall|i: int, j: int|
            0 <= i < j < self.entries().len() ==> #[trigger] self.entries()[i].path@ != #[trigger] self.entries()[j].path@
    }

    /// The index of the entry for `s`.
    pub open spec fn index_of(&self, s: SpecifierView) -> Option<int> {
        first_index(entry_specifiers(self.entries()), s, 0)
    }

    /// Whether `s` has an output path.
    pub open spec fn has(&self, s: SpecifierView) -> bool {
        self.index_of(s) is Some
    }

    /// The output path of `s`.
    pub open spec fn path_of(&self, s: SpecifierView) -> PathView {
        self.entries()[self.index_of(s).unwrap()].path@
    }

    /// The media type of `s`.
    pub open spec fn media_type_of(&self, s: SpecifierView) -> MediaType {
        self.entries()[self.index_of(s).unwrap()].media_type
    }

    /// The table that `new` builds from these modules: one entry per
    /// module, locals first, each path the first free attempt at the
    /// module's candidate.
    pub open spec fn built_from(&self, graph: &ModuleGraph, lv: Seq<SpecifierView>, rv: Seq<SpecifierView>) -> bool {
        let all = lv + rv;
        &&& self.wf()
        &&& entry_specifiers(self.entries()) == all
        &&& forall|i: int| 0 <= i < all.len() ==> Some(#[trigger] self.entries()[i].media_type) == media_of(graph.modules@, all[i])
        &&& forall|i: int| 0 <= i < lv.len() ==> chosen(entry_paths(self.entries()).take(i), local_candidate(lv, i), false, #[trigger] self.entries()[i].path@)
        &&& forall|j: int| lv.len() <= j < all.len() ==> chosen(entry_paths(self.entries()).take(j), remote_candidate(rv, j - lv.len(), self.entries()[j].media_type), true, #[trigger] self.entries()[j].path@)
    }

    /// Gives every local module, then every remote module, an output path.
    ///
    /// A local module's path is its path below the deepest directory that
    /// holds all local modules. Remote modules are grouped by origin in
    /// first-seen order; a module's path is `deps/<group>/` followed by its
    /// path below the group's root, with the extension of its media type.
    /// A path that collides with an earlier one gets the suffix `_2`, `_3`,
    /// ... on its stem; for remote modules paths that differ only in their
    /// extension collide too. Fails when a module has no media type in the
    /// graph.
    pub fn new(graph: &ModuleGraph, local: &Vec<ModuleSpecifier>, remote: &Vec<ModuleSpecifier>) -> (r: Result<
        Mappings,
        TransformError,
    >)
        requires
            local@.len() + remote@.len() < usize::MAX,
        ensures
            ({
                let lv = specifiers_view(local@);
                let rv = specifiers_view(remote@);
                let all = lv + rv;
                &&& r is Ok <==> (forall|i: int| 0 <= i < all.len() ==> media_of(graph.modules@, #[trigger] all[i]) is Some)
                &&& r matches Err(e) ==> e matches TransformError::MissingModule(s) && all.contains(s@)
                    && media_of(graph.modules@, s@) is None
                &&& r matches Ok(m) ==> m.built_from(graph, lv, rv)
            }),
    {
        let ghost lv = specifiers_view(local@);
        let ghost rv = specifiers_view(remote@);
        let ghost all = lv + rv;
        let mut base: usize = 0;
        let mut i: usize = 0;
        while i < local.len()
            invariant
                lv == specifiers_view(local@),
                i <= local@.len(),
                base == shared_len(lv, i as int),
            decreases local@.len() - i,
        {
            if i == 0 {
                base = local[0].dir.len();
            } else {
                let cl = common_prefix_len(&local[0].dir, &local[i].dir);
                if cl < base {
                    base = cl;
                }
            }
            i = i + 1;
        }
        proof { lemma_shared_len(lv, lv.len() as int); }
        let mut entries: Vec<MappingEntry> = Vec::new();
        let mut i: usize = 0;
        while i < local.len()
            invariant
                lv == specifiers_view(local@),
                rv == specifiers_view(remote@),
                all == lv + rv,
                local@.len() + remote@.len() < usize::MAX,
                base == shared_len(lv, lv.len() as int),
                forall|j: int| 0 <= j < lv.len() ==> base <= #[trigger] lv[j].dir.len(),
                i <= local@.len(),
                entries@.len() == i,
                entry_specifiers(entries@) == all.take(i as int),
                forall|a: int, b: int| 0 <= a < b < entries@.len() ==> #[trigger] entries@[a].path@ != #[trigger] entries@[b].path@,
                forall|k: int| 0 <= k < i ==> Some(#[trigger] entries@[k].media_type) == media_of(graph.modules@, all[k]),
                forall|k: int| 0 <= k < i ==> chosen(entry_paths(entries@).take(k), local_candidate(lv, k), false, #[trigger] entries@[k].path@),
            decreases local@.len() - i,
        {
            let s = &local[i];
            assert(s@ == all[i as int]);
            let media = match graph.media_type(s) {
                Some(m) => m,
                None => return Err(TransformError::MissingModule(s.copy())),
            };
            let (stem, ext) = split_name(&s.name);
            assert(lv[i as int].dir.len() == s.dir@.len());
            let cand = OutputPath { dir: skip_segments(&s.dir, base), stem, ext };
            assert(cand@ == local_candidate(lv, i as int));
            let path = pick_free(&entries, &cand, false);
            let ghost old = entries@;
            entries.push(MappingEntry { specifier: s.copy(), path, media_type: media });
            assert(entries@.drop_last() =~= old);
            proof { Self::lemma_push(old, entries@, local_candidate(lv, i as int), false); }
            assert(entry_specifiers(entries@) =~= all.take(i + 1));
            i = i + 1;
        }
        let (groups, group_of) = cluster_remotes(remote);
        let ghost c = cluster(rv);
        let n = local.len();
        let mut j: usize = 0;
        while j < remote.len()
            invariant
                lv == specifiers_view(local@),
                rv == specifiers_view(remote@),
                all == lv + rv,
                c == cluster(rv),
                n == lv.len(),
                local@.len() + remote@.len() < usize::MAX,
                groups@.len() == c.groups.len(),
                forall|g: int| 0 <= g < groups@.len() ==> group_view(#[trigger] groups@[g], rv) == c.groups[g],
                group_of@.len() == remote@.len() == c.group_of.len(),
                forall|k: int| 0 <= k < group_of@.len() ==> #[trigger] group_of@[k] == c.group_of[k] && group_of@[k] < groups@.len()
                    && c.groups[c.group_of[k]].root_len <= rv[k].dir.len(),
                j <= remote@.len(),
                entries@.len() == n + j,
                entry_specifiers(entries@) == all.take(n + j),
                forall|a: int, b: int| 0 <= a < b < entries@.len() ==> #[trigger] entries@[a].path@ != #[trigger] entries@[b].path@,
                forall|k: int| 0 <= k < n + j ==> Some(#[trigger] entries@[k].media_type) == media_of(graph.modules@, all[k]),
                forall|k: int| 0 <= k < n ==> chosen(entry_paths(entries@).take(k), local_candidate(lv, k), false, #[trigger] entries@[k].path@),
                forall|k: int| n <= k < n + j ==> chosen(entry_paths(entries@).take(k), remote_candidate(rv, k - n, entries@[k].media_type), true, #[trigger] entries@[k].path@),
            decreases remote@.len() - j,
        {
            let s = &remote[j];
            assert(s@ == all[n + j]);
            let media = match graph.media_type(s) {
                Some(m) => m,
                None => return Err(TransformError::MissingModule(s.copy())),
            };
            let g = group_of[j];
            let root_len = groups[g].root_len;
            assert(group_of@[j as int] == c.group_of[j as int]);
            assert(group_view(groups@[g as int], rv) == c.groups[g as int]);
            let cand = build_remote_path(s, g, root_len, media);
            assert(cand@ == remote_candidate(rv, j as int, media));
            let path = pick_free(&entries, &cand, true);
            let ghost old = entries@;
            entries.push(MappingEntry { specifier: s.copy(), path, media_type: media });
            assert(entries@.drop_last() =~= old);
            proof { Self::lemma_push(old, entries@, remote_candidate(rv, j as int, media), true); }
            assert(entry_specifiers(entries@) =~= all.take(n + j + 1));
            j = j + 1;
        }
        assert(all.take(n + remote@.len()) =~= all);
        assert forall|i: int| 0 <= i < all.len() implies media_of(graph.modules@, #[trigger] all[i]) is Some by {
            assert(Some(entries@[i].media_type) == media_of(graph.modules@, all[i]));
        }
        Ok(Mappings { inner: entries })
    }

    /// The index of the entry for `s`.
    pub fn find(&self, s: &ModuleSpecifier) -> (r: Option<usize>)
        ensures
            match r {
                Some(i) => self.index_of(s@) == Some(i as int) && i < self.entries().len(),
                None => self.index_of(s@) is None,
            },
    {
        let ghost sv = entry_specifiers(self.inner@);
        let mut i: usize = 0;
        while i < self.inner.len()
            invariant
                i <= self.inner@.len(),
                sv == entry_specifiers(self.inner@),
                first_index(sv, s@, 0) == first_index(sv, s@, i as int),
            decreases self.inner@.len() - i,
        {
            if self.inner[i].specifier.same_as(s) {
                assert(sv[i as int] == s@);
                return Some(i);
            }
            assert(sv[i as int] != s@);
            i = i + 1;
        }
        None
    }

    /// The output path of `s`, which must have one.
    pub fn get_file_path(&self, s: &ModuleSpecifier) -> (r: &OutputPath)
        requires
            self.has(s@),
        ensures
            r@ == self.path_of(s@),
    {
        match self.find(s) {
            Some(i) => &self.inner[i].path,
            None => {
                proof { assert(false); }
                &self.inner[0].path
            },
        }
    }

    /// The media type recorded for `s`, which must have an output path.
    pub fn get_media_type(&self, s: &ModuleSpecifier) -> (r: MediaType)
        requires
            self.has(s@),
        ensures
            r == self.media_type_of(s@),
    {
        match self.find(s) {
            Some(i) => self.inner[i].media_type,
            None => {
                proof { assert(false); }
                self.inner[0].media_type
            },
        }
    }

    proof fn lemma_push(old: Seq<MappingEntry>, new: Seq<MappingEntry>, c: PathView, ignore_ext: bool)
        requires
            new.len() == old.len() + 1,
            new.drop_last() == old,
            chosen(entry_paths(old), c, ignore_ext, new.last().path@),
            forall|a: int, b: int| 0 <= a < b < old.len() ==> #[trigger] old[a].path@ != #[trigger] old[b].path@,
        ensures
            forall|a: int, b: int| 0 <= a < b < new.len() ==> #[trigger] new[a].path@ != #[trigger] new[b].path@,
            forall|k: int| 0 <= k <= old.len() ==> #[trigger] entry_paths(new).take(k) == entry_paths(old).take(k),
            entry_paths(new).take(old.len() as int) == entry_paths(old),
            forall|k: int| 0 <= k < old.len() ==> #[trigger] new[k] == old[k],
    {
        let p = new.last().path@;
        let k = choose|k: nat| #![trigger suffixed(c, k)] p == suffixed(c, k) && is_free(entry_paths(old), p, ignore_ext) && forall|j: nat|
            j < k ==> !is_free(entry_paths(old), #[trigger] suffixed(c, j), ignore_ext);
        assert forall|a: int, b: int| 0 <= a < b < new.len() implies #[trigger] new[a].path@ != #[trigger] new[b].path@ by {
            if b == old.len() {
                assert(entry_paths(old)[a] == old[a].path@);
                assert(!conflict(entry_paths(old)[a], p, ignore_ext));
            } else {
                assert(new[a] == old[a]);
                assert(new[b] == old[b]);
            }
        }
        assert forall|k: int| 0 <= k <= old.len() implies #[trigger] entry_paths(new).take(k) == entry_paths(old).take(k) by {
            assert(entry_paths(new).take(k) =~= entry_paths(old).take(k));
        }
        assert(entry_paths(new).take(old.len() as int) =~= entry_paths(old));
    }
}

/// No two distinct modules of a mapping share an output path.
pub proof fn lemma_paths_injective(m: &Mappings, a: SpecifierView, b: SpecifierView)
    requires
        m.wf(),
        m.has(a),
        m.has(b),
        a != b,
    ensures
        m.path_of(a) != m.path_of(b),
{
    let sv = entry_specifiers(m.entries());
    lemma_first_index(sv, a, 0);
    lemma_first_index(sv, b, 0);
    let i = m.index_of(a).unwrap();
    let j = m.index_of(b).unwrap();
    assert(sv[i] == a && sv[j] == b);
    if i < j {
        assert(m.entries()[i].path@ != m.entries()[j].path@);
    } else {
        assert(m.entries()[j].path@ != m.entries()[i].path@);
    }
}

/// At most one path is the first free attempt at a candidate.
pub proof fn lemma_chosen_unique(taken: Seq<PathView>, c: PathView, ignore_ext: bool, pa: PathView, pb: PathView)
    requires
        chosen(taken, c, ignore_ext, pa),
        chosen(taken, c, ignore_ext, pb),
    ensures
        pa == pb,
{
    let k1 = choose|k: nat| #![trigger suffixed(c, k)] pa == suffixed(c, k) && is_free(taken, pa, ignore_ext) && forall|j: nat|
        j < k ==> !is_free(taken, #[trigger] suffixed(c, j), ignore_ext);
    let k2 = choose|k: nat| #![trigger suffixed(c, k)] pb == suffixed(c, k) && is_free(taken, pb, ignore_ext) && forall|j: nat|
        j < k ==> !is_free(taken, #[trigger] suffixed(c, j), ignore_ext);
    if k1 < k2 {
        assert(!is_free(taken, suffixed(c, k1), ignore_ext));
    } else if k2 < k1 {
        assert(!is_free(taken, suffixed(c, k2), ignore_ext));
    }
}

proof fn lemma_built_prefix(m1: &Mappings, m2: &Mappings, graph: &ModuleGraph, lv: Seq<SpecifierView>, rv: Seq<SpecifierView>, n: int)
    requires
        m1.built_from(graph, lv, rv),
        m2.built_from(graph, lv, rv),
        0 <= n <= lv.len() + rv.len(),
    ensures
        entry_paths(m1.entries()).take(n) == entry_paths(m2.entries()).take(n),
    decreases n,
{
    let all = lv + rv;
    let pa = entry_paths(m1.entries());
    let pb = entry_paths(m2.entries());
    assert(entry_specifiers(m1.entries()).len() == all.len());
    assert(entry_specifiers(m2.entries()).len() == all.len());
    if n > 0 {
        let i = n - 1;
        lemma_built_prefix(m1, m2, graph, lv, rv, i);
        assert(pa.take(i) == pb.take(i));
        assert(Some(m1.entries()[i].media_type) == media_of(graph.modules@, all[i]));
        assert(Some(m2.entries()[i].media_type) == media_of(graph.modules@, all[i]));
        if i < lv.len() {
            assert(chosen(pa.take(i), local_candidate(lv, i), false, m1.entries()[i].path@));
            assert(chosen(pb.take(i), local_candidate(lv, i), false, m2.entries()[i].path@));
            lemma_chosen_unique(pa.take(i), local_candidate(lv, i), false, m1.entries()[i].path@, m2.entries()[i].path@);
        } else {
            let c = remote_candidate(rv, i - lv.len(), m1.entries()[i].media_type);
            assert(chosen(pa.take(i), c, true, m1.entries()[i].path@));
            assert(chosen(pb.take(i), c, true, m2.entries()[i].path@));
            lemma_chosen_unique(pa.take(i), c, true, m1.entries()[i].path@, m2.entries()[i].path@);
        }
        assert(pa.take(n) =~= pa.take(i).push(pa[i]));
        assert(pb.take(n) =~= pb.take(i).push(pb[i]));
    }
}

/// Building the table twice from the same modules gives the same table:
/// the same modules have paths, with the same paths and media types.
pub proof fn lemma_built_from_unique(m1: &Mappings, m2: &Mappings, graph: &ModuleGraph, lv: Seq<SpecifierView>, rv: Seq<SpecifierView>)
    requires
        m1.built_from(graph, lv, rv),
        m2.built_from(graph, lv, rv),
    ensures
        forall|s: SpecifierView| #[trigger] m1.has(s) == m2.has(s),
        forall|s: SpecifierView| m1.has(s) ==> #[trigger] m1.path_of(s) == m2.path_of(s) && m1.media_type_of(s) == m2.media_type_of(s),
{
    let all = lv + rv;
    lemma_built_prefix(m1, m2, graph, lv, rv, all.len() as int);
    let pa = entry_paths(m1.entries());
    let pb = entry_paths(m2.entries());
    assert(pa.take(all.len() as int) =~= pa);
    assert(pb.take(all.len() as int) =~= pb);
    assert forall|s: SpecifierView| m1.has(s) implies #[trigger] m1.path_of(s) == m2.path_of(s) && m1.media_type_of(s) == m2.media_type_of(s) by {
        let i = m1.index_of(s).unwrap();
        lemma_first_index(entry_specifiers(m1.entries()), s, 0);
        assert(pa[i] == pb[i]);
        assert(Some(m1.entries()[i].media_type) == media_of(graph.modules@, all[i]));
        assert(Some(m2.entries()[i].media_type) == media_of(graph.modules@, all[i]));
    }
}

proof fn lemma_group_from(gs: Seq<GroupSpec>, s: SpecifierView, from: int)
    requires
        0 <= from,
    ensures
        group_from(gs, s, from) matches Some(g) ==> from <= g < gs.len() && gs[g].scheme == s.scheme && gs[g].host == s.host,
        group_from(gs, s, from) is None ==> forall|g: int| from <= g < gs.len() ==> !(gs[g].scheme == s.scheme && gs[g].host == s.host),
    decreases gs.len() - from,
{
    if from < gs.len() && !(gs[from].scheme == s.scheme && gs[from].host == s.host) {
        lemma_group_from(gs, s, from + 1);
    }
}

/// What clustering keeps true: every module is in a group of its own
/// origin, whose root is a prefix of the module's directory, and no two
/// groups share an origin.
pub open spec fn clustering_sound(rs: Seq<SpecifierView>, c: Clustering) -> bool {
    &&& c.group_of.len() == rs.len()
    &&& forall|j: int| 0 <= j < rs.len() ==> {
        let g = #[trigger] c.group_of[j];
        &&& 0 <= g < c.groups.len()
        &&& c.groups[g].scheme == rs[j].scheme && c.groups[g].host == rs[j].host
        &&& 0 <= c.groups[g].root_len <= rs[j].dir.len()
        &&& c.groups[g].root_len <= c.groups[g].rep_dir.len()
        &&& forall|t: int| 0 <= t < c.groups[g].root_len ==> #[trigger] c.groups[g].rep_dir[t] == rs[j].dir[t]
    }
    &&& forall|g: int| 0 <= g < c.groups.len() ==> 0 <= (#[trigger] c.groups[g]).root_len <= c.groups[g].rep_dir.len()
    &&& forall|a: int, b: int| 0 <= a < b < c.groups.len() ==> !((#[trigger] c.groups[a]).scheme == (#[trigger] c.groups[b]).scheme
        && c.groups[a].host == c.groups[b].host)
}

proof fn lemma_common_len_prefix(a: Seq<Seq<char>>, b: Seq<Seq<char>>)
    ensures
        forall|t: int| 0 <= t < common_len(a, b) ==> a[t] == b[t],
    decreases a.len(),
{
    lemma_common_len_bound(a, b);
    if !(a.len() == 0 || b.len() == 0 || a[0] != b[0]) {
        lemma_common_len_prefix(a.drop_first(), b.drop_first());
        lemma_common_len_bound(a.drop_first(), b.drop_first());
        assert forall|t: int| 0 <= t < common_len(a, b) implies a[t] == b[t] by {
            if t > 0 {
                assert(a.drop_first()[t - 1] == b.drop_first()[t - 1]);
            }
        }
    }
}

pub proof fn lemma_cluster_sound(rs: Seq<SpecifierView>)
    ensures
        clustering_sound(rs, cluster(rs)),
    decreases rs.len(),
{
    if rs.len() > 0 {
        let prev = rs.drop_last();
        lemma_cluster_sound(prev);
        let c = cluster(prev);
        let s = rs.last();
        let n = rs.len() - 1;
        lemma_group_from(c.groups, s, 0);
        let c2 = cluster(rs);
        match group_from(c.groups, s, 0) {
            Some(g) => {
                let old = c.groups[g];
                lemma_common_len_bound(old.rep_dir, s.dir);
                lemma_common_len_prefix(old.rep_dir, s.dir);
                let cl = common_len(old.rep_dir, s.dir) as int;
                assert(c2.groups[g].root_len <= old.root_len && c2.groups[g].root_len <= cl);
                assert(c2.groups[g].rep_dir == old.rep_dir);
                assert(0 <= old.root_len);
                assert forall|h: int| 0 <= h < c2.groups.len() implies 0 <= (#[trigger] c2.groups[h]).root_len <= c2.groups[h].rep_dir.len() by {
                    if h != g {
                        assert(c2.groups[h] == c.groups[h]);
                    }
                }
                assert forall|j: int| 0 <= j < rs.len() implies {
                    let h = #[trigger] c2.group_of[j];
                    &&& 0 <= h < c2.groups.len()
                    &&& c2.groups[h].scheme == rs[j].scheme && c2.groups[h].host == rs[j].host
                    &&& 0 <= c2.groups[h].root_len <= rs[j].dir.len()
                    &&& c2.groups[h].root_len <= c2.groups[h].rep_dir.len()
                    &&& forall|t: int| 0 <= t < c2.groups[h].root_len ==> #[trigger] c2.groups[h].rep_dir[t] == rs[j].dir[t]
                } by {
                    if j < n {
                        assert(c2.group_of[j] == c.group_of[j]);
                        assert(prev[j] == rs[j]);
                        let h = c.group_of[j];
                        assert(forall|t: int| 0 <= t < c.groups[h].root_len ==> #[trigger] c.groups[h].rep_dir[t] == prev[j].dir[t]);
                        if h == g {
                            assert forall|t: int| 0 <= t < c2.groups[h].root_len implies #[trigger] c2.groups[h].rep_dir[t] == rs[j].dir[t] by {
                                assert(c.groups[h].rep_dir[t] == prev[j].dir[t]);
                            }
                        } else {
                            assert(c2.groups[h] == c.groups[h]);
                        }
                    } else {
                        assert(c2.group_of[j] == g);
                        assert(rs[j] == s);
                        assert forall|t: int| 0 <= t < c2.groups[g].root_len implies #[trigger] c2.groups[g].rep_dir[t] == rs[j].dir[t] by {
                            assert(old.rep_dir[t] == s.dir[t]);
                        }
                    }
                }
                assert forall|a: int, b: int| 0 <= a < b < c2.groups.len() implies !((#[trigger] c2.groups[a]).scheme == (#[trigger] c2.groups[b]).scheme
                    && c2.groups[a].host == c2.groups[b].host) by {
                    assert(c.groups[a].scheme == c2.groups[a].scheme && c.groups[a].host == c2.groups[a].host);
                    assert(c.groups[b].scheme == c2.groups[b].scheme && c.groups[b].host == c2.groups[b].host);
                }
            },
            None => {
                assert forall|h: int| 0 <= h < c2.groups.len() implies 0 <= (#[trigger] c2.groups[h]).root_len <= c2.groups[h].rep_dir.len() by {
                    if h < c.groups.len() {
                        assert(c2.groups[h] == c.groups[h]);
                    }
                }
                assert forall|j: int| 0 <= j < rs.len() implies {
                    let h = #[trigger] c2.group_of[j];
                    &&& 0 <= h < c2.groups.len()
                    &&& c2.groups[h].scheme == rs[j].scheme && c2.groups[h].host == rs[j].host
                    &&& 0 <= c2.groups[h].root_len <= rs[j].dir.len()
                    &&& c2.groups[h].root_len <= c2.groups[h].rep_dir.len()
                    &&& forall|t: int| 0 <= t < c2.groups[h].root_len ==> #[trigger] c2.groups[h].rep_dir[t] == rs[j].dir[t]
                } by {
                    if j < n {
                        assert(c2.group_of[j] == c.group_of[j]);
                        assert(prev[j] == rs[j]);
                        let h = c.group_of[j];
                        assert(forall|t: int| 0 <= t < c.groups[h].root_len ==> #[trigger] c.groups[h].rep_dir[t] == prev[j].dir[t]);
                    }
                }
                assert forall|a: int, b: int| 0 <= a < b < c2.groups.len() implies !((#[trigger] c2.groups[a]).scheme == (#[trigger] c2.groups[b]).scheme
                    && c2.groups[a].host == c2.groups[b].host) by {
                    if b == c.groups.len() {
                        assert(c2.groups[a] == c.groups[a]);
                    } else {
                        assert(c2.groups[a] == c.groups[a] && c2.groups[b] == c.groups[b]);
                    }
                }
            },
        }
    }
}

/// Remote modules of different origins land in different groups, and
/// modules of one origin in the same group.
pub proof fn lemma_origins_split_groups(rs: Seq<SpecifierView>, i: int, j: int)
    requires
        0 <= i < rs.len(),
        0 <= j < rs.len(),
    ensures
        (cluster(rs).group_of[i] == cluster(rs).group_of[j]) <==> (rs[i].scheme == rs[j].scheme && rs[i].host == rs[j].host),
{
    lemma_cluster_sound(rs);
    let c = cluster(rs);
    let gi = c.group_of[i];
    let gj = c.group_of[j];
    if gi < gj {
        assert(!(c.groups[gi].scheme == c.groups[gj].scheme && c.groups[gi].host == c.groups[gj].host));
    } else if gj < gi {
        assert(!(c.groups[gj].scheme == c.groups[gi].scheme && c.groups[gj].host == c.groups[gi].host));
    }
}

/// A remote module's group root is a prefix of its own directory, so its
/// output path lies below `deps/<group>/`, or is `deps/<group>` itself.
pub proof fn lemma_root_is_prefix(rs: Seq<SpecifierView>, j: int)
    requires
        0 <= j < rs.len(),
    ensures
        ({
            let c = cluster(rs);
            let g = c.groups[c.group_of[j]];
            g.root_len <= rs[j].dir.len() && g.rep_dir.take(g.root_len) == rs[j].dir.take(g.root_len)
        }),
{
    lemma_cluster_sound(rs);
    let c = cluster(rs);
    let g = c.groups[c.group_of[j]];
    assert(g.rep_dir.take(g.root_len) =~= rs[j].dir.take(g.root_len));
}

/// A single local module sits at the top of the output tree, under its own
/// file name.
pub proof fn lemma_single_local_at_top(s: SpecifierView)
    ensures
        local_candidate(seq![s], 0).dir.len() == 0,
        local_candidate(seq![s], 0).stem + local_candidate(seq![s], 0).ext == s.name,
{
    let ls = seq![s];
    assert(shared_len(ls, 1) == s.dir.len());
    assert(s.dir.skip(s.dir.len() as int).len() == 0);
    let p = dot_pos(s.name);
    if p > 0 {
        lemma_dot_pos(s.name);
        assert(s.name.take(p) + s.name.skip(p) =~= s.name);
    } else {
        assert(s.name + Seq::<char>::empty() =~= s.name);
    }
}

} // verus!
