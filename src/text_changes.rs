//! Edits over a module's source text and their application.
use vstd::prelude::*;
use vstd::string::StringSliceAdditionalSpecFns;
use vstd::utf8::*;

use crate::error::TransformError;
use crate::strings::string_from_utf8;

verus! {

/// Replaces the bytes `start..end` of a module's original text with
/// `new_text`. A change with `start == end` is an insertion.
pub struct TextChange {
    pub start: usize,
    pub end: usize,
    pub new_text: String,
}

/// What a text change is, as plain values.
pub struct ChangeSpec {
    pub start: int,
    pub end: int,
    pub text: Seq<char>,
}

impl View for TextChange {
    type V = ChangeSpec;

    open spec fn view(&self) -> ChangeSpec {
        ChangeSpec { start: self.start as int, end: self.end as int, text: self.new_text@ }
    }
}

pub open spec fn changes_view(s: Seq<TextChange>) -> Seq<ChangeSpec> {
    s.map_values(|c: TextChange| c@)
}

/// `a` is placed before `c`: it starts earlier, or starts at the same
/// offset and ends no later (so an insertion comes before a replacement
/// that starts where it stands).
pub open spec fn goes_before(a: ChangeSpec, c: ChangeSpec) -> bool {
    a.start < c.start || (a.start == c.start && a.end <= c.end)
}

/// Inserts `c` into `sorted` after every change that goes before it.
pub open spec fn insert_by_start(sorted: Seq<ChangeSpec>, c: ChangeSpec) -> Seq<ChangeSpec>
    decreases sorted.len(),
{
    if sorted.len() == 0 {
        seq![c]
    } else if goes_before(sorted.last(), c) {
        sorted.push(c)
    } else {
        insert_by_start(sorted.drop_last(), c).push(sorted.last())
    }
}

/// The changes ordered by start, then by end; equal spans keep their order.
pub open spec fn sort_by_start(s: Seq<ChangeSpec>) -> Seq<ChangeSpec>
    decreases s.len(),
{
    if s.len() == 0 {
        s
    } else {
        insert_by_start(sort_by_start(s.drop_last()), s.last())
    }
}

/// Every change lies inside a text of `len` bytes, and each ends before the
/// next one starts.
pub open spec fn well_placed(len: int, s: Seq<ChangeSpec>) -> bool {
    &&& forall|i: int| 0 <= i < s.len() ==> 0 <= #[trigger] s[i].start <= s[i].end <= len
    &&& forall|i: int| 0 <= i < s.len() - 1 ==> #[trigger] s[i].end <= s[i + 1].start
}

/// The text from `pos` on, with the ordered changes `s` applied.
pub open spec fn patched(text: Seq<u8>, s: Seq<ChangeSpec>, pos: int) -> Seq<u8>
    decreases s.len(),
{
    if s.len() == 0 {
        text.subrange(pos, text.len() as int)
    } else {
        text.subrange(pos, s[0].start) + encode_utf8(s[0].text) + patched(text, s.drop_first(), s[0].end)
    }
}

proof fn lemma_insert_at(t: Seq<ChangeSpec>, c: ChangeSpec, j: int)
    requires
        0 <= j <= t.len(),
        forall|k: int| j <= k < t.len() ==> !goes_before(#[trigger] t[k], c),
        j > 0 ==> goes_before(t[j - 1], c),
    ensures
        insert_by_start(t, c) == t.take(j).push(c) + t.skip(j),
    decreases t.len(),
{
    if t.len() == 0 {
        assert(t.take(j).push(c) + t.skip(j) =~= seq![c]);
    } else if goes_before(t.last(), c) {
        assert(j == t.len());
        assert(t.take(j).push(c) + t.skip(j) =~= t.push(c));
    } else {
        lemma_insert_at(t.drop_last(), c, j);
        assert(t.drop_last().take(j).push(c) + t.drop_last().skip(j) + seq![t.last()]
            =~= t.take(j).push(c) + t.skip(j));
    }
}

fn copy_change(c: &TextChange) -> (r: TextChange)
    ensures
        r@ == c@,
{
    TextChange { start: c.start, end: c.end, new_text: c.new_text.clone() }
}

/// The changes ordered by their start, then by their end, so that an
/// insertion precedes a replacement starting at the same offset; changes
/// with equal spans keep their relative order.
pub fn sort_text_changes(changes: Vec<TextChange>) -> (r: Vec<TextChange>)
    ensures
        changes_view(r@) == sort_by_start(changes_view(changes@)),
{
    let mut sorted: Vec<TextChange> = Vec::new();
    let mut i: usize = 0;
    while i < changes.len()
        invariant
            i <= changes@.len(),
            changes_view(sorted@) == sort_by_start(changes_view(changes@.take(i as int))),
        decreases changes@.len() - i,
    {
        let c = copy_change(&changes[i]);
        let mut j: usize = sorted.len();
        while j > 0 && (sorted[j - 1].start > c.start || (sorted[j - 1].start == c.start && sorted[j - 1].end > c.end))
            invariant
                j <= sorted@.len(),
                forall|k: int| j <= k < sorted@.len() ==> !goes_before(#[trigger] sorted@[k]@, c@),
            decreases j,
        {
            j = j - 1;
        }
        proof {
            let t = changes_view(sorted@);
            lemma_insert_at(t, c@, j as int);
            assert(changes_view(changes@.take(i + 1)).drop_last() =~= changes_view(changes@.take(i as int)));
            assert(changes_view(changes@.take(i + 1)).last() == c@);
        }
        let ghost old_sorted = sorted@;
        sorted.insert(j, c);
        assert(changes_view(sorted@) =~= changes_view(old_sorted).take(j as int).push(c@)
            + changes_view(old_sorted).skip(j as int));
        i = i + 1;
    }
    assert(changes@.take(changes@.len() as int) =~= changes@);
    sorted
}

fn push_range(out: &mut Vec<u8>, src: &[u8], from: usize, to: usize)
    requires
        from <= to <= src@.len(),
    ensures
        final(out)@ == old(out)@ + src@.subrange(from as int, to as int),
{
    let mut k: usize = from;
    while k < to
        invariant
            from <= k <= to <= src@.len(),
            out@ == old(out)@ + src@.subrange(from as int, k as int),
        decreases to - k,
    {
        out.push(src[k]);
        assert(src@.subrange(from as int, k + 1) =~= src@.subrange(from as int, k as int).push(src@[k as int]));
        k = k + 1;
    }
}

/// Applies the changes to `text`, in order of their span, and decodes the
/// result. It fails with `OverlappingChanges` when a change reaches outside
/// the text or two changes overlap, and with `InvalidText` when the edited
/// bytes are not UTF-8 (a change that splits a character).
pub fn apply_text_changes(text: &str, changes: Vec<TextChange>) -> (r: Result<String, TransformError>)
    ensures
        ({
            let sorted = sort_by_start(changes_view(changes@));
            let bytes = text.spec_bytes();
            &&& r is Ok <==> well_placed(bytes.len() as int, sorted) && valid_utf8(patched(bytes, sorted, 0))
            &&& r matches Ok(s) ==> s@ == decode_utf8(patched(bytes, sorted, 0))
            &&& r matches Err(e) ==> (e is OverlappingChanges <==> !well_placed(bytes.len() as int, sorted))
            &&& r matches Err(e) ==> (e is OverlappingChanges || e is InvalidText)
        }),
{
    let bytes = text.as_bytes();
    let sorted = sort_text_changes(changes);
    let ghost sv = changes_view(sorted@);
    let n = bytes.len();
    let mut i: usize = 0;
    while i < sorted.len()
        invariant
            i <= sorted@.len(),
            n == bytes@.len(),
            sv == changes_view(sorted@),
            sv == sort_by_start(changes_view(changes@)),
            bytes@ == text.spec_bytes(),
            forall|k: int| 0 <= k < i ==> 0 <= #[trigger] sv[k].start <= sv[k].end <= n,
            forall|k: int| 0 <= k < i as int - 1 ==> #[trigger] sv[k].end <= sv[k + 1].start,
        decreases sorted@.len() - i,
    {
        if sorted[i].start > sorted[i].end || sorted[i].end > n {
            assert(!(0 <= sv[i as int].start <= sv[i as int].end <= n));
            return Err(TransformError::OverlappingChanges);
        }
        if i > 0 && sorted[i - 1].end > sorted[i].start {
            assert(sv[i - 1].end > sv[i as int - 1 + 1].start);
            assert(0 <= i - 1 < sv.len() - 1);
            return Err(TransformError::OverlappingChanges);
        }
        i = i + 1;
    }
    assert(well_placed(n as int, sv));
    let mut out: Vec<u8> = Vec::new();
    let mut pos: usize = 0;
    let mut i: usize = 0;
    assert(sv.skip(0) =~= sv);
    assert(out@ + patched(bytes@, sv, 0) =~= patched(bytes@, sv, 0));
    while i < sorted.len()
        invariant
            i <= sorted@.len(),
            n == bytes@.len(),
            sv == changes_view(sorted@),
            sv == sort_by_start(changes_view(changes@)),
            bytes@ == text.spec_bytes(),
            well_placed(n as int, sv),
            pos <= n,
            i < sorted@.len() ==> pos <= sv[i as int].start,
            out@ + patched(bytes@, sv.skip(i as int), pos as int) == patched(bytes@, sv, 0),
        decreases sorted@.len() - i,
    {
        let c = &sorted[i];
        push_range(&mut out, bytes, pos, c.start);
        let added = c.new_text.as_str().as_bytes();
        push_range(&mut out, added, 0, added.len());
        proof {
            let rest = sv.skip(i as int);
            assert(rest[0] == sv[i as int]);
            assert(rest.drop_first() =~= sv.skip(i + 1));
            assert(added@.subrange(0, added@.len() as int) =~= encode_utf8(sv[i as int].text));
            assert(i + 1 < sorted@.len() ==> sv[i as int].end <= sv[i + 1].start);
        }
        pos = c.end;
        i = i + 1;
    }
    push_range(&mut out, bytes, pos, n);
    proof {
        assert(sv.skip(i as int).len() == 0);
    }
    match string_from_utf8(out) {
        Some(s) => Ok(s),
        None => Err(TransformError::InvalidText),
    }
}

} // verus!
