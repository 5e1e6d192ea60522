use vstd::prelude::*;
use vstd::utf8::encode_utf8;
use unicode_segmentation::UnicodeSegmentation;

verus! {

/// The length of `s` in UTF-8 bytes.
pub open spec fn utf8_len(s: Seq<char>) -> nat {
    encode_utf8(s).len()
}

/// Pieces with their byte offsets, each piece by its characters.
pub open spec fn indexed_view(parts: Seq<(usize, String)>) -> Seq<(usize, Seq<char>)> {
    parts.map_values(|p: (usize, String)| (p.0, p.1@))
}

/// Pieces, each by its characters.
pub open spec fn pieces_view(parts: Seq<String>) -> Seq<Seq<char>> {
    parts.map_values(|p: String| p@)
}

/// Where piece `p` ends, in bytes.
pub open spec fn piece_end(p: (usize, Seq<char>)) -> int {
    p.0 + utf8_len(p.1)
}

/// Whether `parts` are nonempty pieces of a string of `total` bytes, in
/// order and apart: each starts at or after the end of the one before and
/// ends within the string.
pub open spec fn placed(parts: Seq<(usize, Seq<char>)>, total: nat) -> bool {
    &&& forall|i: int|
        0 <= i < parts.len() ==> utf8_len((#[trigger] parts[i]).1) > 0 && piece_end(parts[i])
            <= total
    &&& forall|i: int, j: int|
        0 <= i < j < parts.len() ==> piece_end(#[trigger] parts[i]) <= (#[trigger] parts[j]).0
}

/// The grapheme clusters of `s` with their byte offsets, extended or legacy.
pub uninterp spec fn spec_grapheme_indices(s: Seq<char>, extended: bool) -> Seq<(usize, Seq<char>)>;

/// The pieces of `s` between word boundaries, with their byte offsets.
pub uninterp spec fn spec_word_bound_indices(s: Seq<char>) -> Seq<(usize, Seq<char>)>;

/// The words of `s` with their byte offsets.
pub uninterp spec fn spec_word_indices(s: Seq<char>) -> Seq<(usize, Seq<char>)>;

/// The pieces of `s` between sentence boundaries, with their byte offsets.
pub uninterp spec fn spec_sentence_bound_indices(s: Seq<char>) -> Seq<(usize, Seq<char>)>;

/// The sentences of `s`.
pub uninterp spec fn spec_sentences(s: Seq<char>) -> Seq<Seq<char>>;

/// `UnicodeSegmentation::grapheme_indices`: the grapheme clusters of `s`
/// and their byte offsets. Named, and stated to be nonempty pieces of `s`
/// in order, as the crate slices them from `s` one after another.
#[verifier::external_body]
pub(crate) fn grapheme_indices(s: &str, extended: bool) -> (r: Vec<(usize, String)>)
    ensures
        indexed_view(r@) == spec_grapheme_indices(s@, extended),
        placed(indexed_view(r@), utf8_len(s@)),
{
    let mut v = Vec::new();
    for (i, p) in s.grapheme_indices(extended) {
        v.push((i, p.to_string()));
    }
    v
}

/// `UnicodeSegmentation::split_word_bound_indices`: `s` split at every
/// word boundary, with byte offsets. Named, and stated to be nonempty
/// pieces of `s` in order.
#[verifier::external_body]
pub(crate) fn word_bound_indices(s: &str) -> (r: Vec<(usize, String)>)
    ensures
        indexed_view(r@) == spec_word_bound_indices(s@),
        placed(indexed_view(r@), utf8_len(s@)),
{
    let mut v = Vec::new();
    for (i, p) in s.split_word_bound_indices() {
        v.push((i, p.to_string()));
    }
    v
}

/// `UnicodeSegmentation::unicode_word_indices`: the pieces between word
/// boundaries that hold a letter or a number, with byte offsets. Named,
/// and stated to be nonempty pieces of `s` in order.
#[verifier::external_body]
pub(crate) fn word_indices(s: &str) -> (r: Vec<(usize, String)>)
    ensures
        indexed_view(r@) == spec_word_indices(s@),
        placed(indexed_view(r@), utf8_len(s@)),
{
    let mut v = Vec::new();
    for (i, p) in s.unicode_word_indices() {
        v.push((i, p.to_string()));
    }
    v
}

/// `UnicodeSegmentation::split_sentence_bound_indices`: `s` split at
/// every sentence boundary, with byte offsets. Named, and stated to be
/// nonempty pieces of `s` in order.
#[verifier::external_body]
pub(crate) fn sentence_bound_indices(s: &str) -> (r: Vec<(usize, String)>)
    ensures
        indexed_view(r@) == spec_sentence_bound_indices(s@),
        placed(indexed_view(r@), utf8_len(s@)),
{
    let mut v = Vec::new();
    for (i, p) in s.split_sentence_bound_indices() {
        v.push((i, p.to_string()));
    }
    v
}

/// The pieces of `bounds` that `keep` holds for, in order.
pub open spec fn kept(bounds: Seq<(usize, Seq<char>)>, keep: spec_fn(Seq<char>) -> bool) -> Seq<Seq<char>>
    decreases bounds.len(),
{
    if bounds.len() == 0 {
        seq![]
    } else if keep(bounds[0].1) {
        seq![bounds[0].1] + kept(bounds.drop_first(), keep)
    } else {
        kept(bounds.drop_first(), keep)
    }
}

/// `UnicodeSegmentation::unicode_sentences`: the sentences of `s` that hold
/// a letter or a number. Named, and stated, as the crate's source builds
/// them by filtering the sentence-bound pieces with a test on each piece's
/// text, to be the pieces of `split_sentence_bound_indices` that some test
/// on their text keeps. The test itself (the crate's Alphabetic and Number
/// properties) is left unsaid.
#[verifier::external_body]
pub(crate) fn sentences(s: &str) -> (r: Vec<String>)
    ensures
        pieces_view(r@) == spec_sentences(s@),
        exists|keep: spec_fn(Seq<char>) -> bool|
            pieces_view(r@) == kept(spec_sentence_bound_indices(s@), keep),
{
    let mut v = Vec::new();
    for p in s.unicode_sentences() {
        v.push(p.to_string());
    }
    v
}

/// `unicode_segmentation::UNICODE_VERSION`: the Unicode version that the
/// crate's tables describe, 17.0.0 in the version used.
#[verifier::external_body]
pub(crate) fn unicode_version() -> (v: (u64, u64, u64))
    ensures
        v == (17u64, 0u64, 0u64),
{
    unicode_segmentation::UNICODE_VERSION
}

/// Whether every piece of `parts` ends at an offset that a `usize` holds.
pub open spec fn ends_fit(parts: Seq<(usize, Seq<char>)>) -> bool {
    forall|i: int| 0 <= i < parts.len() ==> piece_end(#[trigger] parts[i]) <= usize::MAX
}

/// Where each piece ends, in bytes.
pub open spec fn end_offsets(parts: Seq<(usize, Seq<char>)>) -> Seq<usize> {
    parts.map_values(|p: (usize, Seq<char>)| piece_end(p) as usize)
}

/// Each piece as its `(start, end)` byte offsets.
pub open spec fn span_pairs(parts: Seq<(usize, Seq<char>)>) -> Seq<(usize, usize)> {
    parts.map_values(|p: (usize, Seq<char>)| (p.0, piece_end(p) as usize))
}

/// The byte length of `s`.
fn byte_len(s: &String) -> (n: usize)
    requires
        utf8_len(s@) <= usize::MAX,
    ensures
        n == utf8_len(s@),
{
    s.as_str().len()
}

/// A segmentation as the byte offsets where each segment ends.
pub fn ends(parts: &[(usize, String)]) -> (out: Vec<usize>)
    requires
        ends_fit(indexed_view(parts@)),
    ensures
        out@ == end_offsets(indexed_view(parts@)),
{
    let ghost view = indexed_view(parts@);
    let mut out: Vec<usize> = Vec::new();
    let mut i: usize = 0;
    while i < parts.len()
        invariant
            0 <= i <= parts@.len(),
            view == indexed_view(parts@),
            ends_fit(view),
            out@ == end_offsets(view.take(i as int)),
        decreases parts@.len() - i,
    {
        proof {
            assert(piece_end(view[i as int]) <= usize::MAX);
            assert(view[i as int] == (parts@[i as int].0, parts@[i as int].1@));
        }
        let n = byte_len(&parts[i].1);
        out.push(parts[i].0 + n);
        proof {
            assert(end_offsets(view.take(i + 1)) =~= end_offsets(view.take(i as int)).push(
                piece_end(view[i as int]) as usize,
            ));
        }
        i += 1;
    }
    proof {
        assert(view.take(i as int) == view);
    }
    out
}

/// Segments as `(start, end)` byte offsets.
pub fn spans(parts: &[(usize, String)]) -> (out: Vec<(usize, usize)>)
    requires
        ends_fit(indexed_view(parts@)),
    ensures
        out@ == span_pairs(indexed_view(parts@)),
{
    let ghost view = indexed_view(parts@);
    let mut out: Vec<(usize, usize)> = Vec::new();
    let mut i: usize = 0;
    while i < parts.len()
        invariant
            0 <= i <= parts@.len(),
            view == indexed_view(parts@),
            ends_fit(view),
            out@ == span_pairs(view.take(i as int)),
        decreases parts@.len() - i,
    {
        proof {
            assert(piece_end(view[i as int]) <= usize::MAX);
            assert(view[i as int] == (parts@[i as int].0, parts@[i as int].1@));
        }
        let n = byte_len(&parts[i].1);
        let start = parts[i].0;
        out.push((start, start + n));
        proof {
            assert(span_pairs(view.take(i + 1)) =~= span_pairs(view.take(i as int)).push(
                (view[i as int].0, piece_end(view[i as int]) as usize),
            ));
        }
        i += 1;
    }
    proof {
        assert(view.take(i as int) == view);
    }
    out
}

/// The spans of the pieces of `bounds` that are, in order, the pieces of
/// `pieces`: each bound piece is taken when it is the next piece wanted.
pub open spec fn align(bounds: Seq<(usize, Seq<char>)>, pieces: Seq<Seq<char>>) -> Seq<(usize, usize)>
    decreases bounds.len(),
{
    if bounds.len() == 0 {
        seq![]
    } else if pieces.len() > 0 && bounds[0].1 == pieces[0] {
        seq![(bounds[0].0, piece_end(bounds[0]) as usize)] + align(
            bounds.drop_first(),
            pieces.drop_first(),
        )
    } else {
        align(bounds.drop_first(), pieces)
    }
}

/// Filtered segments as `(start, end)` byte offsets, found among the
/// bound pieces they were filtered from.
pub fn aligned_spans(bounds: &[(usize, String)], pieces: &[String]) -> (out: Vec<(usize, usize)>)
    requires
        ends_fit(indexed_view(bounds@)),
    ensures
        out@ == align(indexed_view(bounds@), pieces_view(pieces@)),
{
    let ghost bv = indexed_view(bounds@);
    let ghost pv = pieces_view(pieces@);
    let mut out: Vec<(usize, usize)> = Vec::new();
    let mut i: usize = 0;
    let mut j: usize = 0;
    proof {
        assert(bv.skip(0) == bv);
        assert(pv.skip(0) == pv);
        assert(out@ + align(bv, pv) == align(bv, pv));
    }
    while i < bounds.len()
        invariant
            0 <= i <= bounds@.len(),
            0 <= j <= pieces@.len(),
            bv == indexed_view(bounds@),
            pv == pieces_view(pieces@),
            ends_fit(bv),
            out@ + align(bv.skip(i as int), pv.skip(j as int)) == align(bv, pv),
        decreases bounds@.len() - i,
    {
        let ghost rest = bv.skip(i as int);
        proof {
            assert(rest[0] == bv[i as int]);
            assert(rest.drop_first() == bv.skip(i + 1));
            assert(piece_end(bv[i as int]) <= usize::MAX);
        }
        if j < pieces.len() && bounds[i].1 == pieces[j] {
            proof {
                assert(pv.skip(j as int)[0] == pv[j as int]);
                assert(pv.skip(j as int).drop_first() == pv.skip(j + 1));
            }
            let n = byte_len(&bounds[i].1);
            let start = bounds[i].0;
            let ghost before = out@;
            out.push((start, start + n));
            proof {
                assert(out@ + align(bv.skip(i + 1), pv.skip(j + 1)) == before + align(rest, pv.skip(j as int)));
            }
            j += 1;
        } else {
            proof {
                if j < pieces@.len() {
                    assert(pv.skip(j as int)[0] == pv[j as int]);
                }
            }
        }
        i += 1;
    }
    proof {
        assert(out@ + seq![] == out@);
    }
    out
}

/// The entries of `bounds` whose pieces `keep` holds for.
pub open spec fn kept_entries(bounds: Seq<(usize, Seq<char>)>, keep: spec_fn(Seq<char>) -> bool) -> Seq<(usize, Seq<char>)>
    decreases bounds.len(),
{
    if bounds.len() == 0 {
        seq![]
    } else if keep(bounds[0].1) {
        seq![bounds[0]] + kept_entries(bounds.drop_first(), keep)
    } else {
        kept_entries(bounds.drop_first(), keep)
    }
}

proof fn lemma_kept_all_kept(bounds: Seq<(usize, Seq<char>)>, keep: spec_fn(Seq<char>) -> bool)
    ensures
        forall|i: int| 0 <= i < kept(bounds, keep).len() ==> keep(#[trigger] kept(bounds, keep)[i]),
    decreases bounds.len(),
{
    if bounds.len() > 0 {
        lemma_kept_all_kept(bounds.drop_first(), keep);
        let r = kept(bounds.drop_first(), keep);
        if keep(bounds[0].1) {
            assert forall|i: int| 0 <= i < kept(bounds, keep).len() implies keep(
                #[trigger] kept(bounds, keep)[i],
            ) by {
                if i > 0 {
                    assert(kept(bounds, keep)[i] == r[i - 1]);
                }
            }
        }
    }
}

/// Finding filtered pieces among the bound pieces recovers exactly the
/// kept bound pieces, offsets and all, when the filter goes by each
/// piece's text.
pub proof fn lemma_align_kept(bounds: Seq<(usize, Seq<char>)>, keep: spec_fn(Seq<char>) -> bool)
    ensures
        align(bounds, kept(bounds, keep)) == span_pairs(kept_entries(bounds, keep)),
    decreases bounds.len(),
{
    if bounds.len() > 0 {
        let rest = bounds.drop_first();
        lemma_align_kept(rest, keep);
        if keep(bounds[0].1) {
            assert(kept(bounds, keep).drop_first() == kept(rest, keep));
            assert(span_pairs(kept_entries(bounds, keep)) == seq![(bounds[0].0, piece_end(bounds[0]) as usize)] + span_pairs(kept_entries(rest, keep)));
        } else {
            lemma_kept_all_kept(rest, keep);
            if kept(rest, keep).len() > 0 {
                assert(keep(kept(rest, keep)[0]));
            }
        }
    }
}

} // verus!
