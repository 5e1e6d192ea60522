use vstd::prelude::*;
use crate::category::{GraphemeCat, SentenceCat, WordCat};
use crate::encoding::{base64_digits, decode64, digits, lemma_digits_len, lemma_digits_roundtrip, lemma_items3_len, lemma_offsets_read, lemma_pair_items_len, lemma_pairs_read, lemma_pow64_values, offsets, offsets_text, pairs, pairs_fit3, pairs_text, fits3, pow64};
use crate::literal::{literal, long_literal};
use crate::order::{lemma_sorted_texts, lemma_sorted_texts_exist, sort_dedup_strings, sorted_texts, strictly_sorted, texts};
use crate::pool::{interesting, pool_picks, sorted_chars};
use crate::rng::{scramble, xorshift, Rng};
use crate::runs::{deterministic, total};
use crate::segment::{
    align, aligned_spans, end_offsets, ends, grapheme_indices, indexed_view, piece_end, placed,
    sentence_bound_indices, sentences, span_pairs, spans, spec_grapheme_indices,
    spec_sentence_bound_indices, spec_sentences, spec_word_bound_indices, spec_word_indices,
    utf8_len, word_bound_indices, word_indices,
};
use crate::text::{decimal, push_char, push_decimal, push_str};

verus! {

/// The seed of the generator, so that the cases are the same on every run.
pub const SEED: u64 = 0x5eed_5e9e_c0ff_ee42;

/// How many strings are built at random.
pub const RANDOM_STRINGS: usize = 4000;

/// The largest number of bytes a string of the cases may have: its length
/// is written in three base-64 digits.
pub open spec fn fits_record(t: Seq<char>) -> bool {
    utf8_len(t) < pow64(3)
}

/// A number below `n` drawn from the generator in state `state`, and the
/// state after it.
pub open spec fn draw(state: u64, n: nat) -> (nat, u64) {
    ((scramble(xorshift(state)) as nat % n), xorshift(state))
}

/// `k` characters drawn from `pool`, and the state after them.
pub open spec fn random_chars(state: u64, pool: Seq<char>, k: nat) -> (Seq<char>, u64)
    decreases k,
{
    if k == 0 {
        (seq![], state)
    } else {
        let (s, st) = random_chars(state, pool, (k - 1) as nat);
        let (i, st2) = draw(st, pool.len());
        (s.push(pool[i as int]), st2)
    }
}

/// A string of one to ten characters drawn from `pool`: first its length,
/// then each character.
pub open spec fn random_string(state: u64, pool: Seq<char>) -> (Seq<char>, u64) {
    let (l, st) = draw(state, 10);
    random_chars(st, pool, l + 1)
}

/// `count` strings drawn one after another from `pool`.
pub open spec fn random_strings(state: u64, pool: Seq<char>, count: nat) -> (Seq<Seq<char>>, u64)
    decreases count,
{
    if count == 0 {
        (seq![], state)
    } else {
        let (v, st) = random_strings(state, pool, (count - 1) as nat);
        let (s, st2) = random_string(st, pool);
        (v.push(s), st2)
    }
}

/// Prose, where the rules for abbreviations, quotes and numbers meet.
pub open spec fn prose() -> Seq<Seq<char>> {
    seq![
        "Mr. Fox jumped. [...] The dog was too lazy."@,
        "The quick (\"brown\") fox can't jump 32.3 feet, right?"@,
        "He said \"Stop!\" She didn't. 3.14 is pi; e.g. it's not 3,14."@,
        "etc.)' Hello? \u{2019}Tis true.\r\nNew line\u{2029}New paragraph"@,
        "\u{915}\u{93f} \u{915}\u{94d}\u{937} \u{939}\u{93f}\u{928}\u{94d}\u{926}\u{940} \u{1f468}\u{200d}\u{1f469}\u{200d}\u{1f467} \u{1f1fa}\u{1f1f8}\u{1f1ec}\u{1f1e7} a\u{308}"@,
        "\u{65e5}\u{672c}\u{8a9e}\u{306e}\u{30c6}\u{30ad}\u{30b9}\u{30c8}\u{3002}\u{30ab}\u{30bf}\u{30ab}\u{30ca}\u{3001}\u{3072}\u{3089}\u{304c}\u{306a}\u{3002}"@,
        "\u{5e9}\u{5b8}\u{5c1}\u{5dc}\u{5d5}\u{5b9}\u{5dd} \"\u{5e2}\u{5d5}\u{5dc}\u{5dd}\" \u{5d4}'\u{5d2}"@,
        "can't won\u{2019}t e.g. U.S.A. 1,000.5 $3 _foo_bar a_1"@,
    ]
}

/// Every string of the cases before sorting: the official ones, the prose,
/// and those built at random from `pool`.
pub open spec fn all_strings(official: Seq<Seq<char>>, pool: Seq<char>) -> Seq<Seq<char>> {
    official + prose() + random_strings(SEED, pool, RANDOM_STRINGS as nat).0
}

/// The record of one string: its length in bytes and the string, then its
/// extended and legacy graphemes, word bounds and sentence bounds as the
/// offsets where each segment ends, and its words and sentences as
/// `(start, end)` offsets.
pub open spec fn record_text(t: Seq<char>) -> Seq<char> {
    base64_digits(utf8_len(t), 3) + t + offsets_text(end_offsets(spec_grapheme_indices(t, true)))
        + offsets_text(end_offsets(spec_grapheme_indices(t, false))) + offsets_text(
        end_offsets(spec_word_bound_indices(t)),
    ) + pairs_text(span_pairs(spec_word_indices(t))) + offsets_text(
        end_offsets(spec_sentence_bound_indices(t)),
    ) + pairs_text(align(spec_sentence_bound_indices(t), spec_sentences(t)))
}

/// The records of `strs`, one after another.
pub open spec fn records(strs: Seq<Seq<char>>) -> Seq<char>
    decreases strs.len(),
{
    if strs.len() == 0 {
        seq![]
    } else {
        records(strs.drop_last()) + record_text(strs.last())
    }
}

/// The opening of the cases file, before the counts.
pub open spec fn cases_intro() -> Seq<char> {
    "-- GENERATED by scripts/generate.sh from unicode-segmentation 1.13.3.\n-- Do not edit: run the script again instead.\n--\n-- Strings with the segmentations the crate gives them, for `Tests.mw`: "@
}

fn cases_intro_text() -> (s: &'static str)
    ensures
        s@ == cases_intro(),
{
    "-- GENERATED by scripts/generate.sh from unicode-segmentation 1.13.3.\n-- Do not edit: run the script again instead.\n--\n-- Strings with the segmentations the crate gives them, for `Tests.mw`: "
}

/// The description of the records, before the definition.
pub open spec fn cases_layout() -> Seq<char> {
    "\n\n-- Each: the length in bytes (3 digits) and that many bytes, then six lists,\n-- each a count (3) and its items. Where each segment ends (3 per item) for\n-- extended graphemes, legacy graphemes, word bounds; `start end` (3 + 3) for\n-- words; ends for sentence bounds; `start end` for sentences.\n@cfg(test)\n@pub(pkg) def cases =\n  "@
}

fn cases_layout_text() -> (s: &'static str)
    ensures
        s@ == cases_layout(),
{
    "\n\n-- Each: the length in bytes (3 digits) and that many bytes, then six lists,\n-- each a count (3) and its items. Where each segment ends (3 per item) for\n-- extended graphemes, legacy graphemes, word bounds; `start end` (3 + 3) for\n-- words; ends for sentence bounds; `start end` for sentences.\n@cfg(test)\n@pub(pkg) def cases =\n  "
}

/// The cases file for the sorted strings `strs`, `official` of the strings
/// before sorting being the official ones, under the licence lines
/// `header`.
pub open spec fn cases_text(header: Seq<char>, strs: Seq<Seq<char>>, official: nat) -> Seq<char> {
    cases_intro() + decimal(strs.len()) + " in\n-- all, "@ + decimal(official)
        + " of them from the official Unicode test files.\n--\n"@ + header + cases_layout() + literal(
        records(strs),
        96,
    ) + seq!['\n']
}

/// Every character takes at most four bytes.
pub proof fn lemma_utf8_len_bound(t: Seq<char>)
    ensures
        utf8_len(t) <= 4 * t.len(),
    decreases t.len(),
{
    if t.len() > 0 {
        lemma_utf8_len_bound(t.drop_first());
    }
}

/// Pieces placed in a string are no more than its bytes.
proof fn lemma_placed_count(parts: Seq<(usize, Seq<char>)>, total: nat)
    requires
        placed(parts, total),
    ensures
        parts.len() <= total,
{
    if parts.len() > 0 {
        assert forall|i: int| 0 <= i < parts.len() implies (#[trigger] parts[i]).0 >= i by {
            lemma_placed_offset(parts, total, i);
        }
        assert(parts[parts.len() - 1].0 >= parts.len() - 1);
    }
}

proof fn lemma_placed_offset(parts: Seq<(usize, Seq<char>)>, total: nat, i: int)
    requires
        placed(parts, total),
        0 <= i < parts.len(),
    ensures
        parts[i].0 >= i,
    decreases i,
{
    if i > 0 {
        lemma_placed_offset(parts, total, i - 1);
        assert(piece_end(parts[i - 1]) <= parts[i].0);
        assert(utf8_len(parts[i - 1].1) > 0);
    }
}

/// The ends and spans of pieces placed in a string of fewer than 64^3
/// bytes fit their records.
proof fn lemma_placed_fit(parts: Seq<(usize, Seq<char>)>, total: nat)
    requires
        placed(parts, total),
        total < pow64(3),
    ensures
        crate::segment::ends_fit(parts),
        end_offsets(parts).len() < pow64(3),
        fits3(end_offsets(parts)),
        span_pairs(parts).len() < pow64(3),
        pairs_fit3(span_pairs(parts)),
{
    lemma_placed_count(parts, total);
    lemma_pow64_values();
    assert forall|i: int| 0 <= i < parts.len() implies piece_end(#[trigger] parts[i]) <= usize::MAX by {}
    assert forall|i: int| 0 <= i < end_offsets(parts).len() implies (#[trigger] end_offsets(parts)[i]) < pow64(3) by {
        assert(piece_end(parts[i]) <= total);
    }
    assert forall|i: int| 0 <= i < span_pairs(parts).len() implies (#[trigger] span_pairs(parts)[i]).0 < pow64(3) && span_pairs(parts)[i].1 < pow64(3) by {
        assert(piece_end(parts[i]) <= total);
    }
}

/// The spans found among placed pieces fit their records too.
proof fn lemma_align_fit(bounds: Seq<(usize, Seq<char>)>, pieces: Seq<Seq<char>>, total: nat)
    requires
        forall|i: int| 0 <= i < bounds.len() ==> piece_end(#[trigger] bounds[i]) <= total,
        bounds.len() < pow64(3),
        total < pow64(3),
    ensures
        align(bounds, pieces).len() <= bounds.len(),
        pairs_fit3(align(bounds, pieces)),
    decreases bounds.len(),
{
    if bounds.len() > 0 {
        let rest = bounds.drop_first();
        assert forall|i: int| 0 <= i < rest.len() implies piece_end(#[trigger] rest[i]) <= total by {
            assert(rest[i] == bounds[i + 1]);
        }
        assert(piece_end(bounds[0]) <= total);
        if pieces.len() > 0 && bounds[0].1 == pieces[0] {
            lemma_align_fit(rest, pieces.drop_first(), total);
            let a = align(bounds, pieces);
            let r = align(rest, pieces.drop_first());
            assert forall|i: int| 0 <= i < a.len() implies (#[trigger] a[i]).0 < pow64(3) && a[i].1 < pow64(3) by {
                if i > 0 {
                    assert(a[i] == r[i - 1]);
                }
            }
        } else {
            lemma_align_fit(rest, pieces, total);
        }
    }
}

/// Whether `s` holds, from position `at`, a list that reads back as `list`:
/// its count in three base-64 digits, then each item in three.
pub open spec fn offsets_at(s: Seq<char>, at: int, list: Seq<usize>) -> bool {
    &&& 0 <= at
    &&& at + 3 + 3 * list.len() <= s.len()
    &&& decode64(s.subrange(at, at + 3)) == list.len()
    &&& forall|k: int|
        0 <= k < list.len() ==> decode64(s.subrange(at + 3 + 3 * k, at + 6 + 3 * k))
            == #[trigger] list[k]
}

/// Whether `s` holds, from position `at`, a list that reads back as the
/// pairs `list`: its count in three base-64 digits, then each pair in six.
pub open spec fn pairs_at(s: Seq<char>, at: int, list: Seq<(usize, usize)>) -> bool {
    &&& 0 <= at
    &&& at + 3 + 6 * list.len() <= s.len()
    &&& decode64(s.subrange(at, at + 3)) == list.len()
    &&& forall|k: int|
        0 <= k < list.len() ==> decode64(s.subrange(at + 3 + 6 * k, at + 6 + 6 * k))
            == (#[trigger] list[k]).0 && decode64(s.subrange(at + 6 + 6 * k, at + 9 + 6 * k))
            == list[k].1
}

/// Where a list of offsets that starts at `at` in `s` ends, by its count.
pub open spec fn offsets_end(s: Seq<char>, at: int) -> int {
    at + 3 + 3 * decode64(s.subrange(at, at + 3))
}

/// Where a list of pairs that starts at `at` in `s` ends, by its count.
pub open spec fn pairs_end(s: Seq<char>, at: int) -> int {
    at + 3 + 6 * decode64(s.subrange(at, at + 3))
}

/// Whether `rec` reads back as a record of `t`: the length of `t` in bytes
/// and `t` itself, then, each list starting where the one before it ends,
/// the ends of its extended graphemes, of its legacy graphemes and of its
/// word bounds, the spans of its words, the ends of its sentence bounds and
/// the spans of its sentences, with nothing after them.
pub open spec fn reads_as_record(rec: Seq<char>, t: Seq<char>) -> bool {
    let p1 = 3 + t.len() as int;
    let p2 = offsets_end(rec, p1);
    let p3 = offsets_end(rec, p2);
    let p4 = offsets_end(rec, p3);
    let p5 = pairs_end(rec, p4);
    let p6 = offsets_end(rec, p5);
    &&& p1 <= rec.len()
    &&& decode64(rec.subrange(0, 3)) == utf8_len(t)
    &&& rec.subrange(3, p1) == t
    &&& offsets_at(rec, p1, end_offsets(spec_grapheme_indices(t, true)))
    &&& offsets_at(rec, p2, end_offsets(spec_grapheme_indices(t, false)))
    &&& offsets_at(rec, p3, end_offsets(spec_word_bound_indices(t)))
    &&& pairs_at(rec, p4, span_pairs(spec_word_indices(t)))
    &&& offsets_at(rec, p5, end_offsets(spec_sentence_bound_indices(t)))
    &&& pairs_at(rec, p6, align(spec_sentence_bound_indices(t), spec_sentences(t)))
    &&& pairs_end(rec, p6) == rec.len()
}

/// A list of offsets written into a text reads back from where it stands.
proof fn lemma_offsets_at(s: Seq<char>, at: int, list: Seq<usize>)
    requires
        list.len() < pow64(3),
        fits3(list),
        0 <= at,
        at + offsets_text(list).len() <= s.len(),
        s.subrange(at, at + offsets_text(list).len()) == offsets_text(list),
    ensures
        offsets_text(list).len() == 3 + 3 * list.len(),
        offsets_at(s, at, list),
        offsets_end(s, at) == at + offsets_text(list).len(),
{
    let o = offsets_text(list);
    lemma_items3_len(list);
    lemma_digits_len(list.len() as nat, 3);
    lemma_digits_roundtrip(list.len() as nat, 3);
    assert(s.subrange(at, at + 3) =~= o.subrange(0, 3));
    assert(o.subrange(0, 3) =~= base64_digits(list.len() as nat, 3));
    assert forall|k: int| 0 <= k < list.len() implies decode64(
        s.subrange(at + 3 + 3 * k, at + 6 + 3 * k),
    ) == #[trigger] list[k] by {
        lemma_offsets_read(list, k);
        assert(s.subrange(at + 3 + 3 * k, at + 6 + 3 * k) =~= o.subrange(3 + 3 * k, 6 + 3 * k));
    }
}

/// A list of pairs written into a text reads back from where it stands.
proof fn lemma_pairs_at(s: Seq<char>, at: int, list: Seq<(usize, usize)>)
    requires
        list.len() < pow64(3),
        pairs_fit3(list),
        0 <= at,
        at + pairs_text(list).len() <= s.len(),
        s.subrange(at, at + pairs_text(list).len()) == pairs_text(list),
    ensures
        pairs_text(list).len() == 3 + 6 * list.len(),
        pairs_at(s, at, list),
        pairs_end(s, at) == at + pairs_text(list).len(),
{
    let o = pairs_text(list);
    lemma_pair_items_len(list);
    lemma_digits_len(list.len() as nat, 3);
    lemma_digits_roundtrip(list.len() as nat, 3);
    assert(s.subrange(at, at + 3) =~= o.subrange(0, 3));
    assert(o.subrange(0, 3) =~= base64_digits(list.len() as nat, 3));
    assert forall|k: int| 0 <= k < list.len() implies decode64(
        s.subrange(at + 3 + 6 * k, at + 6 + 6 * k),
    ) == (#[trigger] list[k]).0 && decode64(s.subrange(at + 6 + 6 * k, at + 9 + 6 * k))
        == list[k].1 by {
        lemma_pairs_read(list, k);
        assert(s.subrange(at + 3 + 6 * k, at + 6 + 6 * k) =~= o.subrange(3 + 6 * k, 6 + 6 * k));
        assert(s.subrange(at + 6 + 6 * k, at + 9 + 6 * k) =~= o.subrange(6 + 6 * k, 9 + 6 * k));
    }
}

/// The record of a string reads back as that string and its six
/// segmentations, each list where the counts before it place it.
pub proof fn lemma_record_reads_back(t: Seq<char>)
    requires
        fits_record(t),
        placed(spec_grapheme_indices(t, true), utf8_len(t)),
        placed(spec_grapheme_indices(t, false), utf8_len(t)),
        placed(spec_word_bound_indices(t), utf8_len(t)),
        placed(spec_word_indices(t), utf8_len(t)),
        placed(spec_sentence_bound_indices(t), utf8_len(t)),
    ensures
        reads_as_record(record_text(t), t),
{
    lemma_pow64_values();
    let n = utf8_len(t);
    let l1 = end_offsets(spec_grapheme_indices(t, true));
    let l2 = end_offsets(spec_grapheme_indices(t, false));
    let l3 = end_offsets(spec_word_bound_indices(t));
    let l4 = span_pairs(spec_word_indices(t));
    let l5 = end_offsets(spec_sentence_bound_indices(t));
    let l6 = align(spec_sentence_bound_indices(t), spec_sentences(t));
    lemma_placed_fit(spec_grapheme_indices(t, true), n);
    lemma_placed_fit(spec_grapheme_indices(t, false), n);
    lemma_placed_fit(spec_word_bound_indices(t), n);
    lemma_placed_fit(spec_word_indices(t), n);
    lemma_placed_fit(spec_sentence_bound_indices(t), n);
    lemma_placed_count(spec_sentence_bound_indices(t), n);
    lemma_align_fit(spec_sentence_bound_indices(t), spec_sentences(t), n);
    let head = base64_digits(n, 3);
    let o1 = offsets_text(l1);
    let o2 = offsets_text(l2);
    let o3 = offsets_text(l3);
    let o4 = pairs_text(l4);
    let o5 = offsets_text(l5);
    let o6 = pairs_text(l6);
    let rec = record_text(t);
    lemma_digits_len(n, 3);
    lemma_digits_roundtrip(n, 3);
    lemma_items3_len(l1);
    lemma_items3_len(l2);
    lemma_items3_len(l3);
    lemma_pair_items_len(l4);
    lemma_items3_len(l5);
    lemma_pair_items_len(l6);
    lemma_digits_len(l1.len() as nat, 3);
    lemma_digits_len(l2.len() as nat, 3);
    lemma_digits_len(l3.len() as nat, 3);
    lemma_digits_len(l4.len() as nat, 3);
    lemma_digits_len(l5.len() as nat, 3);
    lemma_digits_len(l6.len() as nat, 3);
    assert(rec == head + t + o1 + o2 + o3 + o4 + o5 + o6);
    let p1: int = 3 + t.len() as int;
    let p2: int = p1 + o1.len();
    let p3: int = p2 + o2.len();
    let p4: int = p3 + o3.len();
    let p5: int = p4 + o4.len();
    let p6: int = p5 + o5.len();
    assert(rec.len() == p6 + o6.len());
    assert(rec.subrange(0, 3) =~= head);
    assert(rec.subrange(3, p1) =~= t);
    assert(rec.subrange(p1, p2) =~= o1);
    assert(rec.subrange(p2, p3) =~= o2);
    assert(rec.subrange(p3, p4) =~= o3);
    assert(rec.subrange(p4, p5) =~= o4);
    assert(rec.subrange(p5, p6) =~= o5);
    assert(rec.subrange(p6, rec.len() as int) =~= o6);
    lemma_offsets_at(rec, p1, l1);
    lemma_offsets_at(rec, p2, l2);
    lemma_offsets_at(rec, p3, l3);
    lemma_pairs_at(rec, p4, l4);
    lemma_offsets_at(rec, p5, l5);
    lemma_pairs_at(rec, p6, l6);
}

/// A record appended piece by piece is the record of the string, and reads
/// back as it.
proof fn lemma_appended_record(start: Seq<char>, body: Seq<char>, t: Seq<char>)
    requires
        body == start + base64_digits(utf8_len(t), 3) + t + offsets_text(
            end_offsets(spec_grapheme_indices(t, true)),
        ) + offsets_text(end_offsets(spec_grapheme_indices(t, false))) + offsets_text(
            end_offsets(spec_word_bound_indices(t)),
        ) + pairs_text(span_pairs(spec_word_indices(t))) + offsets_text(
            end_offsets(spec_sentence_bound_indices(t)),
        ) + pairs_text(align(spec_sentence_bound_indices(t), spec_sentences(t))),
        fits_record(t),
        placed(spec_grapheme_indices(t, true), utf8_len(t)),
        placed(spec_grapheme_indices(t, false), utf8_len(t)),
        placed(spec_word_bound_indices(t), utf8_len(t)),
        placed(spec_word_indices(t), utf8_len(t)),
        placed(spec_sentence_bound_indices(t), utf8_len(t)),
    ensures
        body == start + record_text(t),
        reads_as_record(body.skip(start.len() as int), t),
{
    lemma_record_reads_back(t);
    assert(body =~= start + record_text(t));
    assert(body.skip(start.len() as int) =~= record_text(t));
}

/// Appends the record of `s`: its length and text, then its six segmentations.
pub fn record(body: &mut String, s: &str)
    requires
        fits_record(s@),
    ensures
        final(body)@ == old(body)@ + record_text(s@),
        reads_as_record(final(body)@.skip(old(body)@.len() as int), s@),
{
    proof {
        lemma_pow64_values();
    }
    let total = s.len();
    digits(body, total as u64, 3);
    push_str(body, s);

    let parts = grapheme_indices(s, true);
    proof {
        lemma_placed_fit(indexed_view(parts@), utf8_len(s@));
    }
    let list = ends(parts.as_slice());
    offsets(body, list.as_slice());

    let parts = grapheme_indices(s, false);
    proof {
        lemma_placed_fit(indexed_view(parts@), utf8_len(s@));
    }
    let list = ends(parts.as_slice());
    offsets(body, list.as_slice());

    let parts = word_bound_indices(s);
    proof {
        lemma_placed_fit(indexed_view(parts@), utf8_len(s@));
    }
    let list = ends(parts.as_slice());
    offsets(body, list.as_slice());

    let parts = word_indices(s);
    proof {
        lemma_placed_fit(indexed_view(parts@), utf8_len(s@));
    }
    let list = spans(parts.as_slice());
    pairs(body, list.as_slice());

    let bounds = sentence_bound_indices(s);
    proof {
        lemma_placed_fit(indexed_view(bounds@), utf8_len(s@));
    }
    let list = ends(bounds.as_slice());
    offsets(body, list.as_slice());

    let found = sentences(s);
    proof {
        lemma_placed_count(indexed_view(bounds@), utf8_len(s@));
        lemma_align_fit(indexed_view(bounds@), crate::segment::pieces_view(found@), utf8_len(s@));
    }
    let list = aligned_spans(bounds.as_slice(), found.as_slice());
    pairs(body, list.as_slice());
    proof {
        lemma_appended_record(old(body)@, body@, s@);
    }
}

/// A string of one to ten characters drawn from `pool`.
fn random_text(rng: &mut Rng, pool: &[char]) -> (s: String)
    requires
        pool@.len() > 0,
    ensures
        (s@, final(rng).0) == random_string(old(rng).0, pool@),
        s@.len() <= 10,
{
    let len = 1 + rng.below(10);
    let ghost start = rng.0;
    let mut s = String::new();
    let mut k: usize = 0;
    while k < len
        invariant
            0 <= k <= len <= 10,
            pool@.len() > 0,
            (s@, rng.0) == random_chars(start, pool@, k as nat),
        decreases len - k,
    {
        let i = rng.below(pool.len());
        push_char(&mut s, pool[i]);
        k += 1;
    }
    proof {
        let (l, st) = draw(old(rng).0, 10);
        assert(l + 1 == len);
        lemma_random_chars_len(start, pool@, len as nat);
    }
    s
}

proof fn lemma_random_chars_len(state: u64, pool: Seq<char>, k: nat)
    ensures
        random_chars(state, pool, k).0.len() == k,
    decreases k,
{
    if k > 0 {
        lemma_random_chars_len(state, pool, (k - 1) as nat);
    }
}

/// Strings with the segmentations the crate gives them: the official ones,
/// prose, and sequences built at random from a character of every category,
/// sorted and each once, every one followed by its six segmentations.
/// `header` is the licence lines; the category functions are those of
/// `interesting`.
pub fn cases<G: Fn(char) -> GraphemeCat, W: Fn(char) -> WordCat, S: Fn(char) -> SentenceCat, E: Fn(char) -> bool>(
    header: &str,
    official: &[String],
    grapheme: &G,
    word: &W,
    sentence: &S,
    incb_extend: &E,
) -> (out: String)
    requires
        total(grapheme),
        deterministic(grapheme),
        total(word),
        deterministic(word),
        total(sentence),
        deterministic(sentence),
        total(incb_extend),
        deterministic(incb_extend),
        forall|i: int| 0 <= i < official@.len() ==> fits_record(#[trigger] official@[i]@),
    ensures
        out@ == cases_text(
            header@,
            sorted_texts(
                all_strings(
                    texts(official@),
                    sorted_chars(pool_picks(grapheme, word, sentence, incb_extend)),
                ),
            ),
            official@.len(),
        ),
{
    let pool = interesting(grapheme, word, sentence, incb_extend);
    proof {
        assert(pool_picks(grapheme, word, sentence, incb_extend).contains(' ')) by {
            let picks = pool_picks(grapheme, word, sentence, incb_extend);
            let k = picks.len() - crate::pool::extra_chars().len();
            assert(picks[k] == ' ');
        }
        assert(pool@.contains(' '));
    }
    let mut strings: Vec<String> = Vec::new();
    let mut i: usize = 0;
    while i < official.len()
        invariant
            0 <= i <= official@.len(),
            texts(strings@) == texts(official@.take(i as int)),
        decreases official@.len() - i,
    {
        strings.push(official[i].clone());
        proof {
            assert(texts(official@.take(i + 1)) == texts(official@.take(i as int)).push(official@[i as int]@));
        }
        i += 1;
    }
    proof {
        assert(official@.take(i as int) == official@);
    }
    let official_count = strings.len();
    let prose_list = vec![
        "Mr. Fox jumped. [...] The dog was too lazy.",
        "The quick (\"brown\") fox can't jump 32.3 feet, right?",
        "He said \"Stop!\" She didn't. 3.14 is pi; e.g. it's not 3,14.",
        "etc.)' Hello? \u{2019}Tis true.\r\nNew line\u{2029}New paragraph",
        "\u{915}\u{93f} \u{915}\u{94d}\u{937} \u{939}\u{93f}\u{928}\u{94d}\u{926}\u{940} \u{1f468}\u{200d}\u{1f469}\u{200d}\u{1f467} \u{1f1fa}\u{1f1f8}\u{1f1ec}\u{1f1e7} a\u{308}",
        "\u{65e5}\u{672c}\u{8a9e}\u{306e}\u{30c6}\u{30ad}\u{30b9}\u{30c8}\u{3002}\u{30ab}\u{30bf}\u{30ab}\u{30ca}\u{3001}\u{3072}\u{3089}\u{304c}\u{306a}\u{3002}",
        "\u{5e9}\u{5b8}\u{5c1}\u{5dc}\u{5d5}\u{5b9}\u{5dd} \"\u{5e2}\u{5d5}\u{5dc}\u{5dd}\" \u{5d4}'\u{5d2}",
        "can't won\u{2019}t e.g. U.S.A. 1,000.5 $3 _foo_bar a_1",
    ];
    let mut k: usize = 0;
    while k < prose_list.len()
        invariant
            0 <= k <= prose_list@.len(),
            prose_list@.map_values(|p: &str| p@) == prose(),
            texts(strings@) == texts(official@) + prose().take(k as int),
        decreases prose_list@.len() - k,
    {
        let ghost before_texts = texts(strings@);
        let owned: String = prose_list[k].to_owned();
        strings.push(owned);
        proof {
            assert(owned@ == prose_list@[k as int]@);
            assert(texts(strings@) =~= before_texts.push(owned@));
            assert(prose().take(k + 1) == prose().take(k as int).push(prose()[k as int]));
            assert(prose()[k as int] == prose_list@[k as int]@);
        }
        k += 1;
    }
    proof {
        assert(prose().take(k as int) == prose());
    }
    let mut rng = Rng(SEED);
    let mut n: usize = 0;
    while n < RANDOM_STRINGS
        invariant
            0 <= n <= RANDOM_STRINGS,
            pool@.len() > 0,
            texts(strings@) == texts(official@) + prose() + random_strings(SEED, pool@, n as nat).0,
            rng.0 == random_strings(SEED, pool@, n as nat).1,
            forall|j: int| 0 <= j < n ==> #[trigger] random_strings(SEED, pool@, n as nat).0[j].len() <= 10,
            random_strings(SEED, pool@, n as nat).0.len() == n,
        decreases RANDOM_STRINGS - n,
    {
        let ghost before = random_strings(SEED, pool@, n as nat);
        let ghost before_texts = texts(strings@);
        let s = random_text(&mut rng, pool.as_slice());
        let ghost made = s@;
        strings.push(s);
        proof {
            assert(texts(strings@) =~= before_texts.push(made));
            let after = random_strings(SEED, pool@, (n + 1) as nat);
            assert(after.0 == before.0.push(made));
            assert(after.1 == rng.0);
            assert(texts(official@) + prose() + after.0 =~= before_texts.push(made));
            assert forall|j: int| 0 <= j < n + 1 implies #[trigger] after.0[j].len() <= 10 by {
                if j < n {
                    assert(after.0[j] == before.0[j]);
                }
            }
        }
        n += 1;
    }
    let ghost everything = texts(strings@);
    proof {
        assert(everything == all_strings(texts(official@), pool@));
        assert forall|t: Seq<char>| #[trigger] everything.contains(t) implies fits_record(t) by {
            let j = choose|j: int| 0 <= j < everything.len() && everything[j] == t;
            lemma_utf8_len_bound(t);
            lemma_pow64_values();
            if j < official@.len() {
                assert(t == official@[j]@);
            } else if j < official@.len() + 8 {
                let m = j - official@.len();
                assert(t == prose()[m]);
                reveal_strlit("Mr. Fox jumped. [...] The dog was too lazy.");
                reveal_strlit("The quick (\"brown\") fox can't jump 32.3 feet, right?");
                reveal_strlit("He said \"Stop!\" She didn't. 3.14 is pi; e.g. it's not 3,14.");
                reveal_strlit("etc.)' Hello? \u{2019}Tis true.\r\nNew line\u{2029}New paragraph");
                reveal_strlit("\u{915}\u{93f} \u{915}\u{94d}\u{937} \u{939}\u{93f}\u{928}\u{94d}\u{926}\u{940} \u{1f468}\u{200d}\u{1f469}\u{200d}\u{1f467} \u{1f1fa}\u{1f1f8}\u{1f1ec}\u{1f1e7} a\u{308}");
                reveal_strlit("\u{65e5}\u{672c}\u{8a9e}\u{306e}\u{30c6}\u{30ad}\u{30b9}\u{30c8}\u{3002}\u{30ab}\u{30bf}\u{30ab}\u{30ca}\u{3001}\u{3072}\u{3089}\u{304c}\u{306a}\u{3002}");
                reveal_strlit("\u{5e9}\u{5b8}\u{5c1}\u{5dc}\u{5d5}\u{5b9}\u{5dd} \"\u{5e2}\u{5d5}\u{5dc}\u{5dd}\" \u{5d4}'\u{5d2}");
                reveal_strlit("can't won\u{2019}t e.g. U.S.A. 1,000.5 $3 _foo_bar a_1");
            } else {
                let m = j - official@.len() - 8;
                assert(t == random_strings(SEED, pool@, RANDOM_STRINGS as nat).0[m]);
            }
        }
    }
    let sorted = sort_dedup_strings(strings);
    let ghost strs = texts(sorted@);
    let mut body = String::new();
    let mut j: usize = 0;
    while j < sorted.len()
        invariant
            0 <= j <= sorted@.len(),
            strs == texts(sorted@),
            forall|t: Seq<char>| #[trigger] strs.contains(t) <==> everything.contains(t),
            forall|t: Seq<char>| #[trigger] everything.contains(t) ==> fits_record(t),
            body@ == records(strs.take(j as int)),
        decreases sorted@.len() - j,
    {
        proof {
            assert(strs[j as int] == sorted@[j as int]@);
            assert(strs.contains(strs[j as int]));
            assert(strs.take(j + 1).drop_last() == strs.take(j as int));
        }
        record(&mut body, sorted[j].as_str());
        j += 1;
    }
    proof {
        assert(strs.take(j as int) == strs);
    }
    let mut out = String::new();
    push_str(&mut out, cases_intro_text());
    push_decimal(&mut out, sorted.len() as u64);
    push_str(&mut out, " in\n-- all, ");
    push_decimal(&mut out, official_count as u64);
    push_str(&mut out, " of them from the official Unicode test files.\n--\n");
    push_str(&mut out, header);
    push_str(&mut out, cases_layout_text());
    let lit = long_literal(body.as_str(), 96);
    push_str(&mut out, lit.as_str());
    push_char(&mut out, '\n');
    proof {
        lemma_sorted_texts(strs, everything);
        assert(out@ == cases_text(header@, strs, official@.len()));
    }
    out
}

proof fn lemma_random_chars_from_pool(state: u64, pool: Seq<char>, k: nat)
    requires
        pool.len() > 0,
    ensures
        random_chars(state, pool, k).0.len() == k,
        forall|i: int|
            0 <= i < k ==> pool.contains(#[trigger] random_chars(state, pool, k).0[i]),
    decreases k,
{
    if k > 0 {
        lemma_random_chars_from_pool(state, pool, (k - 1) as nat);
        let (prev, st) = random_chars(state, pool, (k - 1) as nat);
        let (n, st2) = draw(st, pool.len());
        let cur = random_chars(state, pool, k).0;
        assert(cur == prev.push(pool[n as int]));
        assert forall|i: int| 0 <= i < k implies pool.contains(#[trigger] cur[i]) by {
            if i < k - 1 {
                assert(cur[i] == prev[i]);
            } else {
                assert(cur[i] == pool[n as int]);
            }
        }
    }
}

proof fn lemma_random_strings_shape(state: u64, pool: Seq<char>, count: nat)
    requires
        pool.len() > 0,
    ensures
        random_strings(state, pool, count).0.len() == count,
        forall|j: int|
            0 <= j < count ==> 1 <= (#[trigger] random_strings(state, pool, count).0[j]).len() <= 10
                && forall|i: int|
                0 <= i < random_strings(state, pool, count).0[j].len() ==> pool.contains(
                    random_strings(state, pool, count).0[j][i],
                ),
    decreases count,
{
    if count > 0 {
        lemma_random_strings_shape(state, pool, (count - 1) as nat);
        let (prev, st) = random_strings(state, pool, (count - 1) as nat);
        let (l, st1) = draw(st, 10);
        lemma_random_chars_from_pool(st1, pool, l + 1);
        let cur = random_strings(state, pool, count).0;
        assert(cur == prev.push(random_string(st, pool).0));
        assert forall|j: int|
            0 <= j < count implies 1 <= (#[trigger] cur[j]).len() <= 10 && forall|i: int|
            0 <= i < cur[j].len() ==> pool.contains(cur[j][i]) by {
            if j < count - 1 {
                assert(cur[j] == prev[j]);
            } else {
                assert(cur[j] == random_chars(st1, pool, l + 1).0);
                assert forall|i: int| 0 <= i < cur[j].len() implies pool.contains(cur[j][i]) by {
                    assert(pool.contains(random_chars(st1, pool, l + 1).0[i]));
                }
            }
        }
    }
}

/// The strings of the cases file, in the order written: sorted in byte
/// order with no string twice and none lost, they are just the official
/// strings, the prose and the strings drawn at random; each drawn string
/// holds one to ten characters of the pool.
pub proof fn lemma_case_strings(official: Seq<Seq<char>>, pool: Seq<char>)
    requires
        pool.len() > 0,
    ensures
        strictly_sorted(sorted_texts(all_strings(official, pool))),
        forall|t: Seq<char>|
            #[trigger] sorted_texts(all_strings(official, pool)).contains(t) <==> all_strings(
                official,
                pool,
            ).contains(t),
        all_strings(official, pool) == official + prose() + random_strings(
            SEED,
            pool,
            RANDOM_STRINGS as nat,
        ).0,
        random_strings(SEED, pool, RANDOM_STRINGS as nat).0.len() == RANDOM_STRINGS,
        forall|j: int|
            0 <= j < RANDOM_STRINGS ==> 1 <= (#[trigger] random_strings(
                SEED,
                pool,
                RANDOM_STRINGS as nat,
            ).0[j]).len() <= 10 && forall|i: int|
                0 <= i < random_strings(SEED, pool, RANDOM_STRINGS as nat).0[j].len()
                    ==> pool.contains(random_strings(SEED, pool, RANDOM_STRINGS as nat).0[j][i]),
{
    lemma_sorted_texts_exist(all_strings(official, pool));
    lemma_random_strings_shape(SEED, pool, RANDOM_STRINGS as nat);
}

} // verus!
