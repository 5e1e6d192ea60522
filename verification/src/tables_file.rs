use vstd::prelude::*;
use vstd::laws_eq::obeys_concrete_eq;
use crate::category::{
    grapheme_cat, grapheme_value, grapheme_labels, grapheme_names, incb_linker, is_incb_linker,
    is_pictographic, name_listing, names, sentence_labels, sentence_names, word_labels, word_names,
    EmojiCat, GraphemeCat, SentenceCat, WordCat,
};
use crate::encoding::{decode64, lemma_pow64_values, lemma_range_table_read, lemma_value_table_read, range_records, range_runs_fit, range_table, value_records, value_runs_fit, value_table};
use crate::literal::{lemma_literal_roundtrip, literal, long_literal, read_literal};
use crate::pool::{grapheme_values, sentence_values, word_values};
use crate::runs::{covers, deterministic, lemma_maximal_runs, maximal_runs, runs_of, total, value_at, value_runs};
use crate::segment::unicode_version;
use crate::text::{decimal, push_char, push_decimal, push_str};

verus! {

broadcast use vstd::laws_eq::group_laws_eq;

/// The licence lines that head both generated files.
pub const HEADER: &'static str = "-- Copyright 2012-2025 The Rust Project Developers, and the Meadow port's\n-- authors. Dual-licensed under Apache-2.0 or MIT: see COPYRIGHT.";

/// The opening of the tables file, up to the licence lines.
pub open spec fn tables_intro() -> Seq<char> {
    "-- GENERATED by scripts/generate.sh from unicode-segmentation 1.13.3.\n-- Do not edit: run the script again instead.\n--\n-- Every table is a string of fixed-width records, each field written in the\n-- base-64 digits '0' ('0' + 0) to 'o' ('0' + 63), most significant first, and\n-- is read in place by `Lookup.mw`.\n--\n"@
}

fn tables_intro_text() -> (s: &'static str)
    ensures
        s@ == tables_intro(),
{
    "-- GENERATED by scripts/generate.sh from unicode-segmentation 1.13.3.\n-- Do not edit: run the script again instead.\n--\n-- Every table is a string of fixed-width records, each field written in the\n-- base-64 digits '0' ('0' + 0) to 'o' ('0' + 63), most significant first, and\n-- is read in place by `Lookup.mw`.\n--\n"
}

/// The definition of the Unicode version, up to its numbers.
pub open spec fn version_intro() -> Seq<char> {
    "\n\n-- The Unicode version the tables describe.\n@pub(pkg) def unicodeVersion = ("@
}

fn version_intro_text() -> (s: &'static str)
    ensures
        s@ == version_intro(),
{
    "\n\n-- The Unicode version the tables describe.\n@pub(pkg) def unicodeVersion = ("
}

/// The head of the tables file: the notice, the licence lines `header`
/// and the Unicode version.
pub open spec fn tables_head(header: Seq<char>, version: (u64, u64, u64)) -> Seq<char> {
    tables_intro() + header + version_intro() + decimal(version.0 as nat) + seq![',', ' ']
        + decimal(version.1 as nat) + seq![',', ' '] + decimal(version.2 as nat) + seq![')', '\n']
}

/// A definition of the tables file, after a blank line: its comment
/// `doc`, then `name` bound to `body` as one string literal broken every
/// 96 characters.
pub open spec fn definition(name: Seq<char>, doc: Seq<char>, body: Seq<char>) -> Seq<char> {
    seq!['\n'] + doc + "\n@pub(pkg) def "@ + name + " =\n  "@ + literal(body, 96) + seq!['\n']
}

/// The comment of a category table: what the categories are for, which
/// category the unlisted code points have (`Any`), and the listing of the
/// categories by number.
pub open spec fn category_doc(what: Seq<char>, listing: Seq<char>) -> Seq<char> {
    "-- Each code point's "@ + what
        + " category, as `lo hi` (4 digits each) and the\n-- category (1). Code points not listed are Any. The categories:\n--\n"@
        + listing
}

/// The comment of a range table of the code points that `what`.
pub open spec fn set_doc(what: Seq<char>) -> Seq<char> {
    "-- Code points that "@ + what + ": `lo hi`, 4 digits each."@
}

/// The name of the grapheme category table.
pub open spec fn grapheme_table_name() -> Seq<char> {
    "graphemeCats"@
}

/// The name of the word category table.
pub open spec fn word_table_name() -> Seq<char> {
    "wordCats"@
}

/// The name of the sentence category table.
pub open spec fn sentence_table_name() -> Seq<char> {
    "sentenceCats"@
}

/// What the grapheme categories break.
pub open spec fn grapheme_what() -> Seq<char> {
    "grapheme cluster break"@
}

/// What the word categories break.
pub open spec fn word_what() -> Seq<char> {
    "word break"@
}

/// What the sentence categories break.
pub open spec fn sentence_what() -> Seq<char> {
    "sentence break"@
}

/// The name of the Extended_Pictographic table.
pub open spec fn pictographic_name() -> Seq<char> {
    "extendedPictographic"@
}

/// The name of the Indic_Conjunct_Break=Linker table.
pub open spec fn linker_name() -> Seq<char> {
    "incbLinker"@
}

/// The name of the Indic_Conjunct_Break=Extend table.
pub open spec fn extend_name() -> Seq<char> {
    "incbExtend"@
}

/// The name of the table of letters and numbers.
pub open spec fn alphanumeric_name() -> Seq<char> {
    "alphanumeric"@
}

/// What the code points of the Extended_Pictographic table are.
pub open spec fn pictographic_what() -> Seq<char> {
    "are Extended_Pictographic"@
}

/// What the code points of the linker table are.
pub open spec fn linker_what() -> Seq<char> {
    "are Indic_Conjunct_Break=Linker"@
}

/// What the code points of the extend table are.
pub open spec fn extend_what() -> Seq<char> {
    "are Indic_Conjunct_Break=Extend"@
}

/// What the code points of the table of letters and numbers are: what
/// makes a segment a word or a sentence.
pub open spec fn alphanumeric_what() -> Seq<char> {
    "are Alphabetic or General_Category=Number: what makes a segment a\n-- word or a sentence"@
}

/// The whole tables file, given the runs of each property.
pub open spec fn tables_text(
    header: Seq<char>,
    version: (u64, u64, u64),
    grapheme_runs: Seq<(u32, u32, u8)>,
    word_runs: Seq<(u32, u32, u8)>,
    sentence_runs: Seq<(u32, u32, u8)>,
    pictographic_runs: Seq<(u32, u32, bool)>,
    linker_runs: Seq<(u32, u32, bool)>,
    extend_runs: Seq<(u32, u32, bool)>,
    alphanumeric_runs: Seq<(u32, u32, bool)>,
) -> Seq<char> {
    tables_head(header, version) + definition(
        grapheme_table_name(),
        category_doc(grapheme_what(), name_listing(grapheme_labels())),
        value_records(grapheme_runs),
    ) + definition(
        word_table_name(),
        category_doc(word_what(), name_listing(word_labels())),
        value_records(word_runs),
    ) + definition(
        sentence_table_name(),
        category_doc(sentence_what(), name_listing(sentence_labels())),
        value_records(sentence_runs),
    ) + definition(pictographic_name(), set_doc(pictographic_what()), range_records(pictographic_runs))
        + definition(linker_name(), set_doc(linker_what()), range_records(linker_runs)) + definition(
        extend_name(),
        set_doc(extend_what()),
        range_records(extend_runs),
    ) + definition(alphanumeric_name(), set_doc(alphanumeric_what()), range_records(alphanumeric_runs))
}

/// Extended_Pictographic, from the emoji categories `emoji`.
pub open spec fn pictographic_values<P: Fn(char) -> EmojiCat>(emoji: &P) -> spec_fn(char) -> bool {
    |c: char| value_at(emoji, c) == EmojiCat::ExtendedPictographic
}

/// Indic_Conjunct_Break=Linker.
pub open spec fn linker_flags() -> spec_fn(char) -> bool {
    |c: char| incb_linker(c)
}

/// A property given by `prop`.
pub open spec fn prop_values<P: Fn(char) -> bool>(prop: &P) -> spec_fn(char) -> bool {
    |c: char| value_at(prop, c)
}

/// Appends a definition of the tables file.
fn push_definition(out: &mut String, name: &str, doc: &str, body: &str)
    ensures
        final(out)@ == old(out)@ + definition(name@, doc@, body@),
{
    push_char(out, '\n');
    push_str(out, doc);
    push_str(out, "\n@pub(pkg) def ");
    push_str(out, name);
    push_str(out, " =\n  ");
    let lit = long_literal(body, 96);
    push_str(out, lit.as_str());
    push_char(out, '\n');
}

/// The comment of a category table.
fn category_doc_text(what: &str, listing: &str) -> (s: String)
    ensures
        s@ == category_doc(what@, listing@),
{
    let mut s = String::new();
    push_str(&mut s, "-- Each code point's ");
    push_str(&mut s, what);
    push_str(
        &mut s,
        " category, as `lo hi` (4 digits each) and the\n-- category (1). Code points not listed are Any. The categories:\n--\n",
    );
    push_str(&mut s, listing);
    s
}

/// The comment of a range table.
fn set_doc_text(what: &str) -> (s: String)
    ensures
        s@ == set_doc(what@),
{
    let mut s = String::new();
    push_str(&mut s, "-- Code points that ");
    push_str(&mut s, what);
    push_str(&mut s, ": `lo hi`, 4 digits each.");
    s
}

/// Appends the definition of a category table.
fn push_category_table(out: &mut String, name: &str, what: &str, labels: &[&str], runs: &[(u32, u32, u8)])
    requires
        value_runs_fit(runs@),
    ensures
        final(out)@ == old(out)@ + definition(
            name@,
            category_doc(what@, name_listing(labels@.map_values(|s: &str| s@))),
            value_records(runs@),
        ),
{
    let listing = names(labels);
    let doc = category_doc_text(what, listing.as_str());
    let body = value_table(runs);
    push_definition(out, name, doc.as_str(), body.as_str());
}

/// Appends the definition of a range table.
fn push_set_table(out: &mut String, name: &str, what: &str, runs: &[(u32, u32, bool)])
    requires
        range_runs_fit(runs@),
    ensures
        final(out)@ == old(out)@ + definition(name@, set_doc(what@), range_records(runs@)),
{
    let doc = set_doc_text(what);
    let body = range_table(runs);
    push_definition(out, name, doc.as_str(), body.as_str());
}

/// Runs of a category whose numbers are below 64 fit their records.
proof fn lemma_category_runs_fit(runs: Seq<(u32, u32, u8)>, val: spec_fn(char) -> u8, skip: u8)
    requires
        runs_of(runs, val, skip),
        forall|c: char| (#[trigger] val(c)) < 64,
    ensures
        value_runs_fit(runs),
{
    lemma_pow64_values();
    assert forall|i: int| 0 <= i < runs.len() implies (#[trigger] runs[i]).0 < crate::encoding::pow64(4)
        && runs[i].1 < crate::encoding::pow64(4) && runs[i].2 < 64 by {
        let lo = runs[i].0;
        let c = lo as char;
        assert(c as u32 == lo);
        assert(covers(runs[i], c));
        assert(val(c) == runs[i].2);
    }
}

/// Runs of a property fit their records.
proof fn lemma_set_runs_fit(runs: Seq<(u32, u32, bool)>, val: spec_fn(char) -> bool)
    requires
        runs_of(runs, val, false),
    ensures
        range_runs_fit(runs),
{
    lemma_pow64_values();
    assert forall|i: int| 0 <= i < runs.len() implies (#[trigger] runs[i]).0 < crate::encoding::pow64(4)
        && runs[i].1 < crate::encoding::pow64(4) by {}
}

/// The maximal runs of the grapheme categories.
fn grapheme_runs<G: Fn(char) -> GraphemeCat>(grapheme: &G) -> (r: Vec<(u32, u32, u8)>)
    requires
        total(grapheme),
        deterministic(grapheme),
    ensures
        r@ == maximal_runs(grapheme_values(grapheme), 0u8),
        runs_of(r@, grapheme_values(grapheme), 0u8),
        value_runs_fit(r@),
{
    let g = |c: char| -> (r: u8)
        requires
            grapheme.requires((c,)),
            deterministic(grapheme),
        ensures
            r == grapheme_value(c, value_at(grapheme, c)),
        {
            let t = grapheme(c);
            grapheme_cat(c, t)
        };
    proof {
        assert(obeys_concrete_eq::<u8>());
    }
    let r = value_runs(g, 0u8);
    proof {
        assert((|c: char| value_at(g, c)) =~= grapheme_values(grapheme));
        lemma_category_runs_fit(r@, grapheme_values(grapheme), 0u8);
        lemma_maximal_runs(r@, grapheme_values(grapheme), 0u8);
    }
    r
}

/// The maximal runs of the word categories.
fn word_runs<W: Fn(char) -> WordCat>(word: &W) -> (r: Vec<(u32, u32, u8)>)
    requires
        total(word),
        deterministic(word),
    ensures
        r@ == maximal_runs(word_values(word), 1u8),
        runs_of(r@, word_values(word), 1u8),
        value_runs_fit(r@),
{
    let w = |c: char| -> (r: u8)
        requires
            word.requires((c,)),
            deterministic(word),
        ensures
            r == value_at(word, c).number(),
        {
            let t = word(c);
            t.index()
        };
    proof {
        assert(obeys_concrete_eq::<u8>());
    }
    let r = value_runs(w, 1u8);
    proof {
        assert((|c: char| value_at(w, c)) =~= word_values(word));
        lemma_category_runs_fit(r@, word_values(word), 1u8);
        lemma_maximal_runs(r@, word_values(word), 1u8);
    }
    r
}

/// The maximal runs of the sentence categories.
fn sentence_runs<S: Fn(char) -> SentenceCat>(sentence: &S) -> (r: Vec<(u32, u32, u8)>)
    requires
        total(sentence),
        deterministic(sentence),
    ensures
        r@ == maximal_runs(sentence_values(sentence), 1u8),
        runs_of(r@, sentence_values(sentence), 1u8),
        value_runs_fit(r@),
{
    let s = |c: char| -> (r: u8)
        requires
            sentence.requires((c,)),
            deterministic(sentence),
        ensures
            r == value_at(sentence, c).number(),
        {
            let t = sentence(c);
            t.index()
        };
    proof {
        assert(obeys_concrete_eq::<u8>());
    }
    let r = value_runs(s, 1u8);
    proof {
        assert((|c: char| value_at(s, c)) =~= sentence_values(sentence));
        lemma_category_runs_fit(r@, sentence_values(sentence), 1u8);
        lemma_maximal_runs(r@, sentence_values(sentence), 1u8);
    }
    r
}

/// The maximal runs of Extended_Pictographic.
fn pictographic_runs<P: Fn(char) -> EmojiCat>(emoji: &P) -> (r: Vec<(u32, u32, bool)>)
    requires
        total(emoji),
        deterministic(emoji),
    ensures
        r@ == maximal_runs(pictographic_values(emoji), false),
        runs_of(r@, pictographic_values(emoji), false),
        range_runs_fit(r@),
{
    let p = |c: char| -> (r: bool)
        requires
            emoji.requires((c,)),
            deterministic(emoji),
        ensures
            r == (value_at(emoji, c) == EmojiCat::ExtendedPictographic),
        {
            let t = emoji(c);
            is_pictographic(t)
        };
    proof {
        assert(obeys_concrete_eq::<bool>());
    }
    let r = value_runs(p, false);
    proof {
        assert((|c: char| value_at(p, c)) =~= pictographic_values(emoji));
        lemma_set_runs_fit(r@, pictographic_values(emoji));
        lemma_maximal_runs(r@, pictographic_values(emoji), false);
    }
    r
}

/// The maximal runs of Indic_Conjunct_Break=Linker.
fn linker_runs() -> (r: Vec<(u32, u32, bool)>)
    ensures
        r@ == maximal_runs(linker_flags(), false),
        runs_of(r@, linker_flags(), false),
        range_runs_fit(r@),
{
    let l = |c: char| -> (r: bool)
        ensures
            r == incb_linker(c),
        {
            is_incb_linker(c)
        };
    proof {
        assert(obeys_concrete_eq::<bool>());
    }
    let r = value_runs(l, false);
    proof {
        assert((|c: char| value_at(l, c)) =~= linker_flags());
        lemma_set_runs_fit(r@, linker_flags());
        lemma_maximal_runs(r@, linker_flags(), false);
    }
    r
}

/// The maximal runs of the property `prop`.
fn property_runs<E: Fn(char) -> bool>(prop: &E) -> (r: Vec<(u32, u32, bool)>)
    requires
        total(prop),
        deterministic(prop),
    ensures
        r@ == maximal_runs(prop_values(prop), false),
        runs_of(r@, prop_values(prop), false),
        range_runs_fit(r@),
{
    proof {
        assert(obeys_concrete_eq::<bool>());
    }
    let r = value_runs(prop, false);
    proof {
        assert((|c: char| value_at(prop, c)) =~= prop_values(prop));
        lemma_set_runs_fit(r@, prop_values(prop));
        lemma_maximal_runs(r@, prop_values(prop), false);
    }
    r
}

/// The tables file: the break category of every code point for graphemes,
/// words and sentences, and the other properties the rules consult, as
/// sorted runs in string literals. `header` is the licence lines;
/// `grapheme`, `word`, `sentence` and `emoji` give each character's
/// category in the property tables, `incb_extend` and `alphanumeric`
/// whether it has those properties.
pub fn tables<G: Fn(char) -> GraphemeCat, W: Fn(char) -> WordCat, S: Fn(char) -> SentenceCat, P: Fn(char) -> EmojiCat, E: Fn(char) -> bool, A: Fn(char) -> bool>(
    header: &str,
    grapheme: &G,
    word: &W,
    sentence: &S,
    emoji: &P,
    incb_extend: &E,
    alphanumeric: &A,
) -> (out: String)
    requires
        total(grapheme),
        deterministic(grapheme),
        total(word),
        deterministic(word),
        total(sentence),
        deterministic(sentence),
        total(emoji),
        deterministic(emoji),
        total(incb_extend),
        deterministic(incb_extend),
        total(alphanumeric),
        deterministic(alphanumeric),
    ensures
        out@ == tables_text(
            header@,
            (17u64, 0u64, 0u64),
            maximal_runs(grapheme_values(grapheme), 0u8),
            maximal_runs(word_values(word), 1u8),
            maximal_runs(sentence_values(sentence), 1u8),
            maximal_runs(pictographic_values(emoji), false),
            maximal_runs(linker_flags(), false),
            maximal_runs(prop_values(incb_extend), false),
            maximal_runs(prop_values(alphanumeric), false),
        ),
        runs_of(maximal_runs(grapheme_values(grapheme), 0u8), grapheme_values(grapheme), 0u8),
        runs_of(maximal_runs(word_values(word), 1u8), word_values(word), 1u8),
        runs_of(maximal_runs(sentence_values(sentence), 1u8), sentence_values(sentence), 1u8),
        runs_of(maximal_runs(pictographic_values(emoji), false), pictographic_values(emoji), false),
        runs_of(maximal_runs(linker_flags(), false), linker_flags(), false),
        runs_of(maximal_runs(prop_values(incb_extend), false), prop_values(incb_extend), false),
        runs_of(maximal_runs(prop_values(alphanumeric), false), prop_values(alphanumeric), false),
        defines_category_table(out@, "graphemeCats"@, grapheme_values(grapheme), 0u8),
        defines_category_table(out@, "wordCats"@, word_values(word), 1u8),
        defines_category_table(out@, "sentenceCats"@, sentence_values(sentence), 1u8),
        defines_property_table(out@, "extendedPictographic"@, pictographic_values(emoji)),
        defines_property_table(out@, "incbLinker"@, linker_flags()),
        defines_property_table(out@, "incbExtend"@, prop_values(incb_extend)),
        defines_property_table(out@, "alphanumeric"@, prop_values(alphanumeric)),
{
    let version = unicode_version();
    let mut out = String::new();
    push_str(&mut out, tables_intro_text());
    push_str(&mut out, header);
    push_str(&mut out, version_intro_text());
    push_decimal(&mut out, version.0);
    push_char(&mut out, ',');
    push_char(&mut out, ' ');
    push_decimal(&mut out, version.1);
    push_char(&mut out, ',');
    push_char(&mut out, ' ');
    push_decimal(&mut out, version.2);
    push_char(&mut out, ')');
    push_char(&mut out, '\n');
    let ghost head = out@;
    proof {
        assert(head == tables_head(header@, version));
    }
    let rg = grapheme_runs(grapheme);
    let labels = grapheme_names();
    push_category_table(&mut out, "graphemeCats", "grapheme cluster break", labels.as_slice(), rg.as_slice());
    let ghost after_g = out@;
    let rw = word_runs(word);
    let labels = word_names();
    push_category_table(&mut out, "wordCats", "word break", labels.as_slice(), rw.as_slice());
    let ghost after_w = out@;
    let rs = sentence_runs(sentence);
    let labels = sentence_names();
    push_category_table(&mut out, "sentenceCats", "sentence break", labels.as_slice(), rs.as_slice());
    let ghost after_s = out@;
    let rp = pictographic_runs(emoji);
    push_set_table(&mut out, "extendedPictographic", "are Extended_Pictographic", rp.as_slice());
    let ghost after_p = out@;
    let rl = linker_runs();
    push_set_table(&mut out, "incbLinker", "are Indic_Conjunct_Break=Linker", rl.as_slice());
    let ghost after_l = out@;
    let re = property_runs(incb_extend);
    push_set_table(&mut out, "incbExtend", "are Indic_Conjunct_Break=Extend", re.as_slice());
    let ghost after_e = out@;
    let ra = property_runs(alphanumeric);
    push_set_table(
        &mut out,
        "alphanumeric",
        "are Alphabetic or General_Category=Number: what makes a segment a\n-- word or a sentence",
        ra.as_slice(),
    );
    proof {
        lemma_tables_defined(
            out@,
            header@,
            version,
            rg@,
            rw@,
            rs@,
            rp@,
            rl@,
            re@,
            ra@,
            grapheme_values(grapheme),
            word_values(word),
            sentence_values(sentence),
            pictographic_values(emoji),
            linker_flags(),
            prop_values(incb_extend),
            prop_values(alphanumeric),
        );
    }
    out
}

/// The `lo` of record `i` of a table of records `width` digits long.
pub open spec fn record_lo(body: Seq<char>, i: int, width: int) -> int {
    decode64(body.subrange(width * i, width * i + 4))
}

/// The `hi` of record `i` of a table of records `width` digits long.
pub open spec fn record_hi(body: Seq<char>, i: int, width: int) -> int {
    decode64(body.subrange(width * i + 4, width * i + 8))
}

/// The category of record `i` of a category table.
pub open spec fn record_value(body: Seq<char>, i: int) -> int {
    decode64(body.subrange(9 * i + 8, 9 * i + 9))
}

/// Whether `body` reads as a category table for `val`: whole records of
/// nine digits, sorted and apart, a character lying in some record exactly
/// when its category is not `skip`, and every record that holds it giving
/// its category.
pub open spec fn category_lookup(body: Seq<char>, val: spec_fn(char) -> u8, skip: u8) -> bool {
    let n = body.len() / 9;
    &&& body.len() == 9 * n
    &&& forall|i: int| 0 <= i < n ==> #[trigger] record_lo(body, i, 9) <= record_hi(body, i, 9)
    &&& forall|i: int, j: int|
        0 <= i < j < n ==> #[trigger] record_hi(body, i, 9) < #[trigger] record_lo(body, j, 9)
    &&& forall|c: char|
        #[trigger] val(c) != skip <==> exists|i: int|
            0 <= i < n && #[trigger] record_lo(body, i, 9) <= c as u32 <= record_hi(body, i, 9)
    &&& forall|i: int, c: char|
        #![trigger record_lo(body, i, 9), val(c)]
        0 <= i < n && record_lo(body, i, 9) <= c as u32 <= record_hi(body, i, 9) ==> record_value(body, i) == val(c)
}

/// Whether `body` reads as a range table of the characters that have
/// `val`: whole records of eight digits, sorted and apart, a character
/// lying in some record exactly when it has the property.
pub open spec fn property_lookup(body: Seq<char>, val: spec_fn(char) -> bool) -> bool {
    let n = body.len() / 8;
    &&& body.len() == 8 * n
    &&& forall|i: int| 0 <= i < n ==> #[trigger] record_lo(body, i, 8) <= record_hi(body, i, 8)
    &&& forall|i: int, j: int|
        0 <= i < j < n ==> #[trigger] record_hi(body, i, 8) < #[trigger] record_lo(body, j, 8)
    &&& forall|c: char|
        #[trigger] val(c) <==> exists|i: int|
            0 <= i < n && #[trigger] record_lo(body, i, 8) <= c as u32 <= record_hi(body, i, 8)
}

/// Whether `text` binds `name` to the string literal of `body`, broken
/// every 96 characters.
pub open spec fn binds(text: Seq<char>, name: Seq<char>, body: Seq<char>) -> bool {
    exists|before: Seq<char>, after: Seq<char>|
        #[trigger] (before + "\n@pub(pkg) def "@ + name + " =\n  "@ + literal(body, 96) + after) == text
}

/// Whether `text` defines `name` as a category table for `val`, the
/// characters not listed having category `skip`.
pub open spec fn defines_category_table(text: Seq<char>, name: Seq<char>, val: spec_fn(char) -> u8, skip: u8) -> bool {
    exists|body: Seq<char>|
        #[trigger] binds(text, name, body) && read_literal(literal(body, 96)) == Some(body)
            && category_lookup(body, val, skip)
}

/// Whether `text` defines `name` as a range table of the characters that
/// have `val`.
pub open spec fn defines_property_table(text: Seq<char>, name: Seq<char>, val: spec_fn(char) -> bool) -> bool {
    exists|body: Seq<char>|
        #[trigger] binds(text, name, body) && read_literal(literal(body, 96)) == Some(body)
            && property_lookup(body, val)
}

/// A definition in a text binds its name to its body.
proof fn lemma_binds(text: Seq<char>, before: Seq<char>, name: Seq<char>, doc: Seq<char>, body: Seq<char>, after: Seq<char>)
    requires
        text == before + definition(name, doc, body) + after,
    ensures
        binds(text, name, body),
{
    let b = before + seq!['\n'] + doc;
    let a = seq!['\n'] + after;
    assert(b + "\n@pub(pkg) def "@ + name + " =\n  "@ + literal(body, 96) + a =~= text);
}

/// A category table written from the runs of `val` defines it.
proof fn lemma_defines_category(text: Seq<char>, before: Seq<char>, name: Seq<char>, doc: Seq<char>, runs: Seq<(u32, u32, u8)>, after: Seq<char>, val: spec_fn(char) -> u8, skip: u8)
    requires
        text == before + definition(name, doc, value_records(runs)) + after,
        runs_of(runs, val, skip),
        forall|c: char| (#[trigger] val(c)) < 64,
    ensures
        defines_category_table(text, name, val, skip),
{
    let body = value_records(runs);
    lemma_binds(text, before, name, doc, body, after);
    lemma_category_table_lookup(runs, val, skip);
    assert(body.len() / 9 == runs.len());
    assert(category_lookup(body, val, skip));
    assert(binds(text, name, body) && read_literal(literal(body, 96)) == Some(body) && category_lookup(body, val, skip));
}

/// A range table written from the runs of `val` defines it.
proof fn lemma_defines_property(text: Seq<char>, before: Seq<char>, name: Seq<char>, doc: Seq<char>, runs: Seq<(u32, u32, bool)>, after: Seq<char>, val: spec_fn(char) -> bool)
    requires
        text == before + definition(name, doc, range_records(runs)) + after,
        runs_of(runs, val, false),
    ensures
        defines_property_table(text, name, val),
{
    let body = range_records(runs);
    lemma_binds(text, before, name, doc, body, after);
    lemma_property_table_lookup(runs, val);
    assert(body.len() / 8 == runs.len());
    assert(property_lookup(body, val));
    assert(binds(text, name, body) && read_literal(literal(body, 96)) == Some(body) && property_lookup(body, val));
}

/// The tables file defines each of its tables under its name, and each
/// reads back as what it was written from: the grapheme, word and sentence
/// categories, Extended_Pictographic, Indic_Conjunct_Break=Linker,
/// Indic_Conjunct_Break=Extend and the letters and numbers.
pub proof fn lemma_tables_defined(
    text: Seq<char>,
    header: Seq<char>,
    version: (u64, u64, u64),
    grapheme_runs: Seq<(u32, u32, u8)>,
    word_runs: Seq<(u32, u32, u8)>,
    sentence_runs: Seq<(u32, u32, u8)>,
    pictographic_runs: Seq<(u32, u32, bool)>,
    linker_runs: Seq<(u32, u32, bool)>,
    extend_runs: Seq<(u32, u32, bool)>,
    alphanumeric_runs: Seq<(u32, u32, bool)>,
    graphemes: spec_fn(char) -> u8,
    words: spec_fn(char) -> u8,
    sentences: spec_fn(char) -> u8,
    pictographic: spec_fn(char) -> bool,
    linker: spec_fn(char) -> bool,
    extend: spec_fn(char) -> bool,
    alphanumeric: spec_fn(char) -> bool,
)
    requires
        text == tables_text(
            header,
            version,
            grapheme_runs,
            word_runs,
            sentence_runs,
            pictographic_runs,
            linker_runs,
            extend_runs,
            alphanumeric_runs,
        ),
        runs_of(grapheme_runs, graphemes, 0u8),
        runs_of(word_runs, words, 1u8),
        runs_of(sentence_runs, sentences, 1u8),
        forall|c: char| (#[trigger] graphemes(c)) < 64,
        forall|c: char| (#[trigger] words(c)) < 64,
        forall|c: char| (#[trigger] sentences(c)) < 64,
        runs_of(pictographic_runs, pictographic, false),
        runs_of(linker_runs, linker, false),
        runs_of(extend_runs, extend, false),
        runs_of(alphanumeric_runs, alphanumeric, false),
    ensures
        defines_category_table(text, "graphemeCats"@, graphemes, 0u8),
        defines_category_table(text, "wordCats"@, words, 1u8),
        defines_category_table(text, "sentenceCats"@, sentences, 1u8),
        defines_property_table(text, "extendedPictographic"@, pictographic),
        defines_property_table(text, "incbLinker"@, linker),
        defines_property_table(text, "incbExtend"@, extend),
        defines_property_table(text, "alphanumeric"@, alphanumeric),
{
    let h = tables_head(header, version);
    let dg = definition(
        grapheme_table_name(),
        category_doc(grapheme_what(), name_listing(grapheme_labels())),
        value_records(grapheme_runs),
    );
    let dw = definition(
        word_table_name(),
        category_doc(word_what(), name_listing(word_labels())),
        value_records(word_runs),
    );
    let ds = definition(
        sentence_table_name(),
        category_doc(sentence_what(), name_listing(sentence_labels())),
        value_records(sentence_runs),
    );
    let dp = definition(pictographic_name(), set_doc(pictographic_what()), range_records(pictographic_runs));
    let dl = definition(linker_name(), set_doc(linker_what()), range_records(linker_runs));
    let de = definition(extend_name(), set_doc(extend_what()), range_records(extend_runs));
    let da = definition(alphanumeric_name(), set_doc(alphanumeric_what()), range_records(alphanumeric_runs));
    assert(text == h + dg + dw + ds + dp + dl + de + da);
    assert(text =~= h + dg + (dw + ds + dp + dl + de + da));
    lemma_defines_category(text, h, grapheme_table_name(), category_doc(grapheme_what(), name_listing(grapheme_labels())), grapheme_runs, dw + ds + dp + dl + de + da, graphemes, 0u8);
    assert(text =~= h + dg + dw + (ds + dp + dl + de + da));
    lemma_defines_category(text, h + dg, word_table_name(), category_doc(word_what(), name_listing(word_labels())), word_runs, ds + dp + dl + de + da, words, 1u8);
    assert(text =~= h + dg + dw + ds + (dp + dl + de + da));
    lemma_defines_category(text, h + dg + dw, sentence_table_name(), category_doc(sentence_what(), name_listing(sentence_labels())), sentence_runs, dp + dl + de + da, sentences, 1u8);
    assert(text =~= h + dg + dw + ds + dp + (dl + de + da));
    lemma_defines_property(text, h + dg + dw + ds, pictographic_name(), set_doc(pictographic_what()), pictographic_runs, dl + de + da, pictographic);
    assert(text =~= h + dg + dw + ds + dp + dl + (de + da));
    lemma_defines_property(text, h + dg + dw + ds + dp, linker_name(), set_doc(linker_what()), linker_runs, de + da, linker);
    lemma_defines_property(text, h + dg + dw + ds + dp + dl, extend_name(), set_doc(extend_what()), extend_runs, da, extend);
    assert(text =~= text + seq![]);
    lemma_defines_property(text, h + dg + dw + ds + dp + dl + de, alphanumeric_name(), set_doc(alphanumeric_what()), alphanumeric_runs, seq![], alphanumeric);
}

/// A category table, read back: the literal reads as its records, nine
/// digits each (`lo` in four, `hi` in four, the category in one); the
/// records are sorted and apart; a character lies in some record exactly
/// when its category is not `skip`, and every record that holds it gives
/// its category.
pub proof fn lemma_category_table_lookup(runs: Seq<(u32, u32, u8)>, val: spec_fn(char) -> u8, skip: u8)
    requires
        runs_of(runs, val, skip),
        forall|c: char| (#[trigger] val(c)) < 64,
    ensures
        read_literal(literal(value_records(runs), 96)) == Some(value_records(runs)),
        value_records(runs).len() == 9 * runs.len(),
        forall|i: int|
            0 <= i < runs.len() ==> #[trigger] record_lo(value_records(runs), i, 9) <= record_hi(value_records(runs), i, 9),
        forall|i: int, j: int|
            0 <= i < j < runs.len() ==> #[trigger] record_hi(value_records(runs), i, 9) < #[trigger] record_lo(value_records(runs), j, 9),
        forall|c: char|
            #[trigger] val(c) != skip <==> exists|i: int|
                0 <= i < runs.len() && #[trigger] record_lo(value_records(runs), i, 9) <= c as u32 <= record_hi(value_records(runs), i, 9),
        forall|i: int, c: char|
            #![trigger record_lo(value_records(runs), i, 9), val(c)]
            0 <= i < runs.len() && record_lo(value_records(runs), i, 9) <= c as u32 <= record_hi(value_records(runs), i, 9) ==> record_value(value_records(runs), i) == val(c),
{
    let body = value_records(runs);
    lemma_literal_roundtrip(body, 96);
    lemma_category_runs_fit(runs, val, skip);
    crate::encoding::lemma_value_records_len(runs);
    assert forall|i: int| #![trigger record_lo(body, i, 9)] #![trigger record_hi(body, i, 9)] #![trigger record_value(body, i)] 0 <= i < runs.len() implies record_lo(body, i, 9) == runs[i].0 && record_hi(body, i, 9) == runs[i].1 && record_value(body, i) == runs[i].2 by {
        lemma_value_table_read(runs, i);
    }
    assert forall|i: int| 0 <= i < runs.len() implies record_lo(body, i, 9) <= record_hi(body, i, 9) by {
        assert(record_lo(body, i, 9) == runs[i].0);
    }
    assert forall|i: int, j: int| 0 <= i < j < runs.len() implies record_hi(body, i, 9) < record_lo(body, j, 9) by {
        assert(record_hi(body, i, 9) == runs[i].1);
        assert(record_lo(body, j, 9) == runs[j].0);
        assert(runs[i].1 < runs[j].0);
    }
    assert forall|c: char|
        #[trigger] val(c) != skip <==> exists|i: int|
            0 <= i < runs.len() && #[trigger] record_lo(body, i, 9) <= c as u32 <= record_hi(body, i, 9) by {
        vstd::utf8::char_is_scalar(c);
        if val(c) != skip {
            let i = choose|i: int| 0 <= i < runs.len() && #[trigger] covers(runs[i], c);
            assert(record_lo(body, i, 9) == runs[i].0);
            assert(record_hi(body, i, 9) == runs[i].1);
            assert(covers(runs[i], c));
            assert(record_lo(body, i, 9) <= c as u32 <= record_hi(body, i, 9));
        }
        if exists|i: int|
            0 <= i < runs.len() && #[trigger] record_lo(body, i, 9) <= c as u32 <= record_hi(body, i, 9) {
            let i = choose|i: int|
                0 <= i < runs.len() && #[trigger] record_lo(body, i, 9) <= c as u32 <= record_hi(body, i, 9);
            assert(record_lo(body, i, 9) == runs[i].0);
            assert(record_hi(body, i, 9) == runs[i].1);
            assert(covers(runs[i], c));
            assert(val(c) == runs[i].2);
        }
    }
    assert forall|i: int, c: char|
        0 <= i < runs.len() && #[trigger] record_lo(body, i, 9) <= c as u32 <= record_hi(body, i, 9) implies record_value(body, i) == #[trigger] val(c) by {
        assert(record_lo(body, i, 9) == runs[i].0);
        assert(covers(runs[i], c));
    }
}

/// A property table, read back: the literal reads as its records, eight
/// digits each (`lo` in four, `hi` in four); the records are sorted and
/// apart; a character lies in some record exactly when it has the
/// property.
pub proof fn lemma_property_table_lookup(runs: Seq<(u32, u32, bool)>, val: spec_fn(char) -> bool)
    requires
        runs_of(runs, val, false),
    ensures
        read_literal(literal(range_records(runs), 96)) == Some(range_records(runs)),
        range_records(runs).len() == 8 * runs.len(),
        forall|i: int|
            0 <= i < runs.len() ==> #[trigger] record_lo(range_records(runs), i, 8) <= record_hi(range_records(runs), i, 8),
        forall|i: int, j: int|
            0 <= i < j < runs.len() ==> #[trigger] record_hi(range_records(runs), i, 8) < #[trigger] record_lo(range_records(runs), j, 8),
        forall|c: char|
            #[trigger] val(c) <==> exists|i: int|
                0 <= i < runs.len() && #[trigger] record_lo(range_records(runs), i, 8) <= c as u32 <= record_hi(range_records(runs), i, 8),
{
    let body = range_records(runs);
    lemma_literal_roundtrip(body, 96);
    lemma_set_runs_fit(runs, val);
    crate::encoding::lemma_range_records_len(runs);
    assert forall|i: int| #![trigger record_lo(body, i, 8)] #![trigger record_hi(body, i, 8)] 0 <= i < runs.len() implies record_lo(body, i, 8) == runs[i].0 && record_hi(body, i, 8) == runs[i].1 by {
        lemma_range_table_read(runs, i);
    }
    assert forall|i: int| 0 <= i < runs.len() implies record_lo(body, i, 8) <= record_hi(body, i, 8) by {
        assert(record_lo(body, i, 8) == runs[i].0);
    }
    assert forall|i: int, j: int| 0 <= i < j < runs.len() implies record_hi(body, i, 8) < record_lo(body, j, 8) by {
        assert(record_hi(body, i, 8) == runs[i].1);
        assert(record_lo(body, j, 8) == runs[j].0);
        assert(runs[i].1 < runs[j].0);
    }
    assert forall|c: char|
        #[trigger] val(c) <==> exists|i: int|
            0 <= i < runs.len() && #[trigger] record_lo(body, i, 8) <= c as u32 <= record_hi(body, i, 8) by {
        vstd::utf8::char_is_scalar(c);
        if val(c) {
            let i = choose|i: int| 0 <= i < runs.len() && #[trigger] covers(runs[i], c);
            assert(record_lo(body, i, 8) == runs[i].0);
            assert(record_hi(body, i, 8) == runs[i].1);
            assert(covers(runs[i], c));
            assert(record_lo(body, i, 8) <= c as u32 <= record_hi(body, i, 8));
        }
        if exists|i: int|
            0 <= i < runs.len() && #[trigger] record_lo(body, i, 8) <= c as u32 <= record_hi(body, i, 8) {
            let i = choose|i: int|
                0 <= i < runs.len() && #[trigger] record_lo(body, i, 8) <= c as u32 <= record_hi(body, i, 8);
            assert(record_lo(body, i, 8) == runs[i].0);
            assert(record_hi(body, i, 8) == runs[i].1);
            assert(covers(runs[i], c));
            assert(val(c) == runs[i].2);
            assert(val(c) == runs[i].2);
        }
    }
}

} // verus!
