use segtables::cases::{cases, record};
use segtables::category::{
    grapheme_cat, grapheme_names, is_incb_linker, is_pictographic, names, sentence_cat,
    sentence_names, word_cat, word_names, EmojiCat, GraphemeCat, SentenceCat, WordCat,
};
use segtables::order::{bytes_less, sort_dedup_strings};
use segtables::pool::{interesting, sample_by};
use segtables::rng::Rng;
use segtables::runs::value_runs;
use segtables::segment::{aligned_spans, ends, spans};
use segtables::tables_file::{tables, HEADER};

fn decode(s: &[char]) -> usize {
    s.iter().fold(0, |acc, &c| acc * 64 + (c as usize - '0' as usize))
}

/// Splits a record into its length, its text and its six lists.
fn parse_record(rec: &str) -> (String, Vec<Vec<usize>>) {
    let chars: Vec<char> = rec.chars().collect();
    let len = decode(&chars[0..3]);
    let text: String = chars[3..].iter().collect();
    let mut i = 3;
    let mut taken = 0;
    let mut body = String::new();
    while taken < len {
        let c = chars[i];
        body.push(c);
        taken += c.len_utf8();
        i += 1;
    }
    let _ = text;
    let mut lists = Vec::new();
    for width in [1, 1, 1, 2, 1, 2] {
        let n = decode(&chars[i..i + 3]);
        i += 3;
        let mut items = Vec::new();
        for _ in 0..n * width {
            items.push(decode(&chars[i..i + 3]));
            i += 3;
        }
        lists.push(items);
    }
    assert_eq!(i, chars.len());
    (body, lists)
}

#[test]
fn runs_are_maximal() {
    let f = |c: char| -> u8 {
        if ('a'..='c').contains(&c) {
            1
        } else if c == 'x' {
            2
        } else if c == 'y' {
            2
        } else {
            0
        }
    };
    assert_eq!(value_runs(f, 0u8), vec![(97, 99, 1), (120, 121, 2)]);
}

#[test]
fn runs_jump_the_surrogates() {
    let f = |c: char| (0xD700..=0xE0FF).contains(&(c as u32));
    assert_eq!(value_runs(f, false), vec![(0xD700, 0xE0FF, true)]);
    let g = |c: char| -> u8 { if c as u32 == 0xD7FF { 1 } else if c as u32 == 0xE000 { 2 } else { 0 } };
    assert_eq!(value_runs(g, 0u8), vec![(0xD7FF, 0xD7FF, 1), (0xE000, 0xE000, 2)]);
}

#[test]
fn runs_of_nothing_and_everything() {
    assert_eq!(value_runs(|_c: char| 5u8, 5u8), vec![]);
    assert_eq!(value_runs(|_c: char| 5u8, 0u8), vec![(0, 0x10FFFF, 5)]);
}

#[test]
fn rng_is_xorshift_star() {
    let mut rng = Rng(0x5eed_5e9e_c0ff_ee42);
    assert_eq!(rng.next(), 3875694703157707422);
    assert_eq!(rng.0, 0xc8ba_9791_4641_10b6);
    assert_eq!(rng.below(10), 5);
    assert_eq!(rng.0, 0xb8c8_b6c6_6843_ae89);
    let mut one = Rng(1);
    assert_eq!(one.below(7), 5);
    assert_eq!(one.0, 0x200_0001);
    assert_ne!(one.0, 0);
}

#[test]
fn category_numbers_follow_declaration_order() {
    assert_eq!(GraphemeCat::Zwj.index(), 15);
    assert_eq!(WordCat::Zwj.index(), 18);
    assert_eq!(SentenceCat::Upper.index(), 14);
    assert_eq!(grapheme_names().len(), 16);
    assert_eq!(word_names().len(), 19);
    assert_eq!(sentence_names().len(), 15);
    assert_eq!(grapheme_names()[7], "GC_LF");
    assert_eq!(WordCat::Any.name(), "WC_Any");
    assert_eq!(word_cat(WordCat::Numeric), 14);
    assert_eq!(sentence_cat(SentenceCat::Any), 1);
}

#[test]
fn ascii_grapheme_categories_are_decided_by_hand() {
    assert_eq!(grapheme_cat('\n', GraphemeCat::Any), 7);
    assert_eq!(grapheme_cat('\r', GraphemeCat::Any), 1);
    assert_eq!(grapheme_cat('\u{0}', GraphemeCat::Any), 2);
    assert_eq!(grapheme_cat('a', GraphemeCat::Extend), 0);
    assert_eq!(grapheme_cat('~', GraphemeCat::L), 0);
    assert_eq!(grapheme_cat('\u{7f}', GraphemeCat::Control), 2);
    assert_eq!(grapheme_cat('\u{301}', GraphemeCat::Extend), 3);
}

#[test]
fn properties() {
    assert!(is_incb_linker('\u{94D}'));
    assert!(is_incb_linker('\u{11F42}'));
    assert!(!is_incb_linker('a'));
    assert!(is_pictographic(EmojiCat::ExtendedPictographic));
    assert!(!is_pictographic(EmojiCat::Any));
}

#[test]
fn name_listing() {
    assert_eq!(names(&["GC_Any", "GC_CR"]), "--    0 GC_Any\n--    1 GC_CR");
    assert_eq!(names(&[]), "");
    let listing = names(&grapheme_names());
    assert!(listing.ends_with("--   15 GC_ZWJ"));
    assert_eq!(listing.lines().count(), 16);
}

#[test]
fn byte_order_of_strings() {
    assert!(bytes_less(b"a", b"ab"));
    assert!(!bytes_less(b"ab", b"a"));
    assert!(!bytes_less(b"a", b"a"));
    assert!(bytes_less(b"Z", b"a"));
    let sorted = sort_dedup_strings(
        ["b", "a", "b", "ab", "é", "z", ""].iter().map(|s| s.to_string()).collect(),
    );
    assert_eq!(sorted, vec!["", "a", "ab", "b", "z", "é"]);
}

#[test]
fn ends_and_spans_of_pieces() {
    let parts = vec![(0, "ab".to_string()), (2, "é".to_string()), (4, "c".to_string())];
    assert_eq!(ends(&parts), vec![2, 4, 5]);
    assert_eq!(spans(&parts), vec![(0, 2), (2, 4), (4, 5)]);
}

#[test]
fn filtered_pieces_are_found_among_bounds() {
    let bounds = vec![(0, "a ".to_string()), (2, ". ".to_string()), (4, "a ".to_string()), (6, "b".to_string())];
    let pieces = vec!["a ".to_string(), "a ".to_string(), "b".to_string()];
    assert_eq!(aligned_spans(&bounds, &pieces), vec![(0, 2), (4, 6), (6, 7)]);
    assert_eq!(aligned_spans(&bounds, &[]), vec![]);
}

#[test]
fn record_of_prose_sentences() {
    let s = "Mr. Fox jumped. [...] The dog was too lazy.";
    let mut rec = String::new();
    record(&mut rec, s);
    let (text, lists) = parse_record(&rec);
    assert_eq!(text, s);
    assert_eq!(lists[4], vec![4, 16, 22, 43]);
    assert_eq!(lists[5], vec![0, 4, 4, 16, 22, 43]);
    assert_eq!(lists[0].len(), s.len());
    assert_eq!(*lists[0].last().unwrap(), s.len());
}

#[test]
fn record_of_prose_words() {
    let s = "The quick (\"brown\") fox can't jump 32.3 feet, right?";
    let mut rec = String::new();
    record(&mut rec, s);
    let (_, lists) = parse_record(&rec);
    let words: Vec<&str> = lists[3].chunks(2).map(|p| &s[p[0]..p[1]]).collect();
    assert_eq!(words, vec!["The", "quick", "brown", "fox", "can't", "jump", "32.3", "feet", "right"]);
    assert_eq!(*lists[2].last().unwrap(), s.len());
}

#[test]
fn record_of_clusters() {
    let s = "a\u{310}e\u{301}o\u{308}\u{332}";
    let mut rec = String::new();
    record(&mut rec, s);
    let (_, lists) = parse_record(&rec);
    assert_eq!(lists[0], vec![3, 6, 11]);
    // Legacy clusters split off a spacing mark, extended ones keep it.
    let s = "\u{915}\u{94d}\u{937}\u{93f}";
    let mut rec = String::new();
    record(&mut rec, s);
    let (_, lists) = parse_record(&rec);
    assert_eq!(lists[0], vec![12]);
    assert_eq!(lists[1], vec![6, 9, 12]);
}

fn any_grapheme(_c: char) -> GraphemeCat {
    GraphemeCat::Any
}
fn any_word(_c: char) -> WordCat {
    WordCat::Any
}
fn any_sentence(_c: char) -> SentenceCat {
    SentenceCat::Any
}
fn never(_c: char) -> bool {
    false
}

#[test]
fn pool_of_trivial_categories() {
    let pool = interesting(&any_grapheme, &any_word, &any_sentence, &never);
    let mut expected: Vec<char> = vec![
        '\u{0}', '\u{1}', '\r', '\n', ' ', '!', '\u{3001}', '\u{94D}', '\u{9CD}', '\u{A9C0}',
    ];
    expected.extend(" .,;:'\"!?()[]0123456789aAzZ\t\n\r".chars());
    expected.extend("\u{915}\u{937}\u{94d}\u{200d}\u{1f468}\u{1f469}\u{2764}\u{fe0f}".chars());
    expected.sort_unstable();
    expected.dedup();
    assert_eq!(pool, expected);
}

fn emoji_any(_c: char) -> EmojiCat {
    EmojiCat::Any
}
fn ascii_letter(c: char) -> bool {
    c.is_ascii_alphanumeric()
}

#[test]
fn tables_of_trivial_properties() {
    let out = tables("-- LICENCE", &any_grapheme, &any_word, &any_sentence, &emoji_any, &never, &ascii_letter);
    assert!(out.contains("-- is read in place by `Lookup.mw`.\n--\n-- LICENCE\n\n-- The Unicode version the tables describe.\n@pub(pkg) def unicodeVersion = (17, 0, 0)\n\n"));
    // Only the ASCII controls differ from Any: (0, 9) Control, (10, 10) LF,
    // (11, 12) Control, (13, 13) CR, (14, 31) Control.
    assert!(out.contains("@pub(pkg) def graphemeCats =\n  \"000000092000:000:7000;000<2000=000=1000>000O2\"\n"));
    assert!(out.contains("@pub(pkg) def wordCats =\n  \"\"\n"));
    assert!(out.contains("@pub(pkg) def incbLinker =\n"));
    assert!(out.contains("@pub(pkg) def alphanumeric =\n  \"000`000i0011001J001Q001j\"\n"));
    assert!(out.contains("--   15 GC_ZWJ\n@pub(pkg) def graphemeCats"));
    assert!(out.ends_with("\"\n"));
    assert!(!out.ends_with("\n\n"));
}

#[test]
fn cases_are_deterministic() {
    let official = vec!["a\u{308}".to_string(), "Mr. Fox jumped.".to_string()];
    let a = cases("-- LICENCE", &official, &any_grapheme, &any_word, &any_sentence, &never);
    let b = cases("-- LICENCE", &official, &any_grapheme, &any_word, &any_sentence, &never);
    assert_eq!(a, b);
    assert!(a.contains(" in\n-- all, 2 of them from the official Unicode test files.\n--\n-- LICENCE\n\n-- Each:"));
    assert!(a.contains("@cfg(test)\n@pub(pkg) def cases =\n  \""));
    assert!(a.ends_with("\"\n"));
}

#[test]
fn record_of_word_bounds() {
    let s = "a b";
    let mut rec = String::new();
    record(&mut rec, s);
    let (text, lists) = parse_record(&rec);
    assert_eq!(text, "a b");
    assert!(rec.starts_with("003a b"));
    assert_eq!(lists[2], vec![1, 2, 3]);
    assert_eq!(lists[3], vec![0, 1, 2, 3]);
    assert_eq!(lists[0], vec![1, 2, 3]);
}

#[test]
fn sample_takes_two_of_each_value_and_one_further_on() {
    let f = |c: char| -> u8 { if c == 'a' || c == 'b' || c == 'c' || c == '\u{4e00}' { 1 } else { 0 } };
    assert_eq!(sample_by(f), vec!['\u{0}', '\u{1}', '\u{3001}', 'a', 'b', '\u{4e00}']);
}

#[test]
fn tables_carry_the_licence_lines() {
    let out = tables(HEADER, &any_grapheme, &any_word, &any_sentence, &emoji_any, &never, &never);
    assert!(out.contains("--\n-- Copyright 2012-2025 The Rust Project Developers"));
    assert!(out.contains("see COPYRIGHT.\n\n-- The Unicode version"));
    assert!(out.contains("@pub(pkg) def incbLinker =\n  \"00U=00U="));
}
