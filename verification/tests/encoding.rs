use segtables::encoding::{digits, offsets, pairs, range_table, value_table};
use segtables::fnv::{fingerprint, rules_unchanged};
use segtables::literal::long_literal;

fn decode(s: &str) -> u64 {
    s.chars().fold(0, |acc, c| acc * 64 + (c as u64 - '0' as u64))
}

#[test]
fn fingerprint_of_known_texts() {
    assert_eq!(fingerprint(""), 0xcbf2_9ce4_8422_2325);
    assert_eq!(fingerprint("a"), 0xaf63_dc4c_8601_ec8c);
    assert_eq!(fingerprint("foobar"), 0x8594_4171_f739_67e8);
    assert_eq!(fingerprint("é"), 0x0ac2_1707_b718_1e01);
}

#[test]
fn fingerprint_in_pieces_matches_whole() {
    // The hash of a concatenation continues from the hash of its start.
    let whole = fingerprint("foobar");
    assert_ne!(whole, fingerprint("foo"));
    assert_eq!(whole, 0x8594_4171_f739_67e8);
}

#[test]
fn changed_rules_are_refused() {
    assert!(!rules_unchanged(""));
    assert!(!rules_unchanged("fn main() {}"));
}

#[test]
fn digits_are_base_64_most_significant_first() {
    let mut s = String::new();
    digits(&mut s, 0, 3);
    assert_eq!(s, "000");
    let mut s = String::new();
    digits(&mut s, 63, 1);
    assert_eq!(s, "o");
    let mut s = String::new();
    digits(&mut s, 64, 2);
    assert_eq!(s, "10");
    let mut s = String::from("x");
    digits(&mut s, 262_143, 3);
    assert_eq!(s, "xooo");
    let mut s = String::new();
    digits(&mut s, 4096, 3);
    assert_eq!(s, "100");
}

#[test]
fn digits_read_back() {
    for v in [0u64, 1, 63, 64, 4095, 100_000, 0x10_FFFF, 16_777_215] {
        let mut s = String::new();
        digits(&mut s, v, 4);
        assert_eq!(s.len(), 4);
        assert!(s.chars().all(|c| ('0'..='o').contains(&c)));
        assert_eq!(decode(&s), v);
    }
}

#[test]
fn offsets_and_pairs() {
    let mut s = String::new();
    offsets(&mut s, &[5, 64]);
    assert_eq!(s, "002005010");
    let mut s = String::new();
    offsets(&mut s, &[]);
    assert_eq!(s, "000");
    let mut s = String::new();
    pairs(&mut s, &[(0, 3), (4, 70)]);
    assert_eq!(s, "002000003004016");
}

#[test]
fn table_records() {
    assert_eq!(value_table(&[(0, 0x7F, 3), (0x10FFFF, 0x10FFFF, 18)]), "0000001o34?oo4?ooB");
    assert_eq!(range_table(&[(0x41, 0x5A, true)]), "0011001J");
    assert_eq!(value_table(&[]), "");
}

#[test]
fn literal_plain_text() {
    assert_eq!(long_literal("abc", 96), "\"abc\"");
    assert_eq!(long_literal("", 96), "\"\"");
}

#[test]
fn literal_escapes() {
    assert_eq!(long_literal("a\"b\\c$d", 96), "\"a\\\"b\\\\c\\$d\"");
    assert_eq!(long_literal("é\t~\u{7f}", 96), "\"\\u{E9}\\u{9}~\\u{7F}\"");
    assert_eq!(long_literal("\u{1F468}", 96), "\"\\u{1F468}\"");
}

#[test]
fn literal_breaks_lines() {
    assert_eq!(long_literal("abcd", 2), "\"ab\\\n    cd\"");
    assert_eq!(long_literal("abcde", 2), "\"ab\\\n    cd\\\n    e\"");
    // A space that starts a line is escaped, since the continuation drops
    // leading whitespace; elsewhere it stands as it is.
    assert_eq!(long_literal("a  b", 2), "\"a \\\n    \\x20b\"");
}

/// Reads a literal back the way a continuation-aware reader does.
fn read(lit: &str) -> String {
    let inner: Vec<char> = lit[1..lit.len() - 1].chars().collect();
    let mut out = String::new();
    let mut i = 0;
    while i < inner.len() {
        if inner[i] != '\\' {
            out.push(inner[i]);
            i += 1;
            continue;
        }
        match inner[i + 1] {
            '\n' => {
                i += 2;
                while i < inner.len() && inner[i] == ' ' {
                    i += 1;
                }
            }
            'x' => {
                let v = u32::from_str_radix(&inner[i + 2..i + 4].iter().collect::<String>(), 16).unwrap();
                out.push(char::from_u32(v).unwrap());
                i += 4;
            }
            'u' => {
                let end = (i..inner.len()).find(|&k| inner[k] == '}').unwrap();
                let v = u32::from_str_radix(&inner[i + 3..end].iter().collect::<String>(), 16).unwrap();
                out.push(char::from_u32(v).unwrap());
                i = end + 1;
            }
            c => {
                out.push(c);
                i += 2;
            }
        }
    }
    out
}

#[test]
fn literal_reads_back() {
    let texts = ["", "plain", " lead", "a  b  c  d", "\"$\\ \t\n\r", "कि क्ष 👨\u{200d}👩", "   "];
    for t in texts {
        for w in [1usize, 2, 3, 96] {
            assert_eq!(read(&long_literal(t, w)), t, "{t:?} at width {w}");
        }
    }
}

#[test]
fn one_byte_edit_changes_fingerprint() {
    let base = "fn rule(a: u8) -> u8 { a }";
    let h = fingerprint(base);
    let bytes = base.as_bytes();
    for k in 0..bytes.len() {
        let mut edited = bytes.to_vec();
        edited[k] = if bytes[k] == b'x' { b'y' } else { b'x' };
        assert_ne!(fingerprint(std::str::from_utf8(&edited).unwrap()), h, "edit at {k}");
    }
}

#[test]
fn digits_keep_numeric_order() {
    let values = [0u64, 1, 9, 10, 63, 64, 65, 4095, 4096, 262_143];
    for w in values.windows(2) {
        let mut a = String::new();
        digits(&mut a, w[0], 3);
        let mut b = String::new();
        digits(&mut b, w[1], 3);
        assert!(a < b, "{a} < {b}");
    }
}
