use vstd::prelude::*;
use std::collections::BTreeMap;
use crate::category::{grapheme_cat, grapheme_value, incb_linker, is_incb_linker, GraphemeCat, WordCat, SentenceCat};
use crate::runs::{deterministic, total, value_at, SCALARS};
use crate::text::{char_from_u32, same_char};
use crate::unique::{increasing, lemma_increasing_unique};

verus! {

broadcast use {
    vstd::utf8::char_is_scalar,
    vstd::utf8::char_u32_cast,
    vstd::laws_cmp::group_laws_cmp,
    vstd::std_specs::btree::axiom_maps_deref_key_to_value,
    vstd::std_specs::btree::axiom_contains_deref_key,
    vstd::std_specs::btree::axiom_deref_key_removed,
};

/// How many of `picks` have the key `k`.
pub open spec fn count_key(picks: Seq<(u8, char)>, k: u8) -> nat
    decreases picks.len(),
{
    if picks.len() == 0 {
        0
    } else {
        count_key(picks.drop_last(), k) + if picks.last().0 == k {
            1nat
        } else {
            0nat
        }
    }
}

/// Whether a character at code point `cp` is picked for its value, when
/// `n` characters with that value are picked already: the first two of
/// each value, and one from much further on.
pub open spec fn wanted(n: nat, cp: nat) -> bool {
    n < 2 || (n < 3 && cp > 0x3000)
}

/// The characters picked below code point `end`, each with its value, in
/// code point order.
pub open spec fn picks_upto(val: spec_fn(char) -> u8, end: nat) -> Seq<(u8, char)>
    decreases end,
{
    if end == 0 {
        seq![]
    } else {
        let prev = picks_upto(val, (end - 1) as nat);
        let cp = (end - 1) as nat;
        if cp < 0x110000 && vstd::utf8::is_scalar(cp as u32) {
            let c = (cp as u32) as char;
            if wanted(count_key(prev, val(c)), cp) {
                prev.push((val(c), c))
            } else {
                prev
            }
        } else {
            prev
        }
    }
}

/// The characters of `picks` with key `k`, in order.
pub open spec fn with_key(picks: Seq<(u8, char)>, k: int) -> Seq<char>
    decreases picks.len(),
{
    if picks.len() == 0 {
        seq![]
    } else if picks.last().0 == k {
        with_key(picks.drop_last(), k).push(picks.last().1)
    } else {
        with_key(picks.drop_last(), k)
    }
}

/// The characters of `picks` grouped by key, from key `k` up.
pub open spec fn grouped_from(picks: Seq<(u8, char)>, k: int) -> Seq<char>
    decreases 256 - k,
{
    if k >= 256 || k < 0 {
        seq![]
    } else {
        with_key(picks, k) + grouped_from(picks, k + 1)
    }
}

/// The characters picked for every value of `val`: for each value in
/// increasing order, the first two characters with it, and the first one
/// after U+3000 beyond those.
pub open spec fn sample(val: spec_fn(char) -> u8) -> Seq<char> {
    grouped_from(picks_upto(val, SCALARS as nat), 0)
}


proof fn lemma_count_is_with_key_len(picks: Seq<(u8, char)>, k: u8)
    ensures
        count_key(picks, k) == with_key(picks, k as int).len(),
    decreases picks.len(),
{
    if picks.len() > 0 {
        lemma_count_is_with_key_len(picks.drop_last(), k);
    }
}

proof fn lemma_picks_valid(val: spec_fn(char) -> u8, e: nat)
    ensures
        forall|i: int|
            0 <= i < picks_upto(val, e).len() ==> val((#[trigger] picks_upto(val, e)[i]).1)
                == picks_upto(val, e)[i].0,
    decreases e,
{
    if e > 0 {
        lemma_picks_valid(val, (e - 1) as nat);
        let prev = picks_upto(val, (e - 1) as nat);
        let cur = picks_upto(val, e);
        assert forall|i: int| 0 <= i < cur.len() implies val((#[trigger] cur[i]).1) == cur[i].0 by {
            if i < prev.len() {
                assert(cur[i] == prev[i]);
            }
        }
    }
}

proof fn lemma_with_key_valid(picks: Seq<(u8, char)>, val: spec_fn(char) -> u8, k: int)
    requires
        forall|i: int| 0 <= i < picks.len() ==> val((#[trigger] picks[i]).1) == picks[i].0,
    ensures
        forall|j: int|
            0 <= j < with_key(picks, k).len() ==> val(#[trigger] with_key(picks, k)[j]) == k,
    decreases picks.len(),
{
    if picks.len() > 0 {
        let p = picks.drop_last();
        assert forall|i: int| 0 <= i < p.len() implies val((#[trigger] p[i]).1) == p[i].0 by {
            assert(p[i] == picks[i]);
        }
        lemma_with_key_valid(p, val, k);
        assert(val(picks.last().1) == picks.last().0);
        let w = with_key(picks, k);
        let wp = with_key(p, k);
        assert forall|j: int| 0 <= j < w.len() implies val(#[trigger] w[j]) == k by {
            if j < wp.len() {
                assert(w[j] == wp[j]);
            }
        }
    }
}

proof fn lemma_with_key_grows(picks: Seq<(u8, char)>, p: (u8, char), k: int)
    ensures
        with_key(picks.push(p), k).len() >= with_key(picks, k).len(),
        p.0 == k ==> with_key(picks.push(p), k) == with_key(picks, k).push(p.1),
{
    assert(picks.push(p).drop_last() == picks);
}

proof fn lemma_picks_reach(val: spec_fn(char) -> u8, c: char, e: nat)
    requires
        (c as u32) < e,
    ensures
        with_key(picks_upto(val, e), val(c) as int).len() > 0,
    decreases e,
{
    let prev = picks_upto(val, (e - 1) as nat);
    let k = val(c);
    if (c as u32) < e - 1 {
        lemma_picks_reach(val, c, (e - 1) as nat);
        if picks_upto(val, e) != prev {
            let cp = (e - 1) as nat;
            let d = (cp as u32) as char;
            lemma_with_key_grows(prev, (val(d), d), k as int);
        }
    } else {
        let cp = (e - 1) as nat;
        vstd::utf8::char_is_scalar(c);
        vstd::utf8::char_u32_cast(c, c as u32);
        assert((cp as u32) as char == c);
        lemma_count_is_with_key_len(prev, k);
        if count_key(prev, k) == 0 {
            assert(wanted(0, cp));
            lemma_with_key_grows(prev, (k, c), k as int);
        } else if picks_upto(val, e) != prev {
            lemma_with_key_grows(prev, (k, c), k as int);
        }
    }
}

proof fn lemma_grouped_contains(picks: Seq<(u8, char)>, j: int, k: int, x: char)
    requires
        0 <= j <= k < 256,
        with_key(picks, k).contains(x),
    ensures
        grouped_from(picks, j).contains(x),
    decreases k - j,
{
    let g = grouped_from(picks, j);
    let w = with_key(picks, j);
    if j == k {
        let i = choose|i: int| 0 <= i < w.len() && w[i] == x;
        assert(g[i] == x);
    } else {
        lemma_grouped_contains(picks, j + 1, k, x);
        let r = grouped_from(picks, j + 1);
        let i = choose|i: int| 0 <= i < r.len() && r[i] == x;
        assert(g[w.len() + i] == x);
    }
}

/// Whether `pool` holds, for every value that `val` takes, a character
/// with that value.
#[verifier::opaque]
pub open spec fn reaches_every_value<T>(pool: Seq<char>, val: spec_fn(char) -> T) -> bool {
    forall|c: char| #[trigger] has_value(pool, val, val(c))
}

/// Whether `pool` holds a character whose value of `val` is `v`.
pub open spec fn has_value<T>(pool: Seq<char>, val: spec_fn(char) -> T, v: T) -> bool {
    exists|d: char| #[trigger] pool.contains(d) && val(d) == v
}

/// A sample reaches every value: for each character, the sample holds a
/// character with the same value.
pub proof fn lemma_sample_covers(val: spec_fn(char) -> u8)
    ensures
        reaches_every_value(sample(val), val),
{
    reveal(reaches_every_value);
    assert forall|c: char| #[trigger] has_value(sample(val), val, val(c)) by {
        lemma_sample_has(val, c);
    }
}

proof fn lemma_sample_has(val: spec_fn(char) -> u8, c: char)
    ensures
        has_value(sample(val), val, val(c)),
{
    let picks = picks_upto(val, SCALARS as nat);
    vstd::utf8::char_is_scalar(c);
    lemma_picks_reach(val, c, SCALARS as nat);
    lemma_picks_valid(val, SCALARS as nat);
    let k = val(c) as int;
    lemma_with_key_valid(picks, val, k);
    let w = with_key(picks, k);
    let d = w[0];
    assert(val(d) == k);
    assert(w[0] == d);
    assert(w.contains(d));
    lemma_grouped_contains(picks, 0, k, d);
    assert(sample(val) == grouped_from(picks, 0));
    assert(sample(val).contains(d) && val(d) == val(c));
}

/// Whether a sample for `val` must keep `c`: fewer than two characters
/// before it share its value, or it lies past U+3000 and fewer than three
/// do.
pub open spec fn among_first(val: spec_fn(char) -> u8, c: char) -> bool {
    ||| !(exists|a: char, b: char| a < b && b < c && #[trigger] val(a) == val(c) && #[trigger] val(b) == val(c))
    ||| ('\u{3000}' < c && !(exists|a: char, b: char, d: char|
        a < b && b < d && d < c && #[trigger] val(a) == val(c) && #[trigger] val(b) == val(c) && #[trigger] val(d) == val(c)))
}

proof fn lemma_with_key_push(picks: Seq<(u8, char)>, p: (u8, char), k: int)
    ensures
        with_key(picks.push(p), k) == if p.0 == k {
            with_key(picks, k).push(p.1)
        } else {
            with_key(picks, k)
        },
{
    assert(picks.push(p).drop_last() == picks);
}

/// The characters picked below `e` with key `k` are in increasing order,
/// all below `e`.
proof fn lemma_key_chars(val: spec_fn(char) -> u8, e: nat, k: int)
    ensures
        strictly_increasing(with_key(picks_upto(val, e), k)),
        forall|j: int|
            0 <= j < with_key(picks_upto(val, e), k).len() ==> ((#[trigger] with_key(picks_upto(val, e), k)[j]) as u32) < e,
    decreases e,
{
    if e > 0 {
        let prev = picks_upto(val, (e - 1) as nat);
        lemma_key_chars(val, (e - 1) as nat, k);
        let cp = (e - 1) as nat;
        if cp < 0x110000 && vstd::utf8::is_scalar(cp as u32) {
            let c = (cp as u32) as char;
            if wanted(count_key(prev, val(c)), cp) {
                lemma_with_key_push(prev, (val(c), c), k);
                let w = with_key(prev, k);
                let w2 = with_key(picks_upto(val, e), k);
                if val(c) == k {
                    assert(w2 == w.push(c));
                    assert((c as u32) == cp);
                    assert forall|i: int, j: int| 0 <= i < j < w2.len() implies (#[trigger] w2[i]) < (#[trigger] w2[j]) by {
                        if j < w.len() {
                            assert(w2[i] == w[i] && w2[j] == w[j]);
                        } else {
                            assert(w2[i] == w[i]);
                            assert((w[i] as u32) < cp);
                            lemma_char_lt(w[i], c);
                        }
                    }
                }
            }
        }
    }
}

/// A character is picked for its value when, at its code point, the
/// count of its value picked so far lets it in.
proof fn lemma_picked_when_wanted(val: spec_fn(char) -> u8, c: char)
    requires
        wanted(with_key(picks_upto(val, (c as u32) as nat), val(c) as int).len(), (c as u32) as nat),
    ensures
        sample(val).contains(c),
{
    let e = (c as u32) as nat;
    let k = val(c) as int;
    let prev = picks_upto(val, e);
    vstd::utf8::char_is_scalar(c);
    vstd::utf8::char_u32_cast(c, c as u32);
    assert((e as u32) as char == c);
    lemma_count_is_with_key_len(prev, val(c));
    assert(picks_upto(val, e + 1) == prev.push((val(c), c)));
    lemma_with_key_push(prev, (val(c), c), k);
    assert(with_key(picks_upto(val, e + 1), k).contains(c)) by {
        assert(with_key(picks_upto(val, e + 1), k).last() == c);
    }
    lemma_key_kept(val, e + 1, SCALARS as nat, k, c);
    lemma_grouped_contains(picks_upto(val, SCALARS as nat), 0, k, c);
}

/// What is picked with key `k` stays picked further on.
proof fn lemma_key_kept(val: spec_fn(char) -> u8, e: nat, f: nat, k: int, c: char)
    requires
        e <= f,
        with_key(picks_upto(val, e), k).contains(c),
    ensures
        with_key(picks_upto(val, f), k).contains(c),
    decreases f - e,
{
    if e < f {
        let prev = picks_upto(val, (f - 1) as nat);
        lemma_key_kept(val, e, (f - 1) as nat, k, c);
        let w = with_key(prev, k);
        let i = choose|i: int| 0 <= i < w.len() && w[i] == c;
        let cp = (f - 1) as nat;
        if cp < 0x110000 && vstd::utf8::is_scalar(cp as u32) {
            let d = (cp as u32) as char;
            if wanted(count_key(prev, val(d)), cp) {
                lemma_with_key_push(prev, (val(d), d), k);
                assert(with_key(picks_upto(val, f), k)[i] == c);
            }
        }
    }
}

/// A sample keeps the first two characters of each value, and the third
/// where it lies past U+3000.
pub proof fn lemma_sample_keeps_first(val: spec_fn(char) -> u8, c: char)
    requires
        among_first(val, c),
    ensures
        sample(val).contains(c),
{
    let e = (c as u32) as nat;
    let k = val(c) as int;
    let w = with_key(picks_upto(val, e), k);
    lemma_key_chars(val, e, k);
    lemma_picks_valid(val, e);
    lemma_with_key_valid(picks_upto(val, e), val, k);
    if w.len() >= 2 {
        assert(w[0] < w[1]);
        lemma_char_lt(w[1], c);
        assert(w[0] < w[1] && w[1] < c && val(w[0]) == val(c) && val(w[1]) == val(c));
    }
    if w.len() >= 3 {
        lemma_char_lt(w[2], c);
        assert(w[0] < w[1] && w[1] < w[2] && w[2] < c && val(w[0]) == val(c) && val(w[1]) == val(c) && val(w[2]) == val(c));
    }
    lemma_picked_when_wanted(val, c);
}

/// Characters are ordered by their code points.
proof fn lemma_char_lt(a: char, b: char)
    requires
        (a as u32) < (b as u32),
    ensures
        a < b,
{
}

/// A few characters of every value of `f`: the first two of each value,
/// and one from much further on, grouped by value in increasing order.
pub fn sample_by<F: Fn(char) -> u8>(f: F) -> (out: Vec<char>)
    requires
        total(f),
        deterministic(f),
    ensures
        out@ == sample(|c: char| value_at(f, c)),
        forall|c: char| f.ensures((c,), value_at(f, c)),
{
    let ghost val = |c: char| value_at(f, c);
    let mut seen: BTreeMap<u8, Vec<char>> = BTreeMap::new();
    let ghost mut picks: Seq<(u8, char)> = seq![];
    let mut cp: u32 = 0;
    while cp < SCALARS
        invariant
            cp <= SCALARS,
            total(f),
            deterministic(f),
            val == (|c: char| value_at(f, c)),
            picks == picks_upto(val, cp as nat),
            forall|k: u8| #[trigger] seen@.contains_key(k) <==> with_key(picks, k as int).len() > 0,
            forall|k: u8| seen@.contains_key(k) ==> (#[trigger] seen@[k])@ == with_key(picks, k as int),
            forall|c: char| (c as u32) < cp ==> f.ensures((c,), value_at(f, c)),
        decreases SCALARS - cp,
    {
        let found = char_from_u32(cp);
        let ghost prev = picks;
        match found {
            None => {
                proof {
                    assert(picks_upto(val, (cp + 1) as nat) == prev);
                    assert forall|d: char| (d as u32) < cp + 1 implies f.ensures((d,), value_at(f, d)) by {
                        vstd::utf8::char_is_scalar(d);
                    }
                }
            },
            Some(c) => {
                let v = f(c);
                proof {
                    assert(value_at(f, c) == v);
                }
                let ghost before = seen@;
                let mut list = match seen.remove(&v) {
                    Some(l) => l,
                    None => Vec::new(),
                };
                proof {
                    assert(list@ == with_key(prev, v as int));
                    assert(seen@ == before.remove(v));
                }
                let n = list.len();
                proof {
                    lemma_count_is_with_key_len(prev, v);
                    vstd::utf8::char_u32_cast(c, cp);
                    assert((cp as u32) as char == c);
                    assert(val(c) == v);
                    assert(count_key(prev, v) == n as nat);
                    assert(picks_upto(val, (cp + 1) as nat) == if wanted(n as nat, cp as nat) {
                        prev.push((v, c))
                    } else {
                        prev
                    });
                }
                if n < 2 || (n < 3 && cp > 0x3000) {
                    list.push(c);
                    proof {
                        picks = prev.push((v, c));
                        assert(picks.drop_last() == prev);
                        assert forall|k: u8| k != v implies with_key(picks, k as int) == with_key(prev, k as int) by {}
                        assert(with_key(picks, v as int) == with_key(prev, v as int).push(c));
                    }
                }
                seen.insert(v, list);
                proof {
                    assert forall|k: u8| #[trigger] seen@.contains_key(k) <==> with_key(picks, k as int).len() > 0 by {
                        if k != v {
                            assert(before.contains_key(k) == seen@.contains_key(k));
                        }
                    }
                    assert forall|k: u8| seen@.contains_key(k) implies (#[trigger] seen@[k])@ == with_key(picks, k as int) by {
                        if k != v {
                            assert(seen@[k] == before[k]);
                        }
                    }
                    assert forall|d: char| (d as u32) < cp + 1 implies f.ensures((d,), value_at(f, d)) by {
                        if d as u32 == cp {
                            same_char(d, c);
                        }
                    }
                }
            },
        }
        proof {
            assert(((cp as nat + 1) - 1) as nat == cp as nat);
        }
        cp += 1;
    }
    let mut out: Vec<char> = Vec::new();
    let mut key: usize = 0;
    while key < 256
        invariant
            key <= 256,
            picks == picks_upto(val, SCALARS as nat),
            forall|k: u8| #[trigger] seen@.contains_key(k) <==> with_key(picks, k as int).len() > 0,
            forall|k: u8| seen@.contains_key(k) ==> (#[trigger] seen@[k])@ == with_key(picks, k as int),
            out@ + grouped_from(picks, key as int) == grouped_from(picks, 0),
        decreases 256 - key,
    {
        let k = key as u8;
        let ghost before = out@;
        match seen.get(&k) {
            Some(list) => {
                let mut i: usize = 0;
                while i < list.len()
                    invariant
                        0 <= i <= list@.len(),
                        out@ == before + list@.take(i as int),
                    decreases list@.len() - i,
                {
                    out.push(list[i]);
                    proof {
                        assert(list@.take(i + 1) == list@.take(i as int).push(list@[i as int]));
                    }
                    i += 1;
                }
                proof {
                    assert(list@.take(i as int) == list@);
                    assert(list@ == with_key(picks, key as int));
                }
            },
            None => {
                proof {
                    assert(with_key(picks, key as int) =~= seq![]);
                }
            },
        }
        proof {
            assert(grouped_from(picks, key as int) == with_key(picks, key as int) + grouped_from(
                picks,
                key + 1,
            ));
        }
        key += 1;
    }
    proof {
        assert(out@ + seq![] == out@);
        assert forall|c: char| f.ensures((c,), value_at(f, c)) by {
            vstd::utf8::char_is_scalar(c);
        }
    }
    out
}

/// The characters added by hand: punctuation, digits and letters where the
/// rules for words and sentences meet, the ASCII controls that break lines,
/// real consonants and a virama for the conjunct rule, and a family of
/// emoji with its joiner.
pub open spec fn extra_chars() -> Seq<char> {
    seq![
        ' ',
        '.',
        ',',
        ';',
        ':',
        '\'',
        '"',
        '!',
        '?',
        '(',
        ')',
        '[',
        ']',
        '0',
        '1',
        '2',
        '3',
        '4',
        '5',
        '6',
        '7',
        '8',
        '9',
        'a',
        'A',
        'z',
        'Z',
        '\t',
        '\n',
        '\r',
        '\u{915}',
        '\u{937}',
        '\u{94d}',
        '\u{200d}',
        '\u{1f468}',
        '\u{1f469}',
        '\u{2764}',
        '\u{fe0f}',
    ]
}

/// The grapheme category numbers, from the table categories `grapheme`.
pub open spec fn grapheme_values<G: Fn(char) -> GraphemeCat>(grapheme: &G) -> spec_fn(char) -> u8 {
    |c: char| grapheme_value(c, value_at(grapheme, c))
}

/// The word category numbers.
pub open spec fn word_values<W: Fn(char) -> WordCat>(word: &W) -> spec_fn(char) -> u8 {
    |c: char| value_at(word, c).number()
}

/// The sentence category numbers.
pub open spec fn sentence_values<S: Fn(char) -> SentenceCat>(sentence: &S) -> spec_fn(char) -> u8 {
    |c: char| value_at(sentence, c).number()
}

/// A property as the numbers 0 and 1.
pub open spec fn flag_values<P: Fn(char) -> bool>(prop: &P) -> spec_fn(char) -> u8 {
    |c: char| if value_at(prop, c) { 1u8 } else { 0u8 }
}

/// Indic_Conjunct_Break=Linker as the numbers 0 and 1.
pub open spec fn linker_values() -> spec_fn(char) -> u8 {
    |c: char| if incb_linker(c) { 1u8 } else { 0u8 }
}

/// Every character picked, before sorting: a sample of every category
/// and property, then the characters added by hand.
pub open spec fn pool_picks<G: Fn(char) -> GraphemeCat, W: Fn(char) -> WordCat, S: Fn(char) -> SentenceCat, E: Fn(char) -> bool>(
    grapheme: &G,
    word: &W,
    sentence: &S,
    incb_extend: &E,
) -> Seq<char> {
    sample(grapheme_values(grapheme)) + sample(word_values(word)) + sample(
        sentence_values(sentence),
    ) + sample(linker_values()) + sample(flag_values(incb_extend)) + extra_chars()
}

/// Whether `s` is strictly increasing.
pub open spec fn strictly_increasing(s: Seq<char>) -> bool {
    forall|i: int, j: int| 0 <= i < j < s.len() ==> (#[trigger] s[i]) < (#[trigger] s[j])
}

/// The distinct characters of `v`, sorted.
fn sort_dedup(v: &Vec<char>) -> (out: Vec<char>)
    ensures
        strictly_increasing(out@),
        forall|c: char| out@.contains(c) <==> v@.contains(c),
{
    let mut out: Vec<char> = Vec::new();
    let mut i: usize = 0;
    while i < v.len()
        invariant
            0 <= i <= v@.len(),
            strictly_increasing(out@),
            forall|c: char| out@.contains(c) <==> v@.take(i as int).contains(c),
        decreases v@.len() - i,
    {
        let c = v[i];
        let mut p: usize = 0;
        while p < out.len() && out[p] < c
            invariant
                0 <= p <= out@.len(),
                forall|k: int| 0 <= k < p ==> out@[k] < c,
            decreases out@.len() - p,
        {
            p += 1;
        }
        let ghost before = out@;
        proof {
            assert(v@.take(i + 1) == v@.take(i as int).push(c));
        }
        if p < out.len() && out[p] == c {
            proof {
                assert forall|d: char| out@.contains(d) <==> v@.take(i + 1).contains(d) by {
                    if d == c {
                        assert(out@[p as int] == c);
                        assert(v@.take(i + 1)[i as int] == c);
                    }
                    if v@.take(i + 1).contains(d) && d != c {
                        let k = choose|k: int| 0 <= k < v@.take(i + 1).len() && #[trigger] v@.take(i + 1)[k] == d;
                        assert(v@.take(i as int)[k] == d);
                    }
                    if out@.contains(d) && d != c {
                        assert(v@.take(i as int).contains(d));
                        let k2 = choose|k2: int| 0 <= k2 < v@.take(i as int).len() && #[trigger] v@.take(i as int)[k2] == d;
                        assert(v@.take(i + 1)[k2] == d);
                    }
                }
            }
        } else {
            out.insert(p, c);
            proof {
                assert forall|a: int, b: int| 0 <= a < b < out@.len() implies (#[trigger] out@[a]) < (#[trigger] out@[b]) by {
                    if b < p {
                        assert(out@[a] == before[a] && out@[b] == before[b]);
                    } else if b == p {
                        assert(out@[a] == before[a]);
                    } else if a == p {
                        assert(out@[b] == before[b - 1]);
                        assert(before[p as int] >= c);
                        if b - 1 > p {
                            assert(before[p as int] < before[b - 1]);
                        }
                    } else if a < p {
                        assert(out@[a] == before[a] && out@[b] == before[b - 1]);
                    } else {
                        assert(out@[a] == before[a - 1] && out@[b] == before[b - 1]);
                    }
                }
                assert forall|d: char| out@.contains(d) <==> v@.take(i + 1).contains(d) by {
                    if d == c {
                        assert(out@[p as int] == c);
                        assert(v@.take(i + 1)[i as int] == c);
                    }
                    if out@.contains(d) && d != c {
                        let k = choose|k: int| 0 <= k < out@.len() && #[trigger] out@[k] == d;
                        if k < p {
                            assert(before[k] == d);
                        } else {
                            assert(before[k - 1] == d);
                        }
                        assert(before.contains(d));
                        assert(v@.take(i as int).contains(d));
                        let k2 = choose|k2: int| 0 <= k2 < v@.take(i as int).len() && #[trigger] v@.take(i as int)[k2] == d;
                        assert(v@.take(i + 1)[k2] == d);
                    }
                    if v@.take(i + 1).contains(d) && d != c {
                        let k = choose|k: int| 0 <= k < v@.take(i + 1).len() && #[trigger] v@.take(i + 1)[k] == d;
                        assert(v@.take(i as int)[k] == d);
                        assert(before.contains(d));
                        let m = choose|m: int| 0 <= m < before.len() && #[trigger] before[m] == d;
                        if m < p {
                            assert(out@[m] == d);
                        } else {
                            assert(out@[m + 1] == d);
                        }
                    }
                }
            }
        }
        i += 1;
    }
    proof {
        assert(v@.take(i as int) == v@);
    }
    out
}

/// A few characters of every category the rules distinguish, and of the
/// properties beside them, so that random sequences of them reach every
/// rule: sorted, each once. `grapheme`, `word` and `sentence` give each
/// character's table category, `incb_extend` whether it has
/// Indic_Conjunct_Break=Extend.
pub fn interesting<G: Fn(char) -> GraphemeCat, W: Fn(char) -> WordCat, S: Fn(char) -> SentenceCat, E: Fn(char) -> bool>(
    grapheme: &G,
    word: &W,
    sentence: &S,
    incb_extend: &E,
) -> (out: Vec<char>)
    requires
        total(grapheme),
        deterministic(grapheme),
        total(word),
        deterministic(word),
        total(sentence),
        deterministic(sentence),
        total(incb_extend),
        deterministic(incb_extend),
    ensures
        strictly_increasing(out@),
        forall|c: char|
            out@.contains(c) <==> pool_picks(grapheme, word, sentence, incb_extend).contains(c),
        out@ == sorted_chars(pool_picks(grapheme, word, sentence, incb_extend)),
        reaches_every_value(out@, grapheme_values(grapheme)),
        reaches_every_value(out@, word_values(word)),
        reaches_every_value(out@, sentence_values(sentence)),
        reaches_every_value(out@, linker_values()),
        reaches_every_value(out@, flag_values(incb_extend)),
        forall|c: char| #[trigger] among_first(grapheme_values(grapheme), c) ==> out@.contains(c),
        forall|c: char| #[trigger] among_first(word_values(word), c) ==> out@.contains(c),
        forall|c: char| #[trigger] among_first(sentence_values(sentence), c) ==> out@.contains(c),
        forall|c: char| #[trigger] among_first(linker_values(), c) ==> out@.contains(c),
        forall|c: char| #[trigger] among_first(flag_values(incb_extend), c) ==> out@.contains(c),
{
    let g = |c: char| -> (r: u8)
        requires
            grapheme.requires((c,)),
            deterministic(grapheme),
        ensures
            r == grapheme_value(c, value_at(grapheme, c)),
        {
            let t = grapheme(c);
            grapheme_cat(c, t)
        };
    let w = |c: char| -> (r: u8)
        requires
            word.requires((c,)),
            deterministic(word),
        ensures
            r == value_at(word, c).number(),
        {
            let t = word(c);
            t.index()
        };
    let s = |c: char| -> (r: u8)
        requires
            sentence.requires((c,)),
            deterministic(sentence),
        ensures
            r == value_at(sentence, c).number(),
        {
            let t = sentence(c);
            t.index()
        };
    let l = |c: char| -> (r: u8)
        ensures
            r == (if incb_linker(c) { 1u8 } else { 0u8 }),
        {
            if is_incb_linker(c) {
                1u8
            } else {
                0u8
            }
        };
    let e = |c: char| -> (r: u8)
        requires
            incb_extend.requires((c,)),
            deterministic(incb_extend),
        ensures
            r == (if value_at(incb_extend, c) { 1u8 } else { 0u8 }),
        {
            if incb_extend(c) {
                1u8
            } else {
                0u8
            }
        };
    let mut picks = sample_by(g);
    proof {
        assert((|c: char| value_at(g, c)) =~= grapheme_values(grapheme));
    }
    let mut more = sample_by(w);
    proof {
        assert((|c: char| value_at(w, c)) =~= word_values(word));
    }
    picks.append(&mut more);
    let mut more = sample_by(s);
    proof {
        assert((|c: char| value_at(s, c)) =~= sentence_values(sentence));
    }
    picks.append(&mut more);
    let mut more = sample_by(l);
    proof {
        assert((|c: char| value_at(l, c)) =~= linker_values());
    }
    picks.append(&mut more);
    let mut more = sample_by(e);
    proof {
        assert((|c: char| value_at(e, c)) =~= flag_values(incb_extend));
    }
    picks.append(&mut more);
    let mut more = vec![
        ' ',
        '.',
        ',',
        ';',
        ':',
        '\'',
        '"',
        '!',
        '?',
        '(',
        ')',
        '[',
        ']',
        '0',
        '1',
        '2',
        '3',
        '4',
        '5',
        '6',
        '7',
        '8',
        '9',
        'a',
        'A',
        'z',
        'Z',
        '\t',
        '\n',
        '\r',
        '\u{915}',
        '\u{937}',
        '\u{94d}',
        '\u{200d}',
        '\u{1f468}',
        '\u{1f469}',
        '\u{2764}',
        '\u{fe0f}',
    ];
    proof {
        assert(more@ == extra_chars());
    }
    picks.append(&mut more);
    let out = sort_dedup(&picks);
    proof {
        lemma_sorted_chars(out@, picks@);
        lemma_pool_covers(out@, grapheme, word, sentence, incb_extend);
    }
    out
}

/// The distinct characters of `s` in increasing order.
pub open spec fn sorted_chars(s: Seq<char>) -> Seq<char> {
    choose|r: Seq<char>| strictly_increasing(r) && forall|c: char| r.contains(c) <==> s.contains(c)
}

/// A strictly increasing sequence holding just the characters of `s` is
/// `sorted_chars(s)`: there is one such sequence.
pub proof fn lemma_sorted_chars(r: Seq<char>, s: Seq<char>)
    requires
        strictly_increasing(r),
        forall|c: char| r.contains(c) <==> s.contains(c),
    ensures
        sorted_chars(s) == r,
{
    let lt = |x: char, y: char| x < y;
    let t = sorted_chars(s);
    assert(strictly_increasing(t) && forall|c: char| t.contains(c) <==> s.contains(c));
    assert(increasing(r, lt)) by {
        assert forall|i: int, j: int| 0 <= i < j < r.len() implies lt(#[trigger] r[i], #[trigger] r[j]) by {
            assert(r[i] < r[j]);
        }
    }
    assert(increasing(t, lt)) by {
        assert forall|i: int, j: int| 0 <= i < j < t.len() implies lt(#[trigger] t[i], #[trigger] t[j]) by {
            assert(t[i] < t[j]);
        }
    }
    lemma_increasing_unique(t, r, lt);
}

/// Whether every character of `a` is in `b`.
#[verifier::opaque]
pub open spec fn within(a: Seq<char>, b: Seq<char>) -> bool {
    forall|d: char| a.contains(d) ==> #[trigger] b.contains(d)
}

proof fn lemma_within_concat(a: Seq<char>, b: Seq<char>)
    ensures
        within(a, a + b),
        within(b, a + b),
{
    reveal(within);
    assert forall|d: char| a.contains(d) implies #[trigger] (a + b).contains(d) by {
        let i = choose|i: int| 0 <= i < a.len() && a[i] == d;
        assert((a + b)[i] == d);
    }
    assert forall|d: char| b.contains(d) implies #[trigger] (a + b).contains(d) by {
        let i = choose|i: int| 0 <= i < b.len() && b[i] == d;
        assert((a + b)[a.len() + i] == d);
    }
}

proof fn lemma_within_trans(a: Seq<char>, b: Seq<char>, c: Seq<char>)
    requires
        within(a, b),
        within(b, c),
    ensures
        within(a, c),
{
    reveal(within);
}

proof fn lemma_in_pool(pool: Seq<char>, picks: Seq<char>, part: Seq<char>, val: spec_fn(char) -> u8)
    requires
        forall|c: char| pool.contains(c) <==> picks.contains(c),
        within(part, picks),
        reaches_every_value(part, val),
    ensures
        reaches_every_value(pool, val),
{
    reveal(within);
    reveal(reaches_every_value);
    assert forall|c: char| #[trigger] has_value(pool, val, val(c)) by {
        assert(has_value(part, val, val(c)));
        let d = choose|d: char| #[trigger] part.contains(d) && val(d) == val(c);
        assert(picks.contains(d));
        assert(pool.contains(d) && val(d) == val(c));
    }
}

proof fn lemma_pool_covers<G: Fn(char) -> GraphemeCat, W: Fn(char) -> WordCat, S: Fn(char) -> SentenceCat, E: Fn(char) -> bool>(
    pool: Seq<char>,
    grapheme: &G,
    word: &W,
    sentence: &S,
    incb_extend: &E,
)
    requires
        forall|c: char| pool.contains(c) <==> pool_picks(grapheme, word, sentence, incb_extend).contains(c),
    ensures
        reaches_every_value(pool, grapheme_values(grapheme)),
        reaches_every_value(pool, word_values(word)),
        reaches_every_value(pool, sentence_values(sentence)),
        reaches_every_value(pool, linker_values()),
        reaches_every_value(pool, flag_values(incb_extend)),
        forall|c: char| #[trigger] among_first(grapheme_values(grapheme), c) ==> pool.contains(c),
        forall|c: char| #[trigger] among_first(word_values(word), c) ==> pool.contains(c),
        forall|c: char| #[trigger] among_first(sentence_values(sentence), c) ==> pool.contains(c),
        forall|c: char| #[trigger] among_first(linker_values(), c) ==> pool.contains(c),
        forall|c: char| #[trigger] among_first(flag_values(incb_extend), c) ==> pool.contains(c),
{
    let sg = sample(grapheme_values(grapheme));
    let sw = sample(word_values(word));
    let ss = sample(sentence_values(sentence));
    let sl = sample(linker_values());
    let se = sample(flag_values(incb_extend));
    let x = extra_chars();
    let all = pool_picks(grapheme, word, sentence, incb_extend);
    assert(all == sg + sw + ss + sl + se + x);
    let p1 = sg + sw;
    let p2 = p1 + ss;
    let p3 = p2 + sl;
    let p4 = p3 + se;
    lemma_within_concat(sg, sw);
    lemma_within_concat(p1, ss);
    lemma_within_concat(p2, sl);
    lemma_within_concat(p3, se);
    lemma_within_concat(p4, x);
    lemma_within_trans(p3, p4, all);
    lemma_within_trans(p2, p3, all);
    lemma_within_trans(p1, p2, all);
    lemma_within_trans(sg, p1, all);
    lemma_within_trans(sw, p1, all);
    lemma_within_trans(ss, p2, all);
    lemma_within_trans(sl, p3, all);
    lemma_within_trans(se, p4, all);
    lemma_sample_covers(grapheme_values(grapheme));
    lemma_sample_covers(word_values(word));
    lemma_sample_covers(sentence_values(sentence));
    lemma_sample_covers(linker_values());
    lemma_sample_covers(flag_values(incb_extend));
    lemma_in_pool(pool, all, sg, grapheme_values(grapheme));
    lemma_in_pool(pool, all, sw, word_values(word));
    lemma_in_pool(pool, all, ss, sentence_values(sentence));
    lemma_in_pool(pool, all, sl, linker_values());
    lemma_in_pool(pool, all, se, flag_values(incb_extend));
    lemma_firsts_in_pool(pool, all, sg, grapheme_values(grapheme));
    lemma_firsts_in_pool(pool, all, sw, word_values(word));
    lemma_firsts_in_pool(pool, all, ss, sentence_values(sentence));
    lemma_firsts_in_pool(pool, all, sl, linker_values());
    lemma_firsts_in_pool(pool, all, se, flag_values(incb_extend));
}

proof fn lemma_firsts_in_pool(pool: Seq<char>, picks: Seq<char>, part: Seq<char>, val: spec_fn(char) -> u8)
    requires
        forall|c: char| pool.contains(c) <==> picks.contains(c),
        within(part, picks),
        part == sample(val),
    ensures
        forall|c: char| #[trigger] among_first(val, c) ==> pool.contains(c),
{
    reveal(within);
    assert forall|c: char| #[trigger] among_first(val, c) implies pool.contains(c) by {
        lemma_sample_keeps_first(val, c);
        assert(picks.contains(c));
    }
}

} // verus!
