use vstd::prelude::*;
use vstd::string::StringSliceAdditionalSpecFns;
use vstd::utf8::encode_utf8;
use crate::unique::{increasing, lemma_increasing_unique, strict_order};

verus! {

/// Whether `a` comes before `b` in lexicographic byte order, the order of
/// strings.
pub open spec fn bytes_lt(a: Seq<u8>, b: Seq<u8>) -> bool
    decreases a.len(),
{
    if a.len() == 0 {
        b.len() > 0
    } else if b.len() == 0 {
        false
    } else if a[0] != b[0] {
        a[0] < b[0]
    } else {
        bytes_lt(a.drop_first(), b.drop_first())
    }
}

/// Whether text `a` comes before text `b`: by their UTF-8 bytes.
pub open spec fn text_lt(a: Seq<char>, b: Seq<char>) -> bool {
    bytes_lt(encode_utf8(a), encode_utf8(b))
}

/// Each string by its characters.
pub open spec fn texts(v: Seq<String>) -> Seq<Seq<char>> {
    v.map_values(|s: String| s@)
}

/// Whether `s` is strictly increasing in the order of texts: sorted, each
/// text once.
pub open spec fn strictly_sorted(s: Seq<Seq<char>>) -> bool {
    forall|i: int, j: int| 0 <= i < j < s.len() ==> text_lt(#[trigger] s[i], #[trigger] s[j])
}

/// Whether `a` is a proper prefix of `b`.
pub open spec fn proper_prefix(a: Seq<u8>, b: Seq<u8>) -> bool {
    a.len() < b.len() && b.take(a.len() as int) == a
}

/// Whether `a` and `b` first differ at index `k`, where `a` has the
/// smaller byte.
pub open spec fn first_smaller_at(a: Seq<u8>, b: Seq<u8>, k: int) -> bool {
    0 <= k < a.len() && k < b.len() && a.take(k) == b.take(k) && a[k] < b[k]
}

/// The byte order, stated whole: `a` comes before `b` exactly when it is
/// a proper prefix of `b`, or at the first index where they differ `a`
/// has the smaller byte.
pub proof fn lemma_bytes_lt_lexicographic(a: Seq<u8>, b: Seq<u8>)
    ensures
        bytes_lt(a, b) <==> (proper_prefix(a, b) || exists|k: int| #[trigger] first_smaller_at(a, b, k)),
    decreases a.len(),
{
    if a.len() == 0 {
        assert(b.take(0) =~= a);
    } else if b.len() == 0 {
    } else if a[0] != b[0] {
        if a[0] < b[0] {
            assert(a.take(0) =~= b.take(0));
            assert(first_smaller_at(a, b, 0));
        }
        if proper_prefix(a, b) {
            assert(b.take(a.len() as int)[0] == b[0]);
        }
        if exists|k: int| #[trigger] first_smaller_at(a, b, k) {
            let k = choose|k: int| #[trigger] first_smaller_at(a, b, k);
            if k > 0 {
                assert(a.take(k)[0] == b.take(k)[0]);
            }
        }
    } else {
        let a1 = a.drop_first();
        let b1 = b.drop_first();
        lemma_bytes_lt_lexicographic(a1, b1);
        if proper_prefix(a1, b1) {
            assert(b.take(a.len() as int) =~= seq![b[0]] + b1.take(a1.len() as int));
            assert(a =~= seq![a[0]] + a1);
        }
        if proper_prefix(a, b) {
            assert(b1.take(a1.len() as int) =~= b.take(a.len() as int).drop_first());
            assert(a1 =~= a.drop_first());
        }
        if exists|k: int| #[trigger] first_smaller_at(a1, b1, k) {
            let k = choose|k: int| #[trigger] first_smaller_at(a1, b1, k);
            assert(a.take(k + 1) =~= seq![a[0]] + a1.take(k));
            assert(b.take(k + 1) =~= seq![b[0]] + b1.take(k));
            assert(first_smaller_at(a, b, k + 1));
        }
        if exists|k: int| #[trigger] first_smaller_at(a, b, k) {
            let k = choose|k: int| #[trigger] first_smaller_at(a, b, k);
            if k == 0 {
                assert(false);
            } else {
                assert(a1.take(k - 1) =~= a.take(k).drop_first());
                assert(b1.take(k - 1) =~= b.take(k).drop_first());
                assert(first_smaller_at(a1, b1, k - 1));
            }
        }
    }
}

/// No sequence comes before itself.
pub proof fn lemma_bytes_lt_irreflexive(a: Seq<u8>)
    ensures
        !bytes_lt(a, a),
    decreases a.len(),
{
    if a.len() > 0 {
        lemma_bytes_lt_irreflexive(a.drop_first());
    }
}

/// The byte order is transitive.
pub proof fn lemma_bytes_lt_transitive(a: Seq<u8>, b: Seq<u8>, c: Seq<u8>)
    requires
        bytes_lt(a, b),
        bytes_lt(b, c),
    ensures
        bytes_lt(a, c),
    decreases a.len(),
{
    if a.len() > 0 && b.len() > 0 && c.len() > 0 && a[0] == b[0] && b[0] == c[0] {
        lemma_bytes_lt_transitive(a.drop_first(), b.drop_first(), c.drop_first());
    }
}

/// Two different sequences are ordered one way or the other.
pub proof fn lemma_bytes_lt_total(a: Seq<u8>, b: Seq<u8>)
    requires
        a != b,
    ensures
        bytes_lt(a, b) || bytes_lt(b, a),
    decreases a.len(),
{
    if a.len() == 0 {
        if b.len() == 0 {
            assert(a =~= b);
        }
    } else if b.len() == 0 {
    } else if a[0] == b[0] {
        if a.drop_first() == b.drop_first() {
            assert(a == seq![a[0]] + a.drop_first());
            assert(b == seq![b[0]] + b.drop_first());
        }
        lemma_bytes_lt_total(a.drop_first(), b.drop_first());
    }
}

/// Two different texts are ordered one way or the other.
pub proof fn lemma_text_lt_total(a: Seq<char>, b: Seq<char>)
    requires
        a != b,
    ensures
        text_lt(a, b) || text_lt(b, a),
{
    vstd::utf8::encode_utf8_decode_utf8(a);
    vstd::utf8::encode_utf8_decode_utf8(b);
    lemma_bytes_lt_total(encode_utf8(a), encode_utf8(b));
}

/// Whether `a` comes before `b` in byte order.
pub fn bytes_less(a: &[u8], b: &[u8]) -> (r: bool)
    ensures
        r == bytes_lt(a@, b@),
{
    let mut i: usize = 0;
    proof {
        assert(a@.skip(0) == a@);
        assert(b@.skip(0) == b@);
        assert(a@.take(0) =~= b@.take(0));
    }
    while i < a.len() && i < b.len()
        invariant
            0 <= i <= a@.len(),
            i <= b@.len(),
            a@.take(i as int) == b@.take(i as int),
            bytes_lt(a@, b@) == bytes_lt(a@.skip(i as int), b@.skip(i as int)),
        decreases a@.len() - i,
    {
        if a[i] != b[i] {
            proof {
                assert(a@.skip(i as int)[0] == a@[i as int]);
                assert(b@.skip(i as int)[0] == b@[i as int]);
            }
            return a[i] < b[i];
        }
        proof {
            assert(a@.skip(i as int).drop_first() == a@.skip(i + 1));
            assert(b@.skip(i as int).drop_first() == b@.skip(i + 1));
            assert(a@.skip(i as int)[0] == a@[i as int]);
            assert(b@.skip(i as int)[0] == b@[i as int]);
            assert(a@.take(i + 1) == a@.take(i as int).push(a@[i as int]));
            assert(b@.take(i + 1) == b@.take(i as int).push(b@[i as int]));
        }
        i += 1;
    }
    i < b.len()
}

/// The distinct texts of `v`, sorted in byte order.
pub fn sort_dedup_strings(v: Vec<String>) -> (out: Vec<String>)
    ensures
        strictly_sorted(texts(out@)),
        forall|t: Seq<char>| #[trigger] texts(out@).contains(t) <==> texts(v@).contains(t),
{
    let ghost vv = texts(v@);
    let mut out: Vec<String> = Vec::new();
    let mut i: usize = 0;
    while i < v.len()
        invariant
            0 <= i <= v@.len(),
            vv == texts(v@),
            strictly_sorted(texts(out@)),
            forall|t: Seq<char>| #[trigger] texts(out@).contains(t) <==> vv.take(i as int).contains(t),
        decreases v@.len() - i,
    {
        let ghost ov = texts(out@);
        let s = v[i].clone();
        let sb = s.as_str().as_bytes();
        let mut lo: usize = 0;
        let mut hi: usize = out.len();
        while lo < hi
            invariant
                0 <= lo <= hi <= out@.len(),
                ov == texts(out@),
                strictly_sorted(ov),
                sb@ == encode_utf8(s@),
                forall|k: int| 0 <= k < lo ==> text_lt(#[trigger] ov[k], s@),
                forall|k: int| hi <= k < ov.len() ==> !text_lt(#[trigger] ov[k], s@),
            decreases hi - lo,
        {
            let mid = lo + (hi - lo) / 2;
            let less = bytes_less(out[mid].as_str().as_bytes(), sb);
            proof {
                assert(ov[mid as int] == out@[mid as int]@);
            }
            if less {
                proof {
                    strictly_sorted_prefix(ov, mid as int, s@);
                }
                lo = mid + 1;
            } else {
                proof {
                    strictly_sorted_suffix(ov, mid as int, s@);
                }
                hi = mid;
            }
        }
        let p = lo;
        proof {
            assert(vv.take(i + 1) == vv.take(i as int).push(s@));
            assert(vv[i as int] == s@);
        }
        if p < out.len() && out[p] == s {
            proof {
                assert(ov[p as int] == s@);
                assert forall|t: Seq<char>| #[trigger] texts(out@).contains(t) <==> vv.take(i + 1).contains(t) by {
                    if t == s@ {
                        assert(vv.take(i + 1)[i as int] == t);
                    } else if vv.take(i + 1).contains(t) {
                        let k = choose|k: int| 0 <= k < vv.take(i + 1).len() && #[trigger] vv.take(i + 1)[k] == t;
                        assert(vv.take(i as int)[k] == t);
                    } else if ov.contains(t) {
                        let k = choose|k: int| 0 <= k < vv.take(i as int).len() && #[trigger] vv.take(i as int)[k] == t;
                        assert(vv.take(i + 1)[k] == t);
                    }
                }
            }
        } else {
            proof {
                if p < ov.len() {
                    assert(ov[p as int] == out@[p as int]@);
                    assert(ov[p as int] != s@);
                    lemma_text_lt_total(ov[p as int], s@);
                }
            }
            out.insert(p, s);
            proof {
                let nv = texts(out@);
                assert(nv == ov.insert(p as int, vv[i as int]));
                assert forall|a: int, b: int| 0 <= a < b < nv.len() implies text_lt(#[trigger] nv[a], #[trigger] nv[b]) by {
                    if b < p {
                        assert(nv[a] == ov[a] && nv[b] == ov[b]);
                    } else if b == p {
                        assert(nv[a] == ov[a]);
                    } else if a == p {
                        assert(nv[b] == ov[b - 1]);
                        if b - 1 > p {
                            lemma_bytes_lt_transitive(encode_utf8(s@), encode_utf8(ov[p as int]), encode_utf8(ov[b - 1]));
                        }
                    } else if a < p {
                        assert(nv[a] == ov[a] && nv[b] == ov[b - 1]);
                    } else {
                        assert(nv[a] == ov[a - 1] && nv[b] == ov[b - 1]);
                    }
                }
                assert forall|t: Seq<char>| #[trigger] nv.contains(t) <==> vv.take(i + 1).contains(t) by {
                    if t == s@ {
                        assert(nv[p as int] == t);
                        assert(vv.take(i + 1)[i as int] == t);
                    } else {
                        if nv.contains(t) {
                            let k = choose|k: int| 0 <= k < nv.len() && #[trigger] nv[k] == t;
                            if k < p {
                                assert(ov[k] == t);
                            } else {
                                assert(ov[k - 1] == t);
                            }
                            assert(ov.contains(t));
                            let k2 = choose|k2: int| 0 <= k2 < vv.take(i as int).len() && #[trigger] vv.take(i as int)[k2] == t;
                            assert(vv.take(i + 1)[k2] == t);
                        }
                        if vv.take(i + 1).contains(t) {
                            let k = choose|k: int| 0 <= k < vv.take(i + 1).len() && #[trigger] vv.take(i + 1)[k] == t;
                            assert(vv.take(i as int)[k] == t);
                            assert(ov.contains(t));
                            let m = choose|m: int| 0 <= m < ov.len() && #[trigger] ov[m] == t;
                            if m < p {
                                assert(nv[m] == t);
                            } else {
                                assert(nv[m + 1] == t);
                            }
                        }
                    }
                }
            }
        }
        i += 1;
    }
    proof {
        assert(vv.take(i as int) == vv);
    }
    out
}

proof fn strictly_sorted_prefix(s: Seq<Seq<char>>, m: int, t: Seq<char>)
    requires
        strictly_sorted(s),
        0 <= m < s.len(),
        text_lt(s[m], t),
    ensures
        forall|k: int| 0 <= k <= m ==> text_lt(#[trigger] s[k], t),
{
    assert forall|k: int| 0 <= k <= m implies text_lt(#[trigger] s[k], t) by {
        if k < m {
            lemma_bytes_lt_transitive(encode_utf8(s[k]), encode_utf8(s[m]), encode_utf8(t));
        }
    }
}

proof fn strictly_sorted_suffix(s: Seq<Seq<char>>, m: int, t: Seq<char>)
    requires
        strictly_sorted(s),
        0 <= m < s.len(),
        !text_lt(s[m], t),
    ensures
        forall|k: int| m <= k < s.len() ==> !text_lt(#[trigger] s[k], t),
{
    assert forall|k: int| m <= k < s.len() implies !text_lt(#[trigger] s[k], t) by {
        if k > m && text_lt(s[k], t) {
            lemma_bytes_lt_transitive(encode_utf8(s[m]), encode_utf8(s[k]), encode_utf8(t));
        }
    }
}

/// The distinct texts of `s` in byte order.
pub open spec fn sorted_texts(s: Seq<Seq<char>>) -> Seq<Seq<char>> {
    choose|r: Seq<Seq<char>>| strictly_sorted(r) && forall|t: Seq<char>| r.contains(t) <==> s.contains(t)
}

/// A strictly sorted sequence holding just the texts of `s` is
/// `sorted_texts(s)`: there is one such sequence.
pub proof fn lemma_sorted_texts(r: Seq<Seq<char>>, s: Seq<Seq<char>>)
    requires
        strictly_sorted(r),
        forall|t: Seq<char>| r.contains(t) <==> s.contains(t),
    ensures
        sorted_texts(s) == r,
{
    let lt = |x: Seq<char>, y: Seq<char>| text_lt(x, y);
    assert(strict_order(lt)) by {
        assert forall|x: Seq<char>| !#[trigger] lt(x, x) by {
            lemma_bytes_lt_irreflexive(encode_utf8(x));
        }
        assert forall|x: Seq<char>, y: Seq<char>, z: Seq<char>| #[trigger] lt(x, y) && #[trigger] lt(y, z) implies lt(x, z) by {
            lemma_bytes_lt_transitive(encode_utf8(x), encode_utf8(y), encode_utf8(z));
        }
    }
    let t = sorted_texts(s);
    assert(strictly_sorted(t) && forall|u: Seq<char>| t.contains(u) <==> s.contains(u));
    assert(increasing(r, lt)) by {
        assert forall|i: int, j: int| 0 <= i < j < r.len() implies lt(#[trigger] r[i], #[trigger] r[j]) by {
            assert(text_lt(r[i], r[j]));
        }
    }
    assert(increasing(t, lt)) by {
        assert forall|i: int, j: int| 0 <= i < j < t.len() implies lt(#[trigger] t[i], #[trigger] t[j]) by {
            assert(text_lt(t[i], t[j]));
        }
    }
    lemma_increasing_unique(t, r, lt);
}

/// `r` with `t` put in its place in byte order, unless it is there already.
pub open spec fn insert_text(r: Seq<Seq<char>>, t: Seq<char>) -> Seq<Seq<char>>
    decreases r.len(),
{
    if r.len() == 0 {
        seq![t]
    } else if r[0] == t {
        r
    } else if text_lt(t, r[0]) {
        seq![t] + r
    } else {
        seq![r[0]] + insert_text(r.drop_first(), t)
    }
}

/// The texts of `s` sorted in byte order, each once, by insertion.
pub open spec fn sort_texts(s: Seq<Seq<char>>) -> Seq<Seq<char>>
    decreases s.len(),
{
    if s.len() == 0 {
        seq![]
    } else {
        insert_text(sort_texts(s.drop_last()), s.last())
    }
}

proof fn lemma_text_lt_transitive(a: Seq<char>, b: Seq<char>, c: Seq<char>)
    requires
        text_lt(a, b),
        text_lt(b, c),
    ensures
        text_lt(a, c),
{
    lemma_bytes_lt_transitive(encode_utf8(a), encode_utf8(b), encode_utf8(c));
}

proof fn lemma_insert_text(r: Seq<Seq<char>>, t: Seq<char>)
    requires
        strictly_sorted(r),
    ensures
        strictly_sorted(insert_text(r, t)),
        forall|u: Seq<char>| #[trigger] insert_text(r, t).contains(u) <==> (r.contains(u) || u == t),
    decreases r.len(),
{
    let x = insert_text(r, t);
    if r.len() == 0 {
        assert(x == seq![t]);
        assert forall|u: Seq<char>| #[trigger] x.contains(u) <==> (r.contains(u) || u == t) by {
            if x.contains(u) {
                assert(x[0] == t);
            }
            if u == t {
                assert(x[0] == u);
            }
        }
    } else if r[0] == t {
        assert forall|u: Seq<char>| #[trigger] x.contains(u) <==> (r.contains(u) || u == t) by {
            if u == t {
                assert(r[0] == u);
            }
        }
    } else if text_lt(t, r[0]) {
        assert(x == seq![t] + r);
        assert forall|i: int, j: int| 0 <= i < j < x.len() implies text_lt(#[trigger] x[i], #[trigger] x[j]) by {
            if i == 0 {
                assert(x[j] == r[j - 1]);
                if j - 1 > 0 {
                    assert(text_lt(r[0], r[j - 1]));
                    lemma_text_lt_transitive(t, r[0], r[j - 1]);
                }
            } else {
                assert(x[i] == r[i - 1] && x[j] == r[j - 1]);
            }
        }
        assert forall|u: Seq<char>| #[trigger] x.contains(u) <==> (r.contains(u) || u == t) by {
            if x.contains(u) {
                let k = choose|k: int| 0 <= k < x.len() && x[k] == u;
                if k > 0 {
                    assert(r[k - 1] == u);
                }
            }
            if r.contains(u) {
                let k = choose|k: int| 0 <= k < r.len() && r[k] == u;
                assert(x[k + 1] == u);
            }
            if u == t {
                assert(x[0] == u);
            }
        }
    } else {
        let rest = r.drop_first();
        assert forall|i: int, j: int| 0 <= i < j < rest.len() implies text_lt(#[trigger] rest[i], #[trigger] rest[j]) by {
            assert(rest[i] == r[i + 1] && rest[j] == r[j + 1]);
        }
        lemma_insert_text(rest, t);
        let y = insert_text(rest, t);
        assert(x == seq![r[0]] + y);
        lemma_text_lt_total(t, r[0]);
        assert(text_lt(r[0], t));
        assert forall|u: Seq<char>| #[trigger] y.contains(u) implies text_lt(r[0], u) by {
            if u != t {
                assert(rest.contains(u));
                let k = choose|k: int| 0 <= k < rest.len() && rest[k] == u;
                assert(r[k + 1] == u);
                assert(text_lt(r[0], r[k + 1]));
            }
        }
        assert forall|i: int, j: int| 0 <= i < j < x.len() implies text_lt(#[trigger] x[i], #[trigger] x[j]) by {
            if i == 0 {
                assert(x[j] == y[j - 1]);
                assert(y.contains(y[j - 1]));
            } else {
                assert(x[i] == y[i - 1] && x[j] == y[j - 1]);
            }
        }
        assert forall|u: Seq<char>| #[trigger] x.contains(u) <==> (r.contains(u) || u == t) by {
            if x.contains(u) {
                let k = choose|k: int| 0 <= k < x.len() && x[k] == u;
                if k > 0 {
                    assert(y[k - 1] == u);
                    assert(y.contains(u));
                    if rest.contains(u) {
                        let m = choose|m: int| 0 <= m < rest.len() && rest[m] == u;
                        assert(r[m + 1] == u);
                    }
                } else {
                    assert(r[0] == u);
                }
            }
            if r.contains(u) {
                let k = choose|k: int| 0 <= k < r.len() && r[k] == u;
                if k == 0 {
                    assert(x[0] == u);
                } else {
                    assert(rest[k - 1] == u);
                    assert(rest.contains(u));
                    assert(y.contains(u));
                    let m = choose|m: int| 0 <= m < y.len() && y[m] == u;
                    assert(x[m + 1] == u);
                }
            }
            if u == t {
                assert(y.contains(u));
                let m = choose|m: int| 0 <= m < y.len() && y[m] == u;
                assert(x[m + 1] == u);
            }
        }
    }
}

proof fn lemma_sort_texts(s: Seq<Seq<char>>)
    ensures
        strictly_sorted(sort_texts(s)),
        forall|u: Seq<char>| #[trigger] sort_texts(s).contains(u) <==> s.contains(u),
    decreases s.len(),
{
    if s.len() > 0 {
        let p = s.drop_last();
        lemma_sort_texts(p);
        lemma_insert_text(sort_texts(p), s.last());
        assert forall|u: Seq<char>| #[trigger] sort_texts(s).contains(u) <==> s.contains(u) by {
            if s.contains(u) && u != s.last() {
                let k = choose|k: int| 0 <= k < s.len() && s[k] == u;
                assert(p[k] == u);
                assert(p.contains(u));
            }
            if p.contains(u) {
                let k = choose|k: int| 0 <= k < p.len() && p[k] == u;
                assert(s[k] == u);
            }
            if u == s.last() {
                assert(s[s.len() - 1] == u);
            }
        }
    } else {
        assert forall|u: Seq<char>| #[trigger] sort_texts(s).contains(u) <==> s.contains(u) by {}
    }
}

/// Every list of texts has its sorted form: `sorted_texts(s)` is strictly
/// sorted in byte order and holds just the texts of `s`, none lost.
pub proof fn lemma_sorted_texts_exist(s: Seq<Seq<char>>)
    ensures
        strictly_sorted(sorted_texts(s)),
        forall|t: Seq<char>| #[trigger] sorted_texts(s).contains(t) <==> s.contains(t),
{
    lemma_sort_texts(s);
    let w = sort_texts(s);
    assert(strictly_sorted(w) && forall|t: Seq<char>| w.contains(t) <==> s.contains(t));
}

} // verus!
