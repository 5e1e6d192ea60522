use vstd::prelude::*;
use vstd::laws_eq::obeys_concrete_eq;
use crate::text::{char_from_u32, same_char};
use crate::unique::{increasing, lemma_increasing_unique};

verus! {

broadcast use {vstd::utf8::char_is_scalar, vstd::utf8::char_u32_cast};

/// One past the largest code point.
pub const SCALARS: u32 = 0x11_0000;

/// Whether `f` can be called on every character.
pub open spec fn total<T, F: Fn(char) -> T>(f: F) -> bool {
    forall|c: char| f.requires((c,))
}

/// Whether `f` gives one value per character: two calls on the same
/// character give the same result.
pub open spec fn deterministic<T, F: Fn(char) -> T>(f: F) -> bool {
    forall|c: char, a: T, b: T| f.ensures((c,), a) && f.ensures((c,), b) ==> a == b
}

/// The value that `f` gives for `c`.
pub open spec fn value_at<T, F: Fn(char) -> T>(f: F, c: char) -> T {
    choose|v: T| f.ensures((c,), v)
}

/// Whether the code point `next` comes right after `hi` among the code
/// points that are characters: the surrogates are never asked about, so a
/// run may jump them.
pub open spec fn follows(hi: u32, next: u32) -> bool {
    hi + 1 == next || (hi == 0xD7FF && next == 0xE000)
}

/// Whether run `r` covers character `c`.
pub open spec fn covers<T>(r: (u32, u32, T), c: char) -> bool {
    r.0 <= c as u32 <= r.1
}

/// Whether `runs` are the maximal runs of code points with the same value
/// of `val`, leaving out those whose value is `skip`, for the characters
/// below `end`: sorted and apart, each run holding one value that is not
/// `skip` on all its characters, two neighbouring runs with the same value
/// never touching, and every character below `end` whose value is not
/// `skip` covered.
pub open spec fn runs_upto<T>(runs: Seq<(u32, u32, T)>, val: spec_fn(char) -> T, skip: T, end: u32) -> bool {
    &&& forall|i: int|
        0 <= i < runs.len() ==> (#[trigger] runs[i]).0 <= runs[i].1 < end && runs[i].2 != skip
            && vstd::utf8::is_scalar(runs[i].0) && vstd::utf8::is_scalar(runs[i].1)
    &&& forall|i: int, j: int| 0 <= i < j < runs.len() ==> (#[trigger] runs[i]).1 < (#[trigger] runs[j]).0
    &&& forall|i: int|
        0 <= i < runs.len() - 1 ==> !((#[trigger] runs[i]).2 == runs[i + 1].2 && follows(
            runs[i].1,
            runs[i + 1].0,
        ))
    &&& forall|i: int, c: char| 0 <= i < runs.len() && covers(#[trigger] runs[i], c) ==> #[trigger] val(c) == runs[i].2
    &&& forall|c: char|
        (c as u32) < end && #[trigger] val(c) != skip ==> exists|i: int|
            0 <= i < runs.len() && #[trigger] covers(runs[i], c)
}

/// `runs_upto` for every character.
pub open spec fn runs_of<T>(runs: Seq<(u32, u32, T)>, val: spec_fn(char) -> T, skip: T) -> bool {
    runs_upto(runs, val, skip, SCALARS)
}

proof fn lemma_value_at<T, F: Fn(char) -> T>(f: F, c: char, v: T)
    requires
        deterministic(f),
        f.ensures((c,), v),
    ensures
        value_at(f, c) == v,
{
}

/// Maximal runs of code points with the same value of `f`, leaving out
/// those whose value is `skip`: `(lo, hi, value)`.
pub fn value_runs<T: PartialEq + Copy, F: Fn(char) -> T>(f: F, skip: T) -> (out: Vec<(u32, u32, T)>)
    requires
        total(f),
        deterministic(f),
        obeys_concrete_eq::<T>(),
    ensures
        runs_of(out@, |c: char| value_at(f, c), skip),
        forall|c: char| f.ensures((c,), value_at(f, c)),
{
    let ghost val = |c: char| value_at(f, c);
    let mut out: Vec<(u32, u32, T)> = Vec::new();
    let mut cp: u32 = 0;
    proof {
        reveal(obeys_concrete_eq);
    }
    while cp < SCALARS
        invariant
            cp <= SCALARS,
            total(f),
            deterministic(f),
            obeys_concrete_eq::<T>(),
            val == (|c: char| value_at(f, c)),
            runs_upto(out@, val, skip, cp),
            forall|c: char| (c as u32) < cp ==> f.ensures((c,), value_at(f, c)),
        decreases SCALARS - cp,
    {
        proof {
            reveal(obeys_concrete_eq);
        }
        let next = cp + 1;
        let found = char_from_u32(cp);
        match found {
            None => {
                assert(!vstd::utf8::is_scalar(cp));
                assert forall|d: char| (d as u32) < next implies f.ensures((d,), value_at(f, d)) by {
                    vstd::utf8::char_is_scalar(d);
                }
                assert(runs_upto(out@, val, skip, next)) by {
                    assert forall|c: char|
                        (c as u32) < next && #[trigger] val(c) != skip implies exists|i: int|
                        0 <= i < out@.len() && #[trigger] covers(out@[i], c) by {
                        vstd::utf8::char_is_scalar(c);
                        assert(c as u32 != cp);
                    }
                }
            },
            Some(c) => {
                let v = f(c);
                proof {
                    lemma_value_at(f, c, v);
                    assert(val(c) == v);
                    assert forall|d: char| (d as u32) < next implies f.ensures((d,), value_at(f, d)) by {
                        if d as u32 == cp {
                            same_char(d, c);
                        }
                    }
                }
                if v == skip {
                    assert(runs_upto(out@, val, skip, next)) by {
                        assert forall|d: char|
                            (d as u32) < next && #[trigger] val(d) != skip implies exists|i: int|
                            0 <= i < out@.len() && #[trigger] covers(out@[i], d) by {
                            if d as u32 == cp {
                                same_char(d, c);
                            }
                        }
                    }
                } else {
                    let n = out.len();
                    let extend = n > 0 && out[n - 1].2 == v && (out[n - 1].1 + 1 == cp || (
                    out[n - 1].1 == 0xD7FF && cp == 0xE000));
                    let ghost old_out = out@;
                    if extend {
                        let (lo, hi, lv) = out[n - 1];
                        out.set(n - 1, (lo, cp, lv));
                        assert(runs_upto(out@, val, skip, next)) by {
                            assert forall|i: int, d: char|
                                0 <= i < out@.len() && covers(#[trigger] out@[i], d) implies #[trigger] val(
                                d,
                            ) == out@[i].2 by {
                                if i == n - 1 && d as u32 > hi {
                                    vstd::utf8::char_is_scalar(d);
                                    assert(d as u32 == cp);
                                    same_char(d, c);
                                } else if i == n - 1 {
                                    assert(covers(old_out[i], d));
                                } else {
                                    assert(covers(old_out[i], d));
                                }
                            }
                            assert forall|d: char|
                                (d as u32) < next && #[trigger] val(d) != skip implies exists|i: int|
                                0 <= i < out@.len() && #[trigger] covers(out@[i], d) by {
                                if d as u32 == cp {
                                    same_char(d, c);
                                    assert(covers(out@[n - 1], d));
                                } else {
                                    let i = choose|i: int|
                                        0 <= i < old_out.len() && #[trigger] covers(old_out[i], d);
                                    assert(covers(out@[i], d));
                                }
                            }
                            assert forall|i: int, j: int|
                                0 <= i < j < out@.len() implies (#[trigger] out@[i]).1 < (
                                #[trigger] out@[j]).0 by {
                                assert(old_out[i].1 < old_out[j].0);
                            }
                            assert forall|i: int|
                                0 <= i < out@.len() - 1 implies !((#[trigger] out@[i]).2
                                == out@[i + 1].2 && follows(out@[i].1, out@[i + 1].0)) by {
                                assert(old_out[i].2 == out@[i].2);
                                assert(old_out[i + 1].0 == out@[i + 1].0);
                                assert(old_out[i + 1].2 == out@[i + 1].2);
                            }
                        }
                    } else {
                        out.push((cp, cp, v));
                        assert(runs_upto(out@, val, skip, next)) by {
                            assert forall|i: int, d: char|
                                0 <= i < out@.len() && covers(#[trigger] out@[i], d) implies #[trigger] val(
                                d,
                            ) == out@[i].2 by {
                                if i == n {
                                    same_char(d, c);
                                } else {
                                    assert(covers(old_out[i], d));
                                }
                            }
                            assert forall|d: char|
                                (d as u32) < next && #[trigger] val(d) != skip implies exists|i: int|
                                0 <= i < out@.len() && #[trigger] covers(out@[i], d) by {
                                if d as u32 == cp {
                                    same_char(d, c);
                                    assert(covers(out@[n as int], d));
                                } else {
                                    let i = choose|i: int|
                                        0 <= i < old_out.len() && #[trigger] covers(old_out[i], d);
                                    assert(covers(out@[i], d));
                                }
                            }
                            assert forall|i: int, j: int|
                                0 <= i < j < out@.len() implies (#[trigger] out@[i]).1 < (
                                #[trigger] out@[j]).0 by {
                                if j < n {
                                    assert(old_out[i].1 < old_out[j].0);
                                } else {
                                    assert(old_out[i].1 < cp);
                                }
                            }
                            assert forall|i: int|
                                0 <= i < out@.len() - 1 implies !((#[trigger] out@[i]).2
                                == out@[i + 1].2 && follows(out@[i].1, out@[i + 1].0)) by {
                                if i + 1 < n {
                                    assert(old_out[i] == out@[i]);
                                    assert(old_out[i + 1] == out@[i + 1]);
                                }
                            }
                        }
                    }
                }
            },
        }
        cp = next;
    }
    proof {
        assert forall|c: char| f.ensures((c,), value_at(f, c)) by {
            vstd::utf8::char_is_scalar(c);
        }
    }
    out
}

/// The code point before scalar `lo` among the scalars.
pub open spec fn prev_scalar(lo: u32) -> u32 {
    if lo == 0xE000 {
        0xD7FF
    } else {
        (lo - 1) as u32
    }
}

/// The code point after scalar `hi` among the scalars.
pub open spec fn next_scalar(hi: u32) -> u32 {
    if hi == 0xD7FF {
        0xE000
    } else {
        (hi + 1) as u32
    }
}

proof fn lemma_prev_scalar(lo: u32, x: u32)
    requires
        vstd::utf8::is_scalar(lo),
        lo > 0,
    ensures
        vstd::utf8::is_scalar(prev_scalar(lo)),
        follows(prev_scalar(lo), lo),
        prev_scalar(lo) < lo,
        vstd::utf8::is_scalar(x) && x < lo ==> x <= prev_scalar(lo),
{
}

proof fn lemma_next_scalar(hi: u32, x: u32)
    requires
        vstd::utf8::is_scalar(hi),
        vstd::utf8::is_scalar(x),
        x > hi,
    ensures
        vstd::utf8::is_scalar(next_scalar(hi)),
        follows(hi, next_scalar(hi)),
        next_scalar(hi) > hi,
        x >= next_scalar(hi),
{
}

/// A run of one sequence of maximal runs starts where a run of the other
/// does.
proof fn lemma_run_start<T>(a: Seq<(u32, u32, T)>, b: Seq<(u32, u32, T)>, val: spec_fn(char) -> T, skip: T, i: int, j: int)
    requires
        runs_of(a, val, skip),
        runs_of(b, val, skip),
        0 <= i < a.len(),
        0 <= j < b.len(),
        covers(b[j], (a[i].0 as u32) as char),
    ensures
        b[j].0 == a[i].0,
{
    let lo = a[i].0;
    let c = (lo as u32) as char;
    assert(c as u32 == lo);
    if b[j].0 < lo {
        lemma_prev_scalar(lo, b[j].0);
        let p = prev_scalar(lo);
        let pc = (p as u32) as char;
        assert(pc as u32 == p);
        assert(covers(b[j], pc));
        assert(val(pc) == b[j].2);
        assert(val(c) == a[i].2);
        assert(val(c) == b[j].2);
        assert(val(pc) != skip);
        let k = choose|k: int| 0 <= k < a.len() && #[trigger] covers(a[k], pc);
        if k >= i {
            if k > i {
                assert(a[i].1 < a[k].0);
            }
            assert(false);
        }
        lemma_prev_scalar(lo, a[k].1);
        assert(a[k].1 == p);
        if k < i - 1 {
            assert(a[k].1 < a[k + 1].0);
            assert(a[k + 1].1 < a[i].0);
            lemma_prev_scalar(lo, a[k + 1].0);
            assert(false);
        }
        assert(covers(a[k], pc));
        assert(val(pc) == a[k].2);
        assert(!(a[i - 1].2 == a[i].2 && follows(a[i - 1].1, a[i].0)));
        assert(false);
    }
}

/// A run of one sequence of maximal runs ends no later than the run of the
/// other that covers its start.
proof fn lemma_run_end<T>(a: Seq<(u32, u32, T)>, b: Seq<(u32, u32, T)>, val: spec_fn(char) -> T, skip: T, i: int, j: int)
    requires
        runs_of(a, val, skip),
        runs_of(b, val, skip),
        0 <= i < a.len(),
        0 <= j < b.len(),
        covers(b[j], (a[i].0 as u32) as char),
    ensures
        b[j].1 <= a[i].1,
{
    let hi = a[i].1;
    let lo = a[i].0;
    let c = (lo as u32) as char;
    assert(c as u32 == lo);
    if b[j].1 > hi {
        lemma_next_scalar(hi, b[j].1);
        let n = next_scalar(hi);
        let nc = (n as u32) as char;
        assert(nc as u32 == n);
        assert(covers(b[j], nc));
        assert(val(nc) == b[j].2);
        assert(val(c) == a[i].2);
        assert(val(c) == b[j].2);
        assert(val(nc) != skip);
        let k = choose|k: int| 0 <= k < a.len() && #[trigger] covers(a[k], nc);
        if k <= i {
            if k < i {
                assert(a[k].1 < a[i].0);
            }
            assert(false);
        }
        lemma_next_scalar(hi, a[k].0);
        assert(a[i].1 < a[k].0);
        if k > i + 1 {
            assert(a[i].1 < a[i + 1].0);
            assert(a[i + 1].1 < a[k].0);
            lemma_next_scalar(hi, a[i + 1].0);
            assert(false);
        }
        assert(a[k].0 == n);
        assert(covers(a[k], nc));
        assert(val(nc) == a[k].2);
        assert(!(a[i].2 == a[i + 1].2 && follows(a[i].1, a[i + 1].0)));
        assert(false);
    }
}

proof fn lemma_run_in_other<T>(a: Seq<(u32, u32, T)>, b: Seq<(u32, u32, T)>, val: spec_fn(char) -> T, skip: T, i: int)
    requires
        runs_of(a, val, skip),
        runs_of(b, val, skip),
        0 <= i < a.len(),
    ensures
        b.contains(a[i]),
{
    let c = (a[i].0 as u32) as char;
    assert(c as u32 == a[i].0);
    assert(covers(a[i], c));
    assert(val(c) == a[i].2);
    let j = choose|j: int| 0 <= j < b.len() && #[trigger] covers(b[j], c);
    lemma_run_start(a, b, val, skip, i, j);
    lemma_run_end(a, b, val, skip, i, j);
    lemma_run_start(b, a, val, skip, j, i);
    lemma_run_end(b, a, val, skip, j, i);
    assert(val(c) == b[j].2);
    assert(b[j] == a[i]);
}

/// The maximal runs of a property are unique: two sequences that both
/// describe the same values as maximal runs are the same sequence.
pub proof fn lemma_runs_unique<T>(a: Seq<(u32, u32, T)>, b: Seq<(u32, u32, T)>, val: spec_fn(char) -> T, skip: T)
    requires
        runs_of(a, val, skip),
        runs_of(b, val, skip),
    ensures
        a == b,
{
    let lt = |x: (u32, u32, T), y: (u32, u32, T)| x.0 < y.0;
    assert forall|x: (u32, u32, T)| a.contains(x) <==> b.contains(x) by {
        if a.contains(x) {
            let i = choose|i: int| 0 <= i < a.len() && a[i] == x;
            lemma_run_in_other(a, b, val, skip, i);
        }
        if b.contains(x) {
            let j = choose|j: int| 0 <= j < b.len() && b[j] == x;
            lemma_run_in_other(b, a, val, skip, j);
        }
    }
    assert(increasing(a, lt)) by {
        assert forall|i: int, j: int| 0 <= i < j < a.len() implies lt(#[trigger] a[i], #[trigger] a[j]) by {
            assert(a[i].1 < a[j].0);
        }
    }
    assert(increasing(b, lt)) by {
        assert forall|i: int, j: int| 0 <= i < j < b.len() implies lt(#[trigger] b[i], #[trigger] b[j]) by {
            assert(b[i].1 < b[j].0);
        }
    }
    lemma_increasing_unique(a, b, lt);
}

/// The maximal runs of the values `val`, leaving out `skip`.
pub open spec fn maximal_runs<T>(val: spec_fn(char) -> T, skip: T) -> Seq<(u32, u32, T)> {
    choose|r: Seq<(u32, u32, T)>| runs_of(r, val, skip)
}

/// Where some runs describe `val`, they are its maximal runs.
pub proof fn lemma_maximal_runs<T>(r: Seq<(u32, u32, T)>, val: spec_fn(char) -> T, skip: T)
    requires
        runs_of(r, val, skip),
    ensures
        maximal_runs(val, skip) == r,
{
    lemma_runs_unique(maximal_runs(val, skip), r, val, skip);
}

} // verus!
