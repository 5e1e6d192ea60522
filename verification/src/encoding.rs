use vstd::prelude::*;
use crate::text::{ascii, push_char};
use crate::order::{bytes_lt, text_lt};
use vstd::utf8::encode_utf8;

verus! {

/// 64 to the power `n`.
pub open spec fn pow64(n: nat) -> nat
    decreases n,
{
    if n == 0 {
        1
    } else {
        64 * pow64((n - 1) as nat)
    }
}

/// The powers of 64 that the record widths use.
pub proof fn lemma_pow64_values()
    ensures
        pow64(1) == 64,
        pow64(3) == 262144,
        pow64(4) == 16777216,
{
    reveal_with_fuel(pow64, 5);
}

/// The character for base-64 digit `d < 64`: `'0' + d`, so `'0'` to `'o'`,
/// one contiguous run of ASCII.
pub open spec fn digit64(d: nat) -> char {
    ascii(48 + d as int)
}

/// The `n` lowest base-64 digits of `v`, most significant first.
pub open spec fn base64_digits(v: nat, n: nat) -> Seq<char>
    decreases n,
{
    if n == 0 {
        seq![]
    } else {
        base64_digits(v / 64, (n - 1) as nat).push(digit64(v % 64))
    }
}

/// The number that a string of base-64 digits stands for, most significant
/// first.
pub open spec fn decode64(s: Seq<char>) -> int
    decreases s.len(),
{
    if s.len() == 0 {
        0
    } else {
        decode64(s.drop_last()) * 64 + (s.last() as int - 48)
    }
}

/// Appends the `n` lowest base-64 digits of `v`.
fn push_digits(out: &mut String, v: u64, n: u32)
    ensures
        final(out)@ == old(out)@ + base64_digits(v as nat, n as nat),
    decreases n,
{
    if n > 0 {
        push_digits(out, v / 64, n - 1);
        let d = (v % 64) as u8;
        push_char(out, (48u8 + d) as char);
    }
}

/// Appends `value` as `digits` base-64 digits, most significant first, each
/// digit the character `'0' + d`. The value must fit in that many digits.
pub fn digits(out: &mut String, value: u64, digits: u32)
    requires
        digits <= 10,
        value < pow64(digits as nat),
    ensures
        final(out)@ == old(out)@ + base64_digits(value as nat, digits as nat),
{
    push_digits(out, value, digits);
}

/// Digits have the length asked for.
pub proof fn lemma_digits_len(v: nat, n: nat)
    ensures
        base64_digits(v, n).len() == n,
    decreases n,
{
    if n > 0 {
        lemma_digits_len(v / 64, (n - 1) as nat);
    }
}

/// Every digit is one of the characters `'0'` to `'o'`.
pub proof fn lemma_digits_alphabet(v: nat, n: nat)
    ensures
        forall|i: int|
            0 <= i < base64_digits(v, n).len() ==> 48 <= #[trigger] base64_digits(v, n)[i] as int
                <= 111,
    decreases n,
{
    if n > 0 {
        lemma_digits_alphabet(v / 64, (n - 1) as nat);
        let s = base64_digits(v / 64, (n - 1) as nat);
        assert forall|i: int|
            0 <= i < base64_digits(v, n).len() implies 48 <= #[trigger] base64_digits(
            v,
            n,
        )[i] as int <= 111 by {
            if i < s.len() {
                assert(base64_digits(v, n)[i] == s[i]);
            }
        }
    }
}

/// Reading the digits back gives the value: the encoding loses nothing for
/// a value that fits.
pub proof fn lemma_digits_roundtrip(v: nat, n: nat)
    requires
        v < pow64(n),
    ensures
        decode64(base64_digits(v, n)) == v,
    decreases n,
{
    if n > 0 {
        let p = pow64((n - 1) as nat);
        assert(v / 64 < p) by (nonlinear_arith)
            requires
                v < 64 * p,
        ;
        lemma_digits_roundtrip(v / 64, (n - 1) as nat);
        let s = base64_digits(v, n);
        assert(s.drop_last() == base64_digits(v / 64, (n - 1) as nat));
    } else {
        assert(v == 0);
    }
}

/// The base-64 records of `list`, three digits each.
pub open spec fn items3(list: Seq<usize>) -> Seq<char>
    decreases list.len(),
{
    if list.len() == 0 {
        seq![]
    } else {
        items3(list.drop_last()) + base64_digits(list.last() as nat, 3)
    }
}

/// A list of offsets: its length in three digits, then each offset in three.
pub open spec fn offsets_text(list: Seq<usize>) -> Seq<char> {
    base64_digits(list.len() as nat, 3) + items3(list)
}

/// The base-64 records of `list`, each pair as two three-digit numbers.
pub open spec fn pair_items(list: Seq<(usize, usize)>) -> Seq<char>
    decreases list.len(),
{
    if list.len() == 0 {
        seq![]
    } else {
        pair_items(list.drop_last()) + base64_digits(list.last().0 as nat, 3) + base64_digits(
            list.last().1 as nat,
            3,
        )
    }
}

/// A list of pairs: its length in three digits, then each pair in six.
pub open spec fn pairs_text(list: Seq<(usize, usize)>) -> Seq<char> {
    base64_digits(list.len() as nat, 3) + pair_items(list)
}

/// Whether every number of `list` fits in three digits.
pub open spec fn fits3(list: Seq<usize>) -> bool {
    forall|i: int| 0 <= i < list.len() ==> (#[trigger] list[i]) < pow64(3)
}

/// Whether both numbers of every pair fit in three digits.
pub open spec fn pairs_fit3(list: Seq<(usize, usize)>) -> bool {
    forall|i: int|
        0 <= i < list.len() ==> (#[trigger] list[i]).0 < pow64(3) && list[i].1 < pow64(3)
}

/// Appends `list` as its length and its items, three base-64 digits each.
pub fn offsets(out: &mut String, list: &[usize])
    requires
        list@.len() < pow64(3),
        fits3(list@),
    ensures
        final(out)@ == old(out)@ + offsets_text(list@),
{
    let ghost start = out@;
    digits(out, list.len() as u64, 3);
    let ghost head = out@;
    let mut i: usize = 0;
    while i < list.len()
        invariant
            0 <= i <= list@.len(),
            fits3(list@),
            head == start + base64_digits(list@.len() as nat, 3),
            out@ == head + items3(list@.take(i as int)),
        decreases list@.len() - i,
    {
        proof {
            assert(list@.take(i + 1).drop_last() == list@.take(i as int));
            assert(list@[i as int] < pow64(3));
        }
        digits(out, list[i] as u64, 3);
        i += 1;
    }
    proof {
        assert(list@.take(i as int) == list@);
    }
}

/// Appends `list` as its length and its pairs, three base-64 digits per
/// number.
pub fn pairs(out: &mut String, list: &[(usize, usize)])
    requires
        list@.len() < pow64(3),
        pairs_fit3(list@),
    ensures
        final(out)@ == old(out)@ + pairs_text(list@),
{
    let ghost start = out@;
    digits(out, list.len() as u64, 3);
    let ghost head = out@;
    let mut i: usize = 0;
    while i < list.len()
        invariant
            0 <= i <= list@.len(),
            pairs_fit3(list@),
            head == start + base64_digits(list@.len() as nat, 3),
            out@ == head + pair_items(list@.take(i as int)),
        decreases list@.len() - i,
    {
        proof {
            assert(list@.take(i + 1).drop_last() == list@.take(i as int));
            assert(list@[i as int].0 < pow64(3));
        }
        let (a, b) = list[i];
        digits(out, a as u64, 3);
        digits(out, b as u64, 3);
        i += 1;
    }
    proof {
        assert(list@.take(i as int) == list@);
    }
}

/// One record of a value table: `lo` and `hi` in four digits, the value in
/// one.
pub open spec fn value_record(run: (u32, u32, u8)) -> Seq<char> {
    base64_digits(run.0 as nat, 4) + base64_digits(run.1 as nat, 4) + base64_digits(
        run.2 as nat,
        1,
    )
}

/// The records of a value table, one after another.
pub open spec fn value_records(runs: Seq<(u32, u32, u8)>) -> Seq<char>
    decreases runs.len(),
{
    if runs.len() == 0 {
        seq![]
    } else {
        value_records(runs.drop_last()) + value_record(runs.last())
    }
}

/// One record of a range table: `lo` and `hi` in four digits each.
pub open spec fn range_record(run: (u32, u32, bool)) -> Seq<char> {
    base64_digits(run.0 as nat, 4) + base64_digits(run.1 as nat, 4)
}

/// The records of a range table, one after another.
pub open spec fn range_records(runs: Seq<(u32, u32, bool)>) -> Seq<char>
    decreases runs.len(),
{
    if runs.len() == 0 {
        seq![]
    } else {
        range_records(runs.drop_last()) + range_record(runs.last())
    }
}

/// Whether every run of a value table fits its record: bounds in four
/// digits, the value in one.
pub open spec fn value_runs_fit(runs: Seq<(u32, u32, u8)>) -> bool {
    forall|i: int|
        0 <= i < runs.len() ==> (#[trigger] runs[i]).0 < pow64(4) && runs[i].1 < pow64(4)
            && runs[i].2 < 64
}

/// Whether every run of a range table fits its record.
pub open spec fn range_runs_fit(runs: Seq<(u32, u32, bool)>) -> bool {
    forall|i: int| 0 <= i < runs.len() ==> (#[trigger] runs[i]).0 < pow64(4) && runs[i].1 < pow64(4)
}

/// The runs of a value table as fixed-width records of nine digits.
pub fn value_table(runs: &[(u32, u32, u8)]) -> (s: String)
    requires
        value_runs_fit(runs@),
    ensures
        s@ == value_records(runs@),
{
    let mut s = String::new();
    let mut i: usize = 0;
    while i < runs.len()
        invariant
            0 <= i <= runs@.len(),
            value_runs_fit(runs@),
            s@ == value_records(runs@.take(i as int)),
        decreases runs@.len() - i,
    {
        proof {
            assert(runs@.take(i + 1).drop_last() == runs@.take(i as int));
            assert(runs@[i as int].0 < pow64(4));
            lemma_pow64_values();
        }
        let (lo, hi, v) = runs[i];
        digits(&mut s, lo as u64, 4);
        digits(&mut s, hi as u64, 4);
        digits(&mut s, v as u64, 1);
        i += 1;
    }
    proof {
        assert(runs@.take(i as int) == runs@);
    }
    s
}

/// The runs of a range table as fixed-width records of eight digits: only
/// the bounds, since every listed code point has the property.
pub fn range_table(runs: &[(u32, u32, bool)]) -> (s: String)
    requires
        range_runs_fit(runs@),
    ensures
        s@ == range_records(runs@),
{
    let mut s = String::new();
    let mut i: usize = 0;
    while i < runs.len()
        invariant
            0 <= i <= runs@.len(),
            range_runs_fit(runs@),
            s@ == range_records(runs@.take(i as int)),
        decreases runs@.len() - i,
    {
        proof {
            assert(runs@.take(i + 1).drop_last() == runs@.take(i as int));
            assert(runs@[i as int].0 < pow64(4));
        }
        let (lo, hi, _) = runs[i];
        digits(&mut s, lo as u64, 4);
        digits(&mut s, hi as u64, 4);
        i += 1;
    }
    proof {
        assert(runs@.take(i as int) == runs@);
    }
    s
}

/// A value table has nine digits per run.
pub proof fn lemma_value_records_len(runs: Seq<(u32, u32, u8)>)
    ensures
        value_records(runs).len() == 9 * runs.len(),
    decreases runs.len(),
{
    if runs.len() > 0 {
        lemma_value_records_len(runs.drop_last());
        let r = runs.last();
        lemma_digits_len(r.0 as nat, 4);
        lemma_digits_len(r.1 as nat, 4);
        lemma_digits_len(r.2 as nat, 1);
    }
}

/// Record `i` of a value table stands at digit `9 * i`.
pub proof fn lemma_value_record_at(runs: Seq<(u32, u32, u8)>, i: int)
    requires
        0 <= i < runs.len(),
    ensures
        value_records(runs).subrange(9 * i, 9 * i + 9) == value_record(runs[i]),
    decreases runs.len(),
{
    let prefix = runs.drop_last();
    lemma_value_records_len(prefix);
    let r = runs.last();
    lemma_digits_len(r.0 as nat, 4);
    lemma_digits_len(r.1 as nat, 4);
    lemma_digits_len(r.2 as nat, 1);
    if i == runs.len() - 1 {
        assert(value_records(runs).subrange(9 * i, 9 * i + 9) =~= value_record(r));
    } else {
        lemma_value_record_at(prefix, i);
        lemma_value_records_len(prefix);
        assert(9 * i + 9 <= 9 * prefix.len());
        assert(value_records(runs).subrange(9 * i, 9 * i + 9) =~= value_records(prefix).subrange(
            9 * i,
            9 * i + 9,
        ));
    }
}

/// A value table is read in place: run `i` is the digits from `9 * i`,
/// four for `lo`, four for `hi` and one for the value.
pub proof fn lemma_value_table_read(runs: Seq<(u32, u32, u8)>, i: int)
    requires
        value_runs_fit(runs),
        0 <= i < runs.len(),
    ensures
        value_records(runs).len() == 9 * runs.len(),
        decode64(value_records(runs).subrange(9 * i, 9 * i + 4)) == runs[i].0,
        decode64(value_records(runs).subrange(9 * i + 4, 9 * i + 8)) == runs[i].1,
        decode64(value_records(runs).subrange(9 * i + 8, 9 * i + 9)) == runs[i].2,
{
    lemma_value_records_len(runs);
    lemma_value_record_at(runs, i);
    lemma_pow64_values();
    let r = runs[i];
    let rec = value_records(runs);
    lemma_digits_len(r.0 as nat, 4);
    lemma_digits_len(r.1 as nat, 4);
    lemma_digits_len(r.2 as nat, 1);
    lemma_digits_roundtrip(r.0 as nat, 4);
    lemma_digits_roundtrip(r.1 as nat, 4);
    lemma_digits_roundtrip(r.2 as nat, 1);
    let one = rec.subrange(9 * i, 9 * i + 9);
    assert(one == value_record(r));
    assert(one.subrange(0, 4) =~= base64_digits(r.0 as nat, 4));
    assert(one.subrange(4, 8) =~= base64_digits(r.1 as nat, 4));
    assert(one.subrange(8, 9) =~= base64_digits(r.2 as nat, 1));
    assert(rec.subrange(9 * i, 9 * i + 4) =~= one.subrange(0, 4));
    assert(rec.subrange(9 * i + 4, 9 * i + 8) =~= one.subrange(4, 8));
    assert(rec.subrange(9 * i + 8, 9 * i + 9) =~= one.subrange(8, 9));
}

/// A range table has eight digits per run.
pub proof fn lemma_range_records_len(runs: Seq<(u32, u32, bool)>)
    ensures
        range_records(runs).len() == 8 * runs.len(),
    decreases runs.len(),
{
    if runs.len() > 0 {
        lemma_range_records_len(runs.drop_last());
        let r = runs.last();
        lemma_digits_len(r.0 as nat, 4);
        lemma_digits_len(r.1 as nat, 4);
    }
}

/// Record `i` of a range table stands at digit `8 * i`.
pub proof fn lemma_range_record_at(runs: Seq<(u32, u32, bool)>, i: int)
    requires
        0 <= i < runs.len(),
    ensures
        range_records(runs).subrange(8 * i, 8 * i + 8) == range_record(runs[i]),
    decreases runs.len(),
{
    let prefix = runs.drop_last();
    lemma_range_records_len(prefix);
    let r = runs.last();
    lemma_digits_len(r.0 as nat, 4);
    lemma_digits_len(r.1 as nat, 4);
    if i == runs.len() - 1 {
        assert(range_records(runs).subrange(8 * i, 8 * i + 8) =~= range_record(r));
    } else {
        lemma_range_record_at(prefix, i);
        assert(8 * i + 8 <= 8 * prefix.len());
        assert(range_records(runs).subrange(8 * i, 8 * i + 8) =~= range_records(prefix).subrange(
            8 * i,
            8 * i + 8,
        ));
    }
}

/// A range table is read in place: run `i` is the digits from `8 * i`,
/// four for `lo` and four for `hi`.
pub proof fn lemma_range_table_read(runs: Seq<(u32, u32, bool)>, i: int)
    requires
        range_runs_fit(runs),
        0 <= i < runs.len(),
    ensures
        range_records(runs).len() == 8 * runs.len(),
        decode64(range_records(runs).subrange(8 * i, 8 * i + 4)) == runs[i].0,
        decode64(range_records(runs).subrange(8 * i + 4, 8 * i + 8)) == runs[i].1,
{
    lemma_range_records_len(runs);
    lemma_range_record_at(runs, i);
    lemma_pow64_values();
    let r = runs[i];
    let rec = range_records(runs);
    lemma_digits_len(r.0 as nat, 4);
    lemma_digits_len(r.1 as nat, 4);
    lemma_digits_roundtrip(r.0 as nat, 4);
    lemma_digits_roundtrip(r.1 as nat, 4);
    let one = rec.subrange(8 * i, 8 * i + 8);
    assert(one == range_record(r));
    assert(one.subrange(0, 4) =~= base64_digits(r.0 as nat, 4));
    assert(one.subrange(4, 8) =~= base64_digits(r.1 as nat, 4));
    assert(rec.subrange(8 * i, 8 * i + 4) =~= one.subrange(0, 4));
    assert(rec.subrange(8 * i + 4, 8 * i + 8) =~= one.subrange(4, 8));
}

pub proof fn lemma_items3_len(list: Seq<usize>)
    ensures
        items3(list).len() == 3 * list.len(),
    decreases list.len(),
{
    if list.len() > 0 {
        lemma_items3_len(list.drop_last());
        lemma_digits_len(list.last() as nat, 3);
    }
}

proof fn lemma_items3_at(list: Seq<usize>, k: int)
    requires
        0 <= k < list.len(),
    ensures
        items3(list).subrange(3 * k, 3 * k + 3) == base64_digits(list[k] as nat, 3),
    decreases list.len(),
{
    let prefix = list.drop_last();
    lemma_items3_len(prefix);
    lemma_digits_len(list.last() as nat, 3);
    if k == list.len() - 1 {
        assert(items3(list).subrange(3 * k, 3 * k + 3) =~= base64_digits(list[k] as nat, 3));
    } else {
        lemma_items3_at(prefix, k);
        assert(items3(list).subrange(3 * k, 3 * k + 3) =~= items3(prefix).subrange(3 * k, 3 * k + 3));
    }
}

/// A list of offsets is read back from its text: the count in the first
/// three digits, item `k` in the three digits from `3 + 3 * k`.
pub proof fn lemma_offsets_read(list: Seq<usize>, k: int)
    requires
        list.len() < pow64(3),
        fits3(list),
        0 <= k < list.len(),
    ensures
        offsets_text(list).len() == 3 + 3 * list.len(),
        decode64(offsets_text(list).subrange(0, 3)) == list.len(),
        decode64(offsets_text(list).subrange(3 + 3 * k, 6 + 3 * k)) == list[k],
{
    let t = offsets_text(list);
    lemma_items3_len(list);
    lemma_items3_at(list, k);
    lemma_digits_len(list.len() as nat, 3);
    lemma_digits_roundtrip(list.len() as nat, 3);
    assert(list[k] < pow64(3));
    lemma_digits_roundtrip(list[k] as nat, 3);
    assert(t.subrange(0, 3) =~= base64_digits(list.len() as nat, 3));
    assert(t.subrange(3 + 3 * k, 6 + 3 * k) =~= items3(list).subrange(3 * k, 3 * k + 3));
}

pub proof fn lemma_pair_items_len(list: Seq<(usize, usize)>)
    ensures
        pair_items(list).len() == 6 * list.len(),
    decreases list.len(),
{
    if list.len() > 0 {
        lemma_pair_items_len(list.drop_last());
        lemma_digits_len(list.last().0 as nat, 3);
        lemma_digits_len(list.last().1 as nat, 3);
    }
}

proof fn lemma_pair_items_at(list: Seq<(usize, usize)>, k: int)
    requires
        0 <= k < list.len(),
    ensures
        pair_items(list).subrange(6 * k, 6 * k + 6) == base64_digits(list[k].0 as nat, 3)
            + base64_digits(list[k].1 as nat, 3),
    decreases list.len(),
{
    let prefix = list.drop_last();
    lemma_pair_items_len(prefix);
    lemma_digits_len(list.last().0 as nat, 3);
    lemma_digits_len(list.last().1 as nat, 3);
    if k == list.len() - 1 {
        assert(pair_items(list).subrange(6 * k, 6 * k + 6) =~= base64_digits(list[k].0 as nat, 3)
            + base64_digits(list[k].1 as nat, 3));
    } else {
        lemma_pair_items_at(prefix, k);
        assert(pair_items(list).subrange(6 * k, 6 * k + 6) =~= pair_items(prefix).subrange(
            6 * k,
            6 * k + 6,
        ));
    }
}

/// A list of pairs is read back from its text: the count in the first three
/// digits, pair `k` in the six digits from `3 + 6 * k`.
pub proof fn lemma_pairs_read(list: Seq<(usize, usize)>, k: int)
    requires
        list.len() < pow64(3),
        pairs_fit3(list),
        0 <= k < list.len(),
    ensures
        pairs_text(list).len() == 3 + 6 * list.len(),
        decode64(pairs_text(list).subrange(0, 3)) == list.len(),
        decode64(pairs_text(list).subrange(3 + 6 * k, 6 + 6 * k)) == list[k].0,
        decode64(pairs_text(list).subrange(6 + 6 * k, 9 + 6 * k)) == list[k].1,
{
    let t = pairs_text(list);
    lemma_pair_items_len(list);
    lemma_pair_items_at(list, k);
    lemma_digits_len(list.len() as nat, 3);
    lemma_digits_len(list[k].0 as nat, 3);
    lemma_digits_len(list[k].1 as nat, 3);
    lemma_digits_roundtrip(list.len() as nat, 3);
    lemma_digits_roundtrip(list[k].0 as nat, 3);
    lemma_digits_roundtrip(list[k].1 as nat, 3);
    let one = pair_items(list).subrange(6 * k, 6 * k + 6);
    assert(one.subrange(0, 3) =~= base64_digits(list[k].0 as nat, 3));
    assert(one.subrange(3, 6) =~= base64_digits(list[k].1 as nat, 3));
    assert(t.subrange(0, 3) =~= base64_digits(list.len() as nat, 3));
    assert(t.subrange(3 + 6 * k, 6 + 6 * k) =~= one.subrange(0, 3));
    assert(t.subrange(6 + 6 * k, 9 + 6 * k) =~= one.subrange(3, 6));
}

/// The bytes of the `n` lowest base-64 digits of `v`.
pub open spec fn digit_bytes(v: nat, n: nat) -> Seq<u8>
    decreases n,
{
    if n == 0 {
        seq![]
    } else {
        digit_bytes(v / 64, (n - 1) as nat).push((48 + v % 64) as u8)
    }
}

proof fn lemma_digit_bytes_chars(v: nat, n: nat)
    ensures
        digit_bytes(v, n).len() == n,
        forall|i: int| 0 <= i < n ==> #[trigger] digit_bytes(v, n)[i] == base64_digits(v, n)[i] as u8,
    decreases n,
{
    if n > 0 {
        lemma_digit_bytes_chars(v / 64, (n - 1) as nat);
        lemma_digits_len(v / 64, (n - 1) as nat);
        let p = digit_bytes(v / 64, (n - 1) as nat);
        let q = base64_digits(v / 64, (n - 1) as nat);
        assert forall|i: int| 0 <= i < n implies #[trigger] digit_bytes(v, n)[i] == base64_digits(v, n)[i] as u8 by {
            if i < n - 1 {
                assert(digit_bytes(v, n)[i] == p[i]);
                assert(base64_digits(v, n)[i] == q[i]);
            } else {
                assert(base64_digits(v, n)[i] == digit64(v % 64));
                assert(digit64(v % 64) as u8 == (48 + v % 64) as u8);
            }
        }
    }
}

/// The digits are ASCII, so their UTF-8 bytes are their codes.
proof fn lemma_digits_encode(v: nat, n: nat)
    ensures
        encode_utf8(base64_digits(v, n)) == digit_bytes(v, n),
{
    let d = base64_digits(v, n);
    lemma_digits_len(v, n);
    lemma_digits_alphabet(v, n);
    lemma_digit_bytes_chars(v, n);
    assert(vstd::utf8::is_ascii_chars(d));
    vstd::utf8::is_ascii_chars_encode_utf8(d);
    assert(encode_utf8(d) =~= digit_bytes(v, n));
}

/// Appending one byte to two sequences of the same length: the first comes
/// before the second if it did already, or if they were equal and its new
/// byte is the smaller.
proof fn lemma_bytes_lt_push(x: Seq<u8>, y: Seq<u8>, a: u8, b: u8)
    requires
        x.len() == y.len(),
    ensures
        bytes_lt(x.push(a), y.push(b)) == (bytes_lt(x, y) || (x == y && a < b)),
    decreases x.len(),
{
    let xa = x.push(a);
    let yb = y.push(b);
    if x.len() == 0 {
        assert(x =~= y);
        assert(xa.drop_first() =~= seq![]);
        assert(yb.drop_first() =~= seq![]);
        assert(!bytes_lt(xa.drop_first(), yb.drop_first()));
        assert(!bytes_lt(x, y));
        assert(xa[0] == a && yb[0] == b);
    } else {
        assert(xa[0] == x[0]);
        assert(yb[0] == y[0]);
        if x[0] == y[0] {
            assert(xa.drop_first() == x.drop_first().push(a));
            assert(yb.drop_first() == y.drop_first().push(b));
            lemma_bytes_lt_push(x.drop_first(), y.drop_first(), a, b);
            if x.drop_first() == y.drop_first() {
                assert(x == seq![x[0]] + x.drop_first());
                assert(y == seq![y[0]] + y.drop_first());
            }
            if x == y {
                assert(x.drop_first() == y.drop_first());
            }
        } else {
            assert(x != y);
        }
    }
}

proof fn lemma_digit_bytes_order(a: nat, b: nat, n: nat)
    requires
        a < b < pow64(n),
    ensures
        bytes_lt(digit_bytes(a, n), digit_bytes(b, n)),
    decreases n,
{
    if n == 0 {
        assert(false);
    } else {
        let p = pow64((n - 1) as nat);
        assert(b / 64 < p) by (nonlinear_arith)
            requires
                b < 64 * p,
        ;
        assert(a / 64 <= b / 64) by (nonlinear_arith)
            requires
                a < b,
        ;
        lemma_digit_bytes_chars(a / 64, (n - 1) as nat);
        lemma_digit_bytes_chars(b / 64, (n - 1) as nat);
        let x = digit_bytes(a / 64, (n - 1) as nat);
        let y = digit_bytes(b / 64, (n - 1) as nat);
        lemma_bytes_lt_push(x, y, (48 + a % 64) as u8, (48 + b % 64) as u8);
        if a / 64 < b / 64 {
            lemma_digit_bytes_order(a / 64, b / 64, (n - 1) as nat);
        } else {
            assert(a % 64 < b % 64);
        }
    }
}

/// Fixed-width digits keep the order of numbers: for `a < b` that fit,
/// the digits of `a` come before those of `b` in the byte order of texts.
pub proof fn lemma_digits_order(a: nat, b: nat, n: nat)
    requires
        a < b < pow64(n),
    ensures
        text_lt(base64_digits(a, n), base64_digits(b, n)),
{
    lemma_digits_encode(a, n);
    lemma_digits_encode(b, n);
    lemma_digit_bytes_order(a, b, n);
}

} // verus!
