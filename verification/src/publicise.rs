use vstd::prelude::*;
use crate::text::push_char;

verus! {

/// `s` split at every newline: one more piece than there are newlines.
pub open spec fn segments(s: Seq<char>) -> Seq<Seq<char>>
    decreases s.len(),
{
    if s.len() == 0 {
        seq![seq![]]
    } else if s.last() == '\n' {
        segments(s.drop_last()).push(seq![])
    } else {
        let p = segments(s.drop_last());
        p.drop_last().push(p.last().push(s.last()))
    }
}

/// The pieces `segs` put back together, a newline between each two.
pub open spec fn joined(segs: Seq<Seq<char>>) -> Seq<char>
    decreases segs.len(),
{
    if segs.len() <= 1 {
        if segs.len() == 1 {
            segs[0]
        } else {
            seq![]
        }
    } else {
        joined(segs.drop_last()) + seq!['\n'] + segs.last()
    }
}

/// Splitting at newlines loses nothing: the pieces hold no newline, and
/// joined by newlines they give the text back.
pub proof fn lemma_segments_join(s: Seq<char>)
    ensures
        segments(s).len() >= 1,
        joined(segments(s)) == s,
        forall|i: int| 0 <= i < segments(s).len() ==> !(#[trigger] segments(s)[i]).contains('\n'),
    decreases s.len(),
{
    if s.len() == 0 {
        assert(!seq![].contains('\n'));
        assert(segments(s)[0] == Seq::<char>::empty());
    } else {
        let p = segments(s.drop_last());
        lemma_segments_join(s.drop_last());
        let q = segments(s);
        if s.last() == '\n' {
            assert(q.drop_last() == p);
            assert(s =~= s.drop_last() + seq!['\n'] + q.last());
            assert forall|i: int| 0 <= i < q.len() implies !(#[trigger] q[i]).contains('\n') by {
                if i < p.len() {
                    assert(q[i] == p[i]);
                } else {
                    assert(q[i] =~= Seq::<char>::empty());
                }
            }
        } else {
            let l = p.last().push(s.last());
            assert(q == p.drop_last().push(l));
            assert(q.drop_last() == p.drop_last());
            if p.len() == 1 {
                assert(joined(p) == p[0]);
                assert(s =~= p[0].push(s.last()));
            } else {
                let head = joined(p.drop_last()) + seq!['\n'];
                assert(s.drop_last() == head + p.last());
                assert(s =~= s.drop_last().push(s.last()));
                assert(s =~= head + l);
                assert(joined(q) == joined(q.drop_last()) + seq!['\n'] + q.last());
            }
            assert forall|i: int| 0 <= i < q.len() implies !(#[trigger] q[i]).contains('\n') by {
                if i < p.len() - 1 {
                    assert(q[i] == p[i]);
                } else {
                    assert(q[i] == l);
                    assert(!p[p.len() - 1].contains('\n'));
                    if l.contains('\n') {
                        let k = choose|k: int| 0 <= k < l.len() && l[k] == '\n';
                        if k < l.len() - 1 {
                            assert(p.last()[k] == '\n');
                        }
                    }
                }
            }
        }
    }
}

/// A line ended by a newline, without the carriage return before it.
pub open spec fn strip_cr(line: Seq<char>) -> Seq<char> {
    if line.len() > 0 && line.last() == '\r' {
        line.drop_last()
    } else {
        line
    }
}

/// Whether `line` starts with `prefix`.
pub open spec fn has_prefix(line: Seq<char>, prefix: Seq<char>) -> bool {
    line.len() >= prefix.len() && line.take(prefix.len() as int) == prefix
}

/// The start of an inner attribute.
pub open spec fn inner_attribute() -> Seq<char> {
    seq!['#', '!', '[']
}

/// The starts of the module-level items that are made public.
pub open spec fn item_starts() -> Seq<Seq<char>> {
    seq![seq!['f', 'n', ' '], seq!['s', 't', 'a', 't', 'i', 'c', ' '], seq!['c', 'o', 'n', 's', 't', ' ']]
}

/// Whether `line` starts a module-level function, static or constant.
pub open spec fn starts_item(line: Seq<char>) -> bool {
    has_prefix(line, item_starts()[0]) || has_prefix(line, item_starts()[1]) || has_prefix(
        line,
        item_starts()[2],
    )
}

/// How one line is written: an inner attribute is dropped, a
/// module-level item gets `pub `, and each line kept ends with a newline.
pub open spec fn rewrite(line: Seq<char>) -> Seq<char> {
    if has_prefix(line, inner_attribute()) {
        seq![]
    } else if starts_item(line) {
        seq!['p', 'u', 'b', ' '] + line + seq!['\n']
    } else {
        line + seq!['\n']
    }
}

/// The lines ended by newlines, rewritten.
pub open spec fn rewritten(lines: Seq<Seq<char>>) -> Seq<char>
    decreases lines.len(),
{
    if lines.len() == 0 {
        seq![]
    } else {
        rewritten(lines.drop_last()) + rewrite(strip_cr(lines.last()))
    }
}

/// `text` with its module-level items made `pub` and its inner attributes
/// dropped, line by line; a last line without a newline is kept too, and
/// the text ends with a newline.
pub open spec fn publicised(text: Seq<char>) -> Seq<char> {
    let segs = segments(text);
    rewritten(segs.drop_last()) + if segs.last().len() > 0 {
        rewrite(segs.last())
    } else {
        seq![]
    }
}

/// Whether `line` starts with `prefix`.
fn starts_with(line: &Vec<char>, prefix: &Vec<char>) -> (r: bool)
    ensures
        r == has_prefix(line@, prefix@),
{
    if line.len() < prefix.len() {
        return false;
    }
    let mut k: usize = 0;
    while k < prefix.len()
        invariant
            0 <= k <= prefix@.len(),
            prefix@.len() <= line@.len(),
            line@.take(k as int) == prefix@.take(k as int),
        decreases prefix@.len() - k,
    {
        if line[k] != prefix[k] {
            proof {
                assert(line@.take(prefix@.len() as int)[k as int] == line@[k as int]);
            }
            return false;
        }
        proof {
            assert(line@.take(k + 1) == line@.take(k as int).push(line@[k as int]));
            assert(prefix@.take(k + 1) == prefix@.take(k as int).push(prefix@[k as int]));
        }
        k += 1;
    }
    proof {
        assert(prefix@.take(k as int) == prefix@);
    }
    true
}

/// Appends the rewriting of `line`.
fn push_rewritten(out: &mut String, line: &Vec<char>)
    ensures
        final(out)@ == old(out)@ + rewrite(line@),
{
    let attribute = vec!['#', '!', '['];
    let function = vec!['f', 'n', ' '];
    let stat = vec!['s', 't', 'a', 't', 'i', 'c', ' '];
    let constant = vec!['c', 'o', 'n', 's', 't', ' '];
    proof {
        assert(attribute@ == inner_attribute());
        assert(function@ == item_starts()[0]);
        assert(stat@ == item_starts()[1]);
        assert(constant@ == item_starts()[2]);
    }
    if starts_with(line, &attribute) {
        return;
    }
    let ghost start = out@;
    if starts_with(line, &function) || starts_with(line, &stat) || starts_with(line, &constant) {
        push_char(out, 'p');
        push_char(out, 'u');
        push_char(out, 'b');
        push_char(out, ' ');
    }
    let ghost mid = out@;
    let mut k: usize = 0;
    while k < line.len()
        invariant
            0 <= k <= line@.len(),
            out@ == mid + line@.take(k as int),
        decreases line@.len() - k,
    {
        push_char(out, line[k]);
        proof {
            assert(line@.take(k + 1) == line@.take(k as int).push(line@[k as int]));
        }
        k += 1;
    }
    push_char(out, '\n');
    proof {
        assert(line@.take(k as int) == line@);
    }
}

/// `text` with its module-level items made `pub`, so that they can be
/// named from outside the module it is included into; inner attributes are
/// dropped, since an included file cannot hold them.
pub fn publicise(text: &str) -> (out: String)
    ensures
        out@ == publicised(text@),
{
    let mut out = String::new();
    let mut line: Vec<char> = Vec::new();
    let ghost chars = text@;
    let ghost mut i: int = 0;
    for c in it: text.chars()
        invariant
            chars == text@,
            it.seq() == chars,
            i == it.index(),
            0 <= i <= chars.len(),
            segments(chars.take(i)).len() > 0,
            out@ == rewritten(segments(chars.take(i)).drop_last()),
            line@ == segments(chars.take(i)).last(),
    {
        let ghost before = segments(chars.take(i));
        proof {
            assert(chars.take(i + 1).drop_last() == chars.take(i));
            assert(chars.take(i + 1).last() == c);
        }
        if c == '\n' {
            let ghost lines = before;
            let mut done = Vec::new();
            if line.len() > 0 && line[line.len() - 1] == '\r' {
                line.pop();
            }
            std::mem::swap(&mut done, &mut line);
            proof {
                assert(done@ == strip_cr(lines.last()));
            }
            push_rewritten(&mut out, &done);
            proof {
                let after = segments(chars.take(i + 1));
                assert(after == lines.push(seq![]));
                assert(after.drop_last() == lines);
                assert(line@ == after.last());
            }
        } else {
            line.push(c);
            proof {
                let after = segments(chars.take(i + 1));
                assert(after.drop_last() == before.drop_last());
                assert(line@ == after.last());
            }
        }
        proof {
            i = i + 1;
        }
    }
    proof {
        assert(chars.take(i) == chars);
    }
    if line.len() > 0 {
        push_rewritten(&mut out, &line);
    }
    out
}

/// How each line is rewritten: a line that starts an inner attribute
/// (`#![`) is dropped; every other line is kept whole and ends with a
/// newline, with `pub ` before it exactly when it starts a module-level
/// `fn`, `static` or `const`.
pub proof fn lemma_rewrite_keeps_lines(line: Seq<char>)
    ensures
        line.len() >= 3 && line.take(3) == seq!['#', '!', '['] ==> rewrite(line).len() == 0,
        !(line.len() >= 3 && line.take(3) == seq!['#', '!', '[']) ==> {
            let starts = (line.len() >= 3 && line.take(3) == seq!['f', 'n', ' ']) || (line.len() >= 7
                && line.take(7) == seq!['s', 't', 'a', 't', 'i', 'c', ' ']) || (line.len() >= 6
                && line.take(6) == seq!['c', 'o', 'n', 's', 't', ' ']);
            &&& starts ==> rewrite(line) == seq!['p', 'u', 'b', ' '] + line + seq!['\n']
            &&& !starts ==> rewrite(line) == line + seq!['\n']
        },
{
    assert(item_starts()[0] == seq!['f', 'n', ' ']);
    assert(item_starts()[1] == seq!['s', 't', 'a', 't', 'i', 'c', ' ']);
    assert(item_starts()[2] == seq!['c', 'o', 'n', 's', 't', ' ']);
}

} // verus!
