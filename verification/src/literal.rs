use vstd::prelude::*;
use crate::text::{hex_upper, push_char, push_hex};

verus! {

/// Whether the character at index `i` starts a new line of a literal
/// broken every `width` characters.
pub open spec fn starts_line(i: int, width: nat) -> bool {
    i > 0 && i % (width as int) == 0
}

/// A backslash, a newline and the indentation of a continued line.
pub open spec fn line_break() -> Seq<char> {
    seq!['\\', '\n', ' ', ' ', ' ', ' ']
}

/// Whether `c` is printable ASCII, from the space to the tilde.
pub open spec fn printable(c: char) -> bool {
    ' ' <= c && c <= '~'
}

/// How one character of the text is written in the literal: a quote, a
/// backslash and a dollar sign are escaped, a space that starts a line is
/// `\x20`, other printable ASCII stands as it is, and anything else is
/// `\u{..}` with its code point in upper-case hexadecimal.
pub open spec fn escape_char(c: char, at_line_start: bool) -> Seq<char> {
    if c == '"' {
        seq!['\\', '"']
    } else if c == '\\' {
        seq!['\\', '\\']
    } else if c == '$' {
        seq!['\\', '$']
    } else if c == ' ' && at_line_start {
        seq!['\\', 'x', '2', '0']
    } else if printable(c) {
        seq![c]
    } else {
        seq!['\\', 'u', '{'] + hex_upper(c as nat) + seq!['}']
    }
}

/// The text of character `c` at index `i`: a line break first where a line
/// starts, then the character's escape.
pub open spec fn literal_piece(c: char, i: int, width: nat) -> Seq<char> {
    if starts_line(i, width) {
        line_break() + escape_char(c, true)
    } else {
        escape_char(c, false)
    }
}

/// The inside of the literal for `s`, whose first character has index `i`
/// in the text.
pub open spec fn literal_body(s: Seq<char>, i: int, width: nat) -> Seq<char>
    decreases s.len(),
{
    if s.len() == 0 {
        seq![]
    } else {
        literal_piece(s[0], i, width) + literal_body(s.drop_first(), i + 1, width)
    }
}

/// `text` as one string literal, broken every `width` characters.
pub open spec fn literal(text: Seq<char>, width: nat) -> Seq<char> {
    seq!['"'] + literal_body(text, 0, width) + seq!['"']
}

/// Writing a text one character longer adds that character's piece.
pub proof fn lemma_literal_body_push(s: Seq<char>, c: char, i: int, width: nat)
    ensures
        literal_body(s.push(c), i, width) == literal_body(s, i, width) + literal_piece(
            c,
            i + s.len(),
            width,
        ),
    decreases s.len(),
{
    if s.len() == 0 {
        assert(s.push(c).drop_first() == s);
        assert(s.push(c)[0] == c);
        assert(literal_body(s.push(c), i, width) == literal_piece(c, i, width) + literal_body(
            s,
            i + 1,
            width,
        ));
        assert(literal_piece(c, i, width) + seq![] =~= literal_piece(c, i, width));
        assert(seq![] + literal_piece(c, i, width) =~= literal_piece(c, i, width));
    } else {
        assert(s.push(c).drop_first() == s.drop_first().push(c));
        assert(s.push(c)[0] == s[0]);
        lemma_literal_body_push(s.drop_first(), c, i + 1, width);
        let a = literal_piece(s[0], i, width);
        let b = literal_body(s.drop_first(), i + 1, width);
        let d = literal_piece(c, i + s.len(), width);
        assert(a + (b + d) == (a + b) + d);
    }
}

proof fn lemma_next_column(j: int, w: int)
    requires
        j >= 0,
        w > 0,
    ensures
        j % w + 1 == w ==> (j + 1) % w == 0,
        j % w + 1 < w ==> (j + 1) % w == j % w + 1,
{
    let q = j / w;
    let r = j % w;
    vstd::arithmetic::div_mod::lemma_fundamental_div_mod(j, w);
    if r + 1 == w {
        assert(j + 1 == (q + 1) * w + 0) by (nonlinear_arith)
            requires
                j == w * q + r,
                r + 1 == w,
        ;
        vstd::arithmetic::div_mod::lemma_fundamental_div_mod_converse(j + 1, w, q + 1, 0);
    } else {
        assert(j + 1 == q * w + (r + 1)) by (nonlinear_arith)
            requires
                j == w * q + r,
        ;
        vstd::arithmetic::div_mod::lemma_fundamental_div_mod_converse(j + 1, w, q, r + 1);
    }
}

/// Appends the escape of `c`, which stands at the start of a line or not.
fn push_escaped(out: &mut String, c: char, at_line_start: bool)
    ensures
        final(out)@ == old(out)@ + escape_char(c, at_line_start),
{
    if c == '"' {
        push_char(out, '\\');
        push_char(out, '"');
    } else if c == '\\' {
        push_char(out, '\\');
        push_char(out, '\\');
    } else if c == '$' {
        push_char(out, '\\');
        push_char(out, '$');
    } else if c == ' ' && at_line_start {
        push_char(out, '\\');
        push_char(out, 'x');
        push_char(out, '2');
        push_char(out, '0');
    } else if ' ' <= c && c <= '~' {
        push_char(out, c);
    } else {
        push_char(out, '\\');
        push_char(out, 'u');
        push_char(out, '{');
        push_hex(out, c as u32);
        push_char(out, '}');
    }
}

/// `text` as one Meadow string literal, broken with `\`-newline every
/// `width` characters. Only printable ASCII is written raw; a space that
/// would start a line is `\x20`, since a continuation drops leading
/// whitespace.
pub fn long_literal(text: &str, width: usize) -> (out: String)
    requires
        width > 0,
    ensures
        out@ == literal(text@, width as nat),
{
    let mut out = String::new();
    push_char(&mut out, '"');
    let ghost mut i: int = 0;
    let mut col: usize = 0;
    let mut started = false;
    let ghost chars = text@;
    for c in it: text.chars()
        invariant
            chars == text@,
            width > 0,
            it.seq() == chars,
            i == it.index(),
            0 <= i <= chars.len(),
            col < width,
            col == i % (width as int),
            started == (i > 0),
            out@ == seq!['"'] + literal_body(chars.take(i), 0, width as nat),
    {
        proof {
            assert(chars.take(i + 1) == chars.take(i).push(c));
            lemma_literal_body_push(chars.take(i), c, 0, width as nat);
        }
        let line_start = started && col == 0;
        if line_start {
            push_char(&mut out, '\\');
            push_char(&mut out, '\n');
            push_char(&mut out, ' ');
            push_char(&mut out, ' ');
            push_char(&mut out, ' ');
            push_char(&mut out, ' ');
        }
        push_escaped(&mut out, c, line_start);
        proof {
            assert(out@ == seq!['"'] + literal_body(chars.take(i + 1), 0, width as nat));
            i = i + 1;
        }
        started = true;
        if col + 1 == width {
            col = 0;
        } else {
            col = col + 1;
        }
        proof {
            lemma_next_column(i - 1, width as int);
        }
    }
    proof {
        assert(chars.take(i) == chars);
    }
    push_char(&mut out, '"');
    out
}

/// Whether a continued line may start with `c` as indentation, which the
/// reader drops.
pub open spec fn is_blank(c: char) -> bool {
    c == ' ' || c == '\t' || c == '\n' || c == '\r'
}

/// The value of hexadecimal digit `c`, or -1 where `c` is no such digit.
pub open spec fn hex_value(c: char) -> int {
    if '0' <= c && c <= '9' {
        c as int - 48
    } else if 'A' <= c && c <= 'F' {
        c as int - 55
    } else if 'a' <= c && c <= 'f' {
        c as int - 87
    } else {
        -1
    }
}

/// Whether `c` is a hexadecimal digit.
pub open spec fn is_hex(c: char) -> bool {
    hex_value(c) >= 0
}

/// How many hexadecimal digits `s` starts with.
pub open spec fn hex_run(s: Seq<char>) -> nat
    decreases s.len(),
{
    if s.len() > 0 && is_hex(s[0]) {
        1 + hex_run(s.drop_first())
    } else {
        0
    }
}

/// The number that a string of hexadecimal digits stands for.
pub open spec fn hex_number(s: Seq<char>) -> int
    decreases s.len(),
{
    if s.len() == 0 {
        0
    } else {
        hex_number(s.drop_last()) * 16 + hex_value(s.last())
    }
}

/// `c` in front of what `rest` reads as, where it reads at all.
pub open spec fn cons(c: char, rest: Option<Seq<char>>) -> Option<Seq<char>> {
    match rest {
        Some(t) => Some(seq![c] + t),
        None => None,
    }
}

/// What the inside of a string literal reads as: escapes `\"`, `\\`,
/// `\$`, `\xHH` and `\u{H..}`, and `\` before a newline continuing the
/// literal on the next line, whose indentation is dropped; `None` where the
/// text is no literal's inside.
pub open spec fn unescape(s: Seq<char>) -> Option<Seq<char>>
    decreases s.len(), 0int,
{
    if s.len() == 0 {
        Some(seq![])
    } else if s[0] == '"' {
        None
    } else if s[0] != '\\' {
        cons(s[0], unescape(s.drop_first()))
    } else if s.len() < 2 {
        None
    } else if s[1] == '"' || s[1] == '\\' || s[1] == '$' {
        cons(s[1], unescape(s.skip(2)))
    } else if s[1] == '\n' {
        unescape_continued(s.skip(2))
    } else if s[1] == 'x' && s.len() >= 4 && is_hex(s[2]) && is_hex(s[3]) {
        cons(((hex_value(s[2]) * 16 + hex_value(s[3])) as u32) as char, unescape(s.skip(4)))
    } else if s[1] == 'u' && s.len() >= 3 && s[2] == '{' {
        let n: int = hex_run(s.skip(3)) as int;
        let v = hex_number(s.subrange(3, 3 + n));
        if n > 0 && s.len() > 3 + n && s[3 + n] == '}' && 0 <= v < 0x110000
            && vstd::utf8::is_scalar(v as u32) {
            cons((v as u32) as char, unescape(s.skip(4 + n)))
        } else {
            None
        }
    } else {
        None
    }
}

/// What the rest of a literal reads as after a line continuation: the
/// indentation is dropped.
pub open spec fn unescape_continued(s: Seq<char>) -> Option<Seq<char>>
    decreases s.len(), 1int,
{
    if s.len() > 0 && is_blank(s[0]) {
        unescape_continued(s.drop_first())
    } else {
        unescape(s)
    }
}

/// What a string literal, quotes included, reads as.
pub open spec fn read_literal(lit: Seq<char>) -> Option<Seq<char>> {
    if lit.len() >= 2 && lit[0] == '"' && lit.last() == '"' {
        unescape(lit.subrange(1, lit.len() - 1))
    } else {
        None
    }
}

proof fn lemma_hex_digit(d: nat)
    requires
        d < 16,
    ensures
        hex_value(crate::text::hex_digit(d)) == d,
{
    if d < 10 {
        assert(((48 + d) as char) as int == 48 + d);
    } else {
        assert(((55 + d) as char) as int == 55 + d);
    }
}

proof fn lemma_hex_upper(n: nat)
    ensures
        hex_upper(n).len() > 0,
        forall|i: int| 0 <= i < hex_upper(n).len() ==> is_hex(#[trigger] hex_upper(n)[i]),
        hex_number(hex_upper(n)) == n,
    decreases n,
{
    if n >= 16 {
        lemma_hex_upper(n / 16);
        lemma_hex_digit(n % 16);
        let h = hex_upper(n / 16);
        assert(hex_upper(n) == h.push(crate::text::hex_digit(n % 16)));
        assert(hex_upper(n).drop_last() == h);
        assert(hex_upper(n).last() == crate::text::hex_digit(n % 16));
        assert(hex_number(hex_upper(n)) == hex_number(h) * 16 + (n % 16) as int);
        assert forall|i: int| 0 <= i < hex_upper(n).len() implies is_hex(
            #[trigger] hex_upper(n)[i],
        ) by {
            if i < h.len() {
                assert(hex_upper(n)[i] == h[i]);
            }
        }
    } else {
        assert(hex_upper(n).drop_last() =~= seq![]);
        lemma_hex_digit(n);
        assert(hex_number(hex_upper(n).drop_last()) == 0);
        assert(hex_upper(n).last() == crate::text::hex_digit(n));
    }
}

proof fn lemma_hex_run(a: Seq<char>, b: Seq<char>)
    requires
        forall|i: int| 0 <= i < a.len() ==> is_hex(#[trigger] a[i]),
        b.len() > 0,
        !is_hex(b[0]),
    ensures
        hex_run(a + b) == a.len(),
    decreases a.len(),
{
    if a.len() == 0 {
        assert(a + b == b);
    } else {
        assert((a + b).drop_first() == a.drop_first() + b);
        assert((a + b)[0] == a[0]);
        assert forall|i: int| 0 <= i < a.drop_first().len() implies is_hex(
            #[trigger] a.drop_first()[i],
        ) by {
            assert(a.drop_first()[i] == a[i + 1]);
        }
        lemma_hex_run(a.drop_first(), b);
    }
}

/// An escaped character reads as itself, whatever follows it.
proof fn lemma_unescape_escape(c: char, at_line_start: bool, x: Seq<char>)
    ensures
        unescape(escape_char(c, at_line_start) + x) == cons(c, unescape(x)),
{
    let e = escape_char(c, at_line_start);
    let s = e + x;
    if c == '"' || c == '\\' || c == '$' {
        assert(s[0] == '\\');
        assert(s[1] == c);
        assert(s.skip(2) == x);
    } else if c == ' ' && at_line_start {
        assert(s[0] == '\\');
        assert(s[1] == 'x');
        assert(s[2] == '2');
        assert(s[3] == '0');
        assert(s.skip(4) == x);
        vstd::utf8::char_u32_cast(c, 32u32);
    } else if printable(c) {
        assert(s[0] == c);
        assert(s.drop_first() == x);
    } else {
        let h = hex_upper(c as nat);
        lemma_hex_upper(c as nat);
        assert(s[0] == '\\');
        assert(s[1] == 'u');
        assert(s[2] == '{');
        assert(s.skip(3) == h + (seq!['}'] + x));
        lemma_hex_run(h, seq!['}'] + x);
        let n: int = hex_run(s.skip(3)) as int;
        assert(n == h.len());
        assert(s.subrange(3, 3 + n) == h);
        assert(s[3 + n] == '}');
        assert(s.skip(4 + n) == x);
        vstd::utf8::char_is_scalar(c);
        vstd::utf8::char_u32_cast(c, c as u32);
    }
}

/// After a continuation, an escaped character at the start of the line is
/// read as it would be anywhere.
proof fn lemma_continued_escape(c: char, x: Seq<char>)
    ensures
        unescape_continued(escape_char(c, true) + x) == unescape(escape_char(c, true) + x),
{
    let s = escape_char(c, true) + x;
    assert(s[0] == escape_char(c, true)[0]);
}

/// The indentation after a line break is dropped.
proof fn lemma_unescape_break(y: Seq<char>)
    ensures
        unescape(line_break() + y) == unescape_continued(y),
{
    let s = line_break() + y;
    assert(s[0] == '\\');
    assert(s[1] == '\n');
    let t0 = s.skip(2);
    let t1 = t0.drop_first();
    let t2 = t1.drop_first();
    let t3 = t2.drop_first();
    let t4 = t3.drop_first();
    assert(t0[0] == ' ');
    assert(t1[0] == ' ');
    assert(t2[0] == ' ');
    assert(t3[0] == ' ');
    assert(t4 == y);
    assert(unescape(s) == unescape_continued(t0));
    assert(unescape_continued(t0) == unescape_continued(t1));
    assert(unescape_continued(t1) == unescape_continued(t2));
    assert(unescape_continued(t2) == unescape_continued(t3));
    assert(unescape_continued(t3) == unescape_continued(t4));
}

proof fn lemma_unescape_body(s: Seq<char>, i: int, width: nat)
    requires
        width > 0,
    ensures
        unescape(literal_body(s, i, width)) == Some(s),
    decreases s.len(),
{
    if s.len() == 0 {
    } else {
        let rest = literal_body(s.drop_first(), i + 1, width);
        lemma_unescape_body(s.drop_first(), i + 1, width);
        let e = escape_char(s[0], starts_line(i, width));
        lemma_unescape_escape(s[0], starts_line(i, width), rest);
        if starts_line(i, width) {
            assert(literal_body(s, i, width) == line_break() + (e + rest));
            lemma_unescape_break(e + rest);
            lemma_continued_escape(s[0], rest);
        } else {
            assert(literal_body(s, i, width) == e + rest);
        }
        assert(seq![s[0]] + s.drop_first() == s);
    }
}

/// Reading the literal gives the text back, for every text and width.
pub proof fn lemma_literal_roundtrip(text: Seq<char>, width: nat)
    requires
        width > 0,
    ensures
        read_literal(literal(text, width)) == Some(text),
{
    let body = literal_body(text, 0, width);
    let lit = literal(text, width);
    assert(lit.subrange(1, lit.len() - 1) == body);
    lemma_unescape_body(text, 0, width);
}

/// How many newlines `s` holds.
pub open spec fn newlines(s: Seq<char>) -> nat
    decreases s.len(),
{
    if s.len() == 0 {
        0
    } else {
        newlines(s.drop_last()) + if s.last() == '\n' {
            1nat
        } else {
            0nat
        }
    }
}

proof fn lemma_newlines_concat(a: Seq<char>, b: Seq<char>)
    ensures
        newlines(a + b) == newlines(a) + newlines(b),
    decreases b.len(),
{
    if b.len() == 0 {
        assert(a + b =~= a);
    } else {
        lemma_newlines_concat(a, b.drop_last());
        assert((a + b).drop_last() =~= a + b.drop_last());
    }
}

proof fn lemma_no_newlines(s: Seq<char>)
    requires
        forall|k: int| 0 <= k < s.len() ==> #[trigger] s[k] != '\n',
    ensures
        newlines(s) == 0,
    decreases s.len(),
{
    if s.len() > 0 {
        lemma_no_newlines(s.drop_last());
    }
}

proof fn lemma_hex_no_newline(n: nat)
    ensures
        forall|k: int| 0 <= k < hex_upper(n).len() ==> #[trigger] hex_upper(n)[k] != '\n',
    decreases n,
{
    if n >= 16 {
        lemma_hex_no_newline(n / 16);
        let h = hex_upper(n);
        assert forall|k: int| 0 <= k < h.len() implies #[trigger] h[k] != '\n' by {
            if k < h.len() - 1 {
                assert(h[k] == hex_upper(n / 16)[k]);
            }
        }
    }
}

proof fn lemma_escape_no_newline(c: char, at_line_start: bool)
    ensures
        newlines(escape_char(c, at_line_start)) == 0,
{
    let e = escape_char(c, at_line_start);
    if !(c == '"' || c == '\\' || c == '$' || (c == ' ' && at_line_start) || printable(c)) {
        lemma_hex_no_newline(c as nat);
        let h = hex_upper(c as nat);
        assert forall|k: int| 0 <= k < e.len() implies #[trigger] e[k] != '\n' by {
            if 3 <= k < 3 + h.len() {
                assert(e[k] == h[k - 3]);
            }
        }
    }
    lemma_no_newlines(e);
}

/// How many of the indices from `i`, `n` of them, start a line.
pub open spec fn breaks(i: int, n: nat, width: nat) -> nat
    decreases n,
{
    if n == 0 {
        0
    } else {
        (if starts_line(i, width) {
            1nat
        } else {
            0nat
        }) + breaks(i + 1, (n - 1) as nat, width)
    }
}

proof fn lemma_body_newlines(s: Seq<char>, i: int, width: nat)
    ensures
        newlines(literal_body(s, i, width)) == breaks(i, s.len(), width),
    decreases s.len(),
{
    if s.len() > 0 {
        lemma_body_newlines(s.drop_first(), i + 1, width);
        let b = starts_line(i, width);
        lemma_escape_no_newline(s[0], b);
        if b {
            lemma_newlines_concat(line_break(), escape_char(s[0], true));
            assert(newlines(line_break()) == 1) by {
                reveal_with_fuel(newlines, 7);
            }
        }
        lemma_newlines_concat(literal_piece(s[0], i, width), literal_body(s.drop_first(), i + 1, width));
    }
}

proof fn lemma_breaks_count(i: int, n: nat, width: nat)
    requires
        i >= 1,
        width > 0,
    ensures
        breaks(i, n, width) == (i + n - 1) / (width as int) - (i - 1) / (width as int),
    decreases n,
{
    if n > 0 {
        lemma_breaks_count(i + 1, (n - 1) as nat, width);
        let w = width as int;
        let q = (i - 1) / w;
        let r = (i - 1) % w;
        vstd::arithmetic::div_mod::lemma_fundamental_div_mod(i - 1, w);
        vstd::arithmetic::div_mod::lemma_mod_pos_bound(i - 1, w);
        if r + 1 < w {
            vstd::arithmetic::div_mod::lemma_fundamental_div_mod_converse(i, w, q, r + 1);
        } else {
            assert(i == (q + 1) * w + 0) by (nonlinear_arith)
                requires
                    i - 1 == w * q + r,
                    r + 1 == w,
            ;
            vstd::arithmetic::div_mod::lemma_fundamental_div_mod_converse(i, w, q + 1, 0);
        }
    }
}

/// The literal is broken into lines of `width` characters of the text:
/// it holds one newline for every `width` characters after the first
/// line, and none besides.
pub proof fn lemma_literal_lines(text: Seq<char>, width: nat)
    requires
        width > 0,
    ensures
        newlines(literal(text, width)) == if text.len() == 0 {
            0
        } else {
            (text.len() - 1) as nat / width
        },
{
    lemma_body_newlines(text, 0, width);
    lemma_newlines_concat(seq!['"'], literal_body(text, 0, width));
    lemma_newlines_concat(seq!['"'] + literal_body(text, 0, width), seq!['"']);
    assert(newlines(seq!['"']) == 0) by {
        reveal_with_fuel(newlines, 2);
    }
    if text.len() > 0 {
        assert(!starts_line(0, width));
        lemma_breaks_count(1, (text.len() - 1) as nat, width);
        assert(0int / (width as int) == 0);
    }
}

/// Whether `s` holds only printable ASCII and newlines.
pub open spec fn plain_ascii(s: Seq<char>) -> bool {
    forall|k: int| 0 <= k < s.len() ==> printable(#[trigger] s[k]) || s[k] == '\n'
}

proof fn lemma_plain_concat(a: Seq<char>, b: Seq<char>)
    requires
        plain_ascii(a),
        plain_ascii(b),
    ensures
        plain_ascii(a + b),
{
    assert forall|k: int| 0 <= k < (a + b).len() implies printable(#[trigger] (a + b)[k]) || (a
        + b)[k] == '\n' by {
        if k < a.len() {
            assert((a + b)[k] == a[k]);
        } else {
            assert((a + b)[k] == b[k - a.len()]);
        }
    }
}

proof fn lemma_hex_plain(n: nat)
    ensures
        plain_ascii(hex_upper(n)),
    decreases n,
{
    if n >= 16 {
        lemma_hex_plain(n / 16);
        lemma_plain_concat(hex_upper(n / 16), seq![crate::text::hex_digit(n % 16)]);
        assert(hex_upper(n) == hex_upper(n / 16) + seq![crate::text::hex_digit(n % 16)]);
    }
}

proof fn lemma_escape_plain(c: char, at_line_start: bool)
    ensures
        plain_ascii(escape_char(c, at_line_start)),
{
    if !(c == '"' || c == '\\' || c == '$' || (c == ' ' && at_line_start) || printable(c)) {
        lemma_hex_plain(c as nat);
        lemma_plain_concat(seq!['\\', 'u', '{'], hex_upper(c as nat));
        lemma_plain_concat(seq!['\\', 'u', '{'] + hex_upper(c as nat), seq!['}']);
    }
}

proof fn lemma_body_plain(s: Seq<char>, i: int, width: nat)
    ensures
        plain_ascii(literal_body(s, i, width)),
    decreases s.len(),
{
    if s.len() > 0 {
        lemma_body_plain(s.drop_first(), i + 1, width);
        let b = starts_line(i, width);
        lemma_escape_plain(s[0], b);
        if b {
            lemma_plain_concat(line_break(), escape_char(s[0], true));
        }
        lemma_plain_concat(literal_piece(s[0], i, width), literal_body(s.drop_first(), i + 1, width));
    }
}

/// Only printable ASCII and the newlines of line breaks are written: the
/// literal is plain ASCII whatever the text.
pub proof fn lemma_literal_plain(text: Seq<char>, width: nat)
    ensures
        plain_ascii(literal(text, width)),
{
    lemma_body_plain(text, 0, width);
    lemma_plain_concat(seq!['"'], literal_body(text, 0, width));
    lemma_plain_concat(seq!['"'] + literal_body(text, 0, width), seq!['"']);
}

} // verus!
