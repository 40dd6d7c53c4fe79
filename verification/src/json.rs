//! The disk cache's file format: pretty-printed JSON. `document_to_json`
//! renders a document exactly as `render` specifies; `parse_json_document`
//! reads such a file back, rejecting anything malformed instead of failing —
//! and is proved to succeed, with a structurally equal document, on every
//! text this library's own printer produces.

use vstd::prelude::*;
use vstd::string::StringExecFns;
use crate::document::Document;
use crate::error::AppError;
use crate::text::{chars_of, string_of, subvec};

verus! {

/// Decimal digit character for `d` in `0..10`.
pub open spec fn dec_digit(d: int) -> char {
    if d == 0 {
        '0'
    } else if d == 1 {
        '1'
    } else if d == 2 {
        '2'
    } else if d == 3 {
        '3'
    } else if d == 4 {
        '4'
    } else if d == 5 {
        '5'
    } else if d == 6 {
        '6'
    } else if d == 7 {
        '7'
    } else if d == 8 {
        '8'
    } else {
        '9'
    }
}

/// Lower-case hexadecimal digit character for `d` in `0..16`.
pub open spec fn hex_digit(d: int) -> char {
    if d < 10 {
        dec_digit(d)
    } else if d == 10 {
        'a'
    } else if d == 11 {
        'b'
    } else if d == 12 {
        'c'
    } else if d == 13 {
        'd'
    } else if d == 14 {
        'e'
    } else {
        'f'
    }
}

/// Decimal representation of `n`, most significant digit first.
pub open spec fn dec_rep(n: nat) -> Seq<char>
    decreases n,
{
    if n < 10 {
        seq![dec_digit(n as int)]
    } else {
        dec_rep(n / 10) + seq![dec_digit((n % 10) as int)]
    }
}

/// Decimal representation of a signed integer.
pub open spec fn int_rep(i: int) -> Seq<char> {
    if i < 0 {
        seq!['-'] + dec_rep((-i) as nat)
    } else {
        dec_rep(i as nat)
    }
}

/// How one character appears inside a JSON string literal.
pub open spec fn escape_char(c: char) -> Seq<char> {
    if c == '"' {
        seq!['\\', '"']
    } else if c == '\\' {
        seq!['\\', '\\']
    } else if c == '\u{8}' {
        seq!['\\', 'b']
    } else if c == '\t' {
        seq!['\\', 't']
    } else if c == '\n' {
        seq!['\\', 'n']
    } else if c == '\u{c}' {
        seq!['\\', 'f']
    } else if c == '\r' {
        seq!['\\', 'r']
    } else if (c as u32) < 0x20 {
        seq!['\\', 'u', '0', '0', hex_digit((c as u32) as int / 16), hex_digit(
            (c as u32) as int % 16,
        )]
    } else {
        seq![c]
    }
}

/// The escaped body of a JSON string literal, from index `i` on.
pub open spec fn escape_from(s: Seq<char>, i: int) -> Seq<char>
    decreases s.len() - i,
{
    if i < 0 || i >= s.len() {
        Seq::empty()
    } else {
        escape_char(s[i]) + escape_from(s, i + 1)
    }
}

/// A JSON string literal: quotes around the escaped characters.
pub open spec fn quoted(s: Seq<char>) -> Seq<char> {
    seq!['"'] + escape_from(s, 0) + seq!['"']
}

/// The pretty-printed form of a document at indentation `pad`: two more
/// spaces per nesting level, each array element and object field on its own
/// line, `[]` and `{}` for the empty cases.
pub open spec fn render(d: Document, pad: Seq<char>) -> Seq<char>
    decreases d, 0int,
{
    match d {
        Document::Null => "null"@,
        Document::Bool(b) => if b {
            "true"@
        } else {
            "false"@
        },
        Document::Int(i) => int_rep(i as int),
        Document::Text(s) => quoted(s@),
        Document::Array(items) => {
            if items@.len() == 0 {
                "[]"@
            } else {
                seq!['['] + render_elems(items@, pad + "  "@, 0) + seq!['\n'] + pad + seq![']']
            }
        },
        Document::Object(pairs) => {
            if pairs@.len() == 0 {
                "{}"@
            } else {
                seq!['{'] + render_fields(pairs@, pad + "  "@, 0) + seq!['\n'] + pad + seq!['}']
            }
        },
    }
}

/// Array elements from index `i` on, each on its own line at `pad`.
pub open spec fn render_elems(s: Seq<Document>, pad: Seq<char>, i: int) -> Seq<char>
    decreases s, s.len() - i,
{
    if i < 0 || i >= s.len() {
        Seq::empty()
    } else {
        (if i > 0 {
            seq![',']
        } else {
            Seq::empty()
        }) + seq!['\n'] + pad + render(s[i], pad) + render_elems(s, pad, i + 1)
    }
}

/// Object fields from index `i` on, `"key": value`, each on its own line.
pub open spec fn render_fields(s: Seq<(String, Document)>, pad: Seq<char>, i: int) -> Seq<char>
    decreases s, s.len() - i,
{
    if i < 0 || i >= s.len() {
        Seq::empty()
    } else {
        (if i > 0 {
            seq![',']
        } else {
            Seq::empty()
        }) + seq!['\n'] + pad + quoted(s[i].0@) + ": "@ + render(s[i].1, pad) + render_fields(
            s,
            pad,
            i + 1,
        )
    }
}

/// A copy of `pad` two spaces longer.
fn indent_more(pad: &Vec<char>) -> (r: Vec<char>)
    ensures
        r@ == pad@ + "  "@,
{
    proof {
        reveal_strlit("  ");
    }
    let mut r = subvec(pad, 0, pad.len());
    r.push(' ');
    r.push(' ');
    assert(r@ =~= pad@ + "  "@);
    r
}

/// Append the characters of `p` to `out`.
#[verifier::loop_isolation(false)]
fn push_seq(out: &mut Vec<char>, p: &Vec<char>)
    ensures
        final(out)@ == old(out)@ + p@,
{
    let n = p.len();
    let mut i: usize = 0;
    while i < n
        invariant
            i <= n,
            out@ == old(out)@ + p@.take(i as int),
        decreases n - i,
    {
        out.push(p[i]);
        assert(old(out)@ + p@.take(i + 1) =~= (old(out)@ + p@.take(i as int)).push(p@[i as int]));
        i = i + 1;
    }
    assert(p@.take(n as int) =~= p@);
}

/// Append the characters of the literal `lit` to `out`.
fn push_lit(out: &mut Vec<char>, lit: &str)
    ensures
        final(out)@ == old(out)@ + lit@,
{
    let cs = chars_of(lit);
    push_seq(out, &cs);
}

/// Append the decimal digits of `m` to `out`.
fn push_digits(out: &mut Vec<char>, m: u64)
    ensures
        final(out)@ == old(out)@ + dec_rep(m as nat),
    decreases m,
{
    if m < 10 {
        let d = digit_char(m as u8);
        out.push(d);
        assert(out@ =~= old(out)@ + dec_rep(m as nat));
    } else {
        push_digits(out, m / 10);
        let d = digit_char((m % 10) as u8);
        out.push(d);
        assert(out@ =~= old(out)@ + dec_rep(m as nat));
    }
}

/// The character for decimal digit `d`.
fn digit_char(d: u8) -> (c: char)
    requires
        d < 10,
    ensures
        c == dec_digit(d as int),
{
    if d == 0 {
        '0'
    } else if d == 1 {
        '1'
    } else if d == 2 {
        '2'
    } else if d == 3 {
        '3'
    } else if d == 4 {
        '4'
    } else if d == 5 {
        '5'
    } else if d == 6 {
        '6'
    } else if d == 7 {
        '7'
    } else if d == 8 {
        '8'
    } else {
        '9'
    }
}

/// The character for hexadecimal digit `d`.
fn hex_char(d: u8) -> (c: char)
    requires
        d < 16,
    ensures
        c == hex_digit(d as int),
{
    if d < 10 {
        digit_char(d)
    } else if d == 10 {
        'a'
    } else if d == 11 {
        'b'
    } else if d == 12 {
        'c'
    } else if d == 13 {
        'd'
    } else if d == 14 {
        'e'
    } else {
        'f'
    }
}

/// Append the decimal form of `i`, with a leading `-` when negative.
fn push_int(out: &mut Vec<char>, i: i64)
    ensures
        final(out)@ == old(out)@ + int_rep(i as int),
{
    if i >= 0 {
        push_digits(out, i as u64);
    } else {
        out.push('-');
        let m: u64 = (-(i as i128)) as u64;
        push_digits(out, m);
        assert(out@ =~= old(out)@ + int_rep(i as int));
    }
}

/// Append the JSON string literal for `s`.
#[verifier::loop_isolation(false)]
fn push_quoted(out: &mut Vec<char>, s: &str)
    ensures
        final(out)@ == old(out)@ + quoted(s@),
{
    out.push('"');
    let cs = chars_of(s);
    let ghost base = out@;
    let n = cs.len();
    let mut i: usize = 0;
    while i < n
        invariant
            i <= n,
            out@ + escape_from(cs@, i as int) == base + escape_from(cs@, 0),
        decreases n - i,
    {
        let c = cs[i];
        if c == '"' {
            out.push('\\');
            out.push('"');
        } else if c == '\\' {
            out.push('\\');
            out.push('\\');
        } else if c == '\u{8}' {
            out.push('\\');
            out.push('b');
        } else if c == '\t' {
            out.push('\\');
            out.push('t');
        } else if c == '\n' {
            out.push('\\');
            out.push('n');
        } else if c == '\u{c}' {
            out.push('\\');
            out.push('f');
        } else if c == '\r' {
            out.push('\\');
            out.push('r');
        } else if (c as u32) < 0x20 {
            out.push('\\');
            out.push('u');
            out.push('0');
            out.push('0');
            let code = c as u32;
            out.push(hex_char((code / 16) as u8));
            out.push(hex_char((code % 16) as u8));
        } else {
            out.push(c);
        }
        proof {
            assert(out@ =~= (base + escape_from(cs@, 0)).subrange(
                0,
                base.len() + escape_from(cs@, 0).len() - escape_from(cs@, i + 1).len(),
            )) by {
                assert(escape_from(cs@, i as int) == escape_char(cs@[i as int]) + escape_from(
                    cs@,
                    i + 1,
                ));
                assert(out@ + escape_from(cs@, i + 1) =~= base + escape_from(cs@, 0));
            }
            assert(out@ + escape_from(cs@, i + 1) =~= base + escape_from(cs@, 0));
        }
        i = i + 1;
    }
    assert(out@ =~= base + escape_from(cs@, 0));
    out.push('"');
    assert(out@ =~= old(out)@ + quoted(s@));
}

/// Append the pretty-printed form of `d` at indentation `pad`.
#[verifier::loop_isolation(false)]
#[verifier::rlimit(60)]
fn render_into(d: &Document, pad: &Vec<char>, out: &mut Vec<char>)
    ensures
        final(out)@ == old(out)@ + render(*d, pad@),
    decreases *d,
{
    match d {
        Document::Null => push_lit(out, "null"),
        Document::Bool(b) => {
            if *b {
                push_lit(out, "true");
            } else {
                push_lit(out, "false");
            }
        },
        Document::Int(i) => push_int(out, *i),
        Document::Text(s) => push_quoted(out, s.as_str()),
        Document::Array(items) => {
            if items.len() == 0 {
                push_lit(out, "[]");
            } else {
                out.push('[');
                let pad2 = indent_more(pad);
                let ghost base = out@;
                let n = items.len();
                let mut i: usize = 0;
                while i < n
                    invariant
                        1 <= n == items@.len(),
                        i <= n,
                        out@ + render_elems(items@, pad2@, i as int) == base + render_elems(
                            items@,
                            pad2@,
                            0,
                        ),
                    decreases n - i,
                {
                    if i > 0 {
                        out.push(',');
                    }
                    out.push('\n');
                    push_seq(out, &pad2);
                    render_into(&items[i], &pad2, out);
                    proof {
                        assert(out@ + render_elems(items@, pad2@, i + 1) =~= base + render_elems(
                            items@,
                            pad2@,
                            0,
                        ));
                    }
                    i = i + 1;
                }
                out.push('\n');
                push_seq(out, pad);
                out.push(']');
                assert(out@ =~= old(out)@ + render(*d, pad@));
            }
        },
        Document::Object(pairs) => {
            if pairs.len() == 0 {
                push_lit(out, "{}");
            } else {
                out.push('{');
                let pad2 = indent_more(pad);
                let ghost base = out@;
                let n = pairs.len();
                let mut i: usize = 0;
                while i < n
                    invariant
                        1 <= n == pairs@.len(),
                        i <= n,
                        out@ + render_fields(pairs@, pad2@, i as int) == base + render_fields(
                            pairs@,
                            pad2@,
                            0,
                        ),
                    decreases n - i,
                {
                    if i > 0 {
                        out.push(',');
                    }
                    out.push('\n');
                    push_seq(out, &pad2);
                    push_quoted(out, pairs[i].0.as_str());
                    push_lit(out, ": ");
                    render_into(&pairs[i].1, &pad2, out);
                    proof {
                        assert(out@ + render_fields(pairs@, pad2@, i + 1) =~= base + render_fields(
                            pairs@,
                            pad2@,
                            0,
                        ));
                    }
                    i = i + 1;
                }
                out.push('\n');
                push_seq(out, pad);
                out.push('}');
                assert(out@ =~= old(out)@ + render(*d, pad@));
            }
        },
    }
}

/// JSON inter-token white space.
pub open spec fn is_ws_char(c: char) -> bool {
    c == ' ' || c == '\n' || c == '\t' || c == '\r'
}

/// A decimal digit character.
pub open spec fn is_digit_char(c: char) -> bool {
    '0' <= c && c <= '9'
}

/// Indentation holds nothing but spaces.
pub open spec fn all_spaces(p: Seq<char>) -> bool {
    forall|i: int| 0 <= i < p.len() ==> p[i] == ' '
}

/// `w` occurs in `v` starting at position `i`.
pub open spec fn starts_with_at(v: Seq<char>, i: int, w: Seq<char>) -> bool {
    0 <= i && i + w.len() <= v.len() && v.subrange(i, i + w.len()) == w
}

/// The rendering of `d` at indentation `pad` sits in `v` at `pos`, with no
/// digit directly after it (so a trailing number cannot run on).
pub open spec fn value_at(v: Seq<char>, pos: int, d: Document, pad: Seq<char>) -> bool {
    let rd = render(d, pad);
    &&& all_spaces(pad)
    &&& starts_with_at(v, pos, rd)
    &&& (pos + rd.len() == v.len() || !is_digit_char(v[pos + rd.len()]))
}

/// The decimal form of `n` sits in `v` at `pos`, bounded by a non-digit.
pub open spec fn num_at(v: Seq<char>, pos: int, n: i64) -> bool {
    let rep = int_rep(n as int);
    &&& starts_with_at(v, pos, rep)
    &&& (pos + rep.len() == v.len() || !is_digit_char(v[pos + rep.len()]))
}

/// The string literal for `s` sits in `v` at `pos`.
pub open spec fn quoted_at(v: Seq<char>, pos: int, s: Seq<char>) -> bool {
    starts_with_at(v, pos, quoted(s))
}

/// Structural equality of documents: same shape, equal scalars, text and
/// field names compared by their characters.
pub open spec fn doc_like(a: Document, b: Document) -> bool
    decreases a,
{
    match a {
        Document::Null => b is Null,
        Document::Bool(x) => b matches Document::Bool(y) && x == y,
        Document::Int(x) => b matches Document::Int(y) && x == y,
        Document::Text(x) => b matches Document::Text(y) && x@ == y@,
        Document::Array(x) => b matches Document::Array(y) && x@.len() == y@.len() && (forall|
            i: int,
        |
            0 <= i < x@.len() ==> doc_like(#[trigger] x@[i], y@[i])),
        Document::Object(x) => b matches Document::Object(y) && x@.len() == y@.len() && (forall|
            i: int,
        |
            0 <= i < x@.len() ==> (#[trigger] x@[i]).0@ == y@[i].0@ && doc_like(x@[i].1, y@[i].1)),
    }
}

/// Numeric value of a digit string, most significant digit first.
pub open spec fn digits_val(s: Seq<char>) -> int
    decreases s.len(),
{
    if s.len() == 0 {
        0
    } else {
        digits_val(s.drop_last()) * 10 + (s.last() as u32 - 48)
    }
}

proof fn lemma_dec_digit(k: int)
    requires
        0 <= k < 10,
    ensures
        is_digit_char(dec_digit(k)),
        dec_digit(k) as u32 == 48 + k,
{
}

proof fn lemma_hex_digit(k: int)
    requires
        0 <= k < 16,
    ensures
        hex_digit(k) as u32 == (if k < 10 {
            48 + k
        } else {
            87 + k
        }),
{
    if k < 10 {
        lemma_dec_digit(k);
    }
}

/// Every character of `dec_rep(n)` is a digit, and they read back to `n`.
proof fn lemma_dec_rep(n: nat)
    ensures
        dec_rep(n).len() >= 1,
        forall|j: int| 0 <= j < dec_rep(n).len() ==> is_digit_char(#[trigger] dec_rep(n)[j]),
        digits_val(dec_rep(n)) == n,
    decreases n,
{
    lemma_dec_digit((n % 10) as int);
    if n < 10 {
        lemma_dec_digit(n as int);
        assert(dec_rep(n).drop_last() =~= Seq::<char>::empty());
        assert(dec_rep(n).last() == dec_digit(n as int));
        assert(digits_val(Seq::<char>::empty()) == 0);
        assert(digits_val(dec_rep(n)) == 0 * 10 + (dec_digit(n as int) as u32 - 48));
    } else {
        lemma_dec_rep(n / 10);
        assert(dec_rep(n).drop_last() =~= dec_rep(n / 10));
        assert(dec_rep(n).last() == dec_digit((n % 10) as int));
        assert(forall|j: int|
            0 <= j < dec_rep(n / 10).len() ==> dec_rep(n)[j] == #[trigger] dec_rep(n / 10)[j]);
        assert(digits_val(dec_rep(n)) == digits_val(dec_rep(n / 10)) * 10 + (dec_digit(
            (n % 10) as int,
        ) as u32 - 48));
        assert(n / 10 * 10 + n % 10 == n);
    }
}

proof fn lemma_digits_val_nonneg(s: Seq<char>)
    requires
        forall|t: int| 0 <= t < s.len() ==> is_digit_char(#[trigger] s[t]),
    ensures
        digits_val(s) >= 0,
    decreases s.len(),
{
    if s.len() > 0 {
        let dl = s.drop_last();
        assert(forall|t: int| 0 <= t < dl.len() ==> is_digit_char(#[trigger] dl[t]));
        lemma_digits_val_nonneg(dl);
    }
}

proof fn lemma_digits_val_prefix(s: Seq<char>, j: int)
    requires
        0 <= j <= s.len(),
        forall|t: int| 0 <= t < s.len() ==> is_digit_char(#[trigger] s[t]),
    ensures
        digits_val(s.subrange(0, j)) <= digits_val(s),
    decreases s.len(),
{
    if j == s.len() {
        assert(s.subrange(0, j) =~= s);
    } else {
        let dl = s.drop_last();
        assert(forall|t: int| 0 <= t < dl.len() ==> is_digit_char(#[trigger] dl[t]));
        assert(s.subrange(0, j) =~= dl.subrange(0, j));
        lemma_digits_val_prefix(dl, j);
        lemma_digits_val_nonneg(dl);
    }
}

/// The first character of a rendering names the document's shape, and is
/// never white space.
proof fn lemma_render_first(d: Document, pad: Seq<char>)
    ensures
        render(d, pad).len() >= 1,
        !is_ws_char(render(d, pad)[0]),
        match d {
            Document::Null => render(d, pad)[0] == 'n',
            Document::Bool(b) => render(d, pad)[0] == (if b {
                't'
            } else {
                'f'
            }),
            Document::Int(i) => (render(d, pad)[0] == '-' || is_digit_char(render(d, pad)[0])) && (
            (render(d, pad)[0] == '-') <==> i < 0),
            Document::Text(_) => render(d, pad)[0] == '"',
            Document::Array(_) => render(d, pad)[0] == '[',
            Document::Object(_) => render(d, pad)[0] == '{',
        },
{
    reveal_strlit("null");
    reveal_strlit("true");
    reveal_strlit("false");
    reveal_strlit("[]");
    reveal_strlit("{}");
    match d {
        Document::Int(i) => {
            let a = (if i < 0 {
                -(i as int)
            } else {
                i as int
            }) as nat;
            lemma_dec_rep(a);
            if i < 0 {
                assert(render(d, pad)[0] == '-');
            } else {
                assert(render(d, pad)[0] == dec_rep(a)[0]);
                assert(is_digit_char(dec_rep(a)[0]));
            }
        },
        _ => {},
    }
}

/// A match of `w` in `v` restricts to a match of any slice of `w`.
proof fn lemma_sub_match(v: Seq<char>, i: int, w: Seq<char>, a: int, b: int)
    requires
        starts_with_at(v, i, w),
        0 <= a <= b <= w.len(),
    ensures
        starts_with_at(v, i + a, w.subrange(a, b)),
        v.subrange(i + a, i + b) == w.subrange(a, b),
{
    assert forall|t: int| 0 <= t < b - a implies v[i + a + t] == w.subrange(a, b)[t] by {
        assert(v.subrange(i, i + w.len())[a + t] == v[i + a + t]);
    }
    assert(v.subrange(i + a, i + b) =~= w.subrange(a, b));
}

/// A match of `w` in `v` fixes each character.
proof fn lemma_chr_match(v: Seq<char>, i: int, w: Seq<char>, j: int)
    requires
        starts_with_at(v, i, w),
        0 <= j < w.len(),
    ensures
        v[i + j] == w[j],
{
    assert(v.subrange(i, i + w.len())[j] == v[i + j]);
}

/// A run of white space followed by a non-white-space character pins where
/// `skip_ws` stops.
proof fn lemma_ws_run(v: Seq<char>, pos: int, r: int, target: int)
    requires
        pos <= r <= v.len(),
        forall|j: int| pos <= j < r ==> is_ws_char(#[trigger] v[j]),
        r < v.len() ==> !is_ws_char(v[r]),
        pos <= target <= v.len(),
        forall|j: int| pos <= j < target ==> is_ws_char(#[trigger] v[j]),
        target < v.len() ==> !is_ws_char(v[target]),
    ensures
        r == target,
{
    if r < target {
        assert(is_ws_char(v[r]));
    }
    if target < r {
        assert(is_ws_char(v[target]));
    }
}

/// How one character's escape looks, read back from its first bytes.
proof fn lemma_escape_unit(c: char)
    ensures
        ({
            let e = escape_char(c);
            &&& e.len() == 1 || e.len() == 2 || e.len() == 6
            &&& (e.len() == 1 ==> e == seq![c] && c != '"' && c != '\\' && !((c as u32) < 0x20))
            &&& (e.len() >= 2 ==> e[0] == '\\')
            &&& (e.len() == 2 ==> ((e[1] == '"' ==> c == '"') && (e[1] == '\\' ==> c == '\\')
                && (e[1] == 'b' ==> c == '\u{8}') && (e[1] == 't' ==> c == '\t') && (e[1] == 'n'
                ==> c == '\n') && (e[1] == 'f' ==> c == '\u{c}') && (e[1] == 'r' ==> c == '\r')
                && (e[1] == '"' || e[1] == '\\' || e[1] == 'b' || e[1] == 't' || e[1] == 'n' || e[1]
                == 'f' || e[1] == 'r')))
            &&& (e.len() == 6 ==> e[1] == 'u' && e[2] == '0' && e[3] == '0' && (c as u32) < 0x20
                && e[4] == hex_digit((c as u32) as int / 16) && e[5] == hex_digit(
                (c as u32) as int % 16,
            ))
        }),
{
}

/// First non-white-space position at or after `pos`.
fn skip_ws(v: &Vec<char>, pos: usize) -> (r: usize)
    requires
        pos <= v@.len(),
    ensures
        pos <= r <= v@.len(),
        forall|j: int| pos <= j < r ==> is_ws_char(#[trigger] v@[j]),
        r < v@.len() ==> !is_ws_char(v@[r as int]),
{
    let mut i = pos;
    while i < v.len() && (v[i] == ' ' || v[i] == '\n' || v[i] == '\t' || v[i] == '\r')
        invariant
            pos <= i <= v@.len(),
            forall|j: int| pos <= j < i ==> is_ws_char(#[trigger] v@[j]),
        decreases v@.len() - i,
    {
        i = i + 1;
    }
    i
}

/// Value of a hexadecimal digit character.
fn hex_val(c: char) -> (r: Option<u8>)
    ensures
        r == (if is_digit_char(c) {
            Some(((c as u32) - 48) as u8)
        } else if 'a' <= c && c <= 'f' {
            Some(((c as u32) - 87) as u8)
        } else if 'A' <= c && c <= 'F' {
            Some(((c as u32) - 55) as u8)
        } else {
            None::<u8>
        }),
{
    let u = c as u32;
    if u >= 48 && u <= 57 {
        Some((u - 48) as u8)
    } else if u >= 97 && u <= 102 {
        Some((u - 97 + 10) as u8)
    } else if u >= 65 && u <= 70 {
        Some((u - 65 + 10) as u8)
    } else {
        None
    }
}

/// Mid-string state: `parsed` characters of the candidate string are read,
/// and the cursor sits on the escape of the next one (or the closing quote).
spec fn str_inv(v: Seq<char>, pos: int, s: Seq<char>, parsed: Seq<char>, i: int) -> bool {
    &&& parsed.len() <= s.len()
    &&& parsed == s.subrange(0, parsed.len() as int)
    &&& starts_with_at(v, i, escape_from(s, parsed.len() as int) + seq!['"'])
    &&& i + escape_from(s, parsed.len() as int).len() + 1 == pos + quoted(s).len()
}

/// A candidate mid-string fixes the next escape unit under the cursor and
/// lets the state advance over it.
proof fn lemma_str_step(v: Seq<char>, pos: int, s: Seq<char>, parsed: Seq<char>, i: int)
    requires
        str_inv(v, pos, s, parsed, i),
        parsed.len() < s.len(),
    ensures
        ({
            let c = s[parsed.len() as int];
            let e = escape_char(c);
            &&& i + e.len() <= v.len()
            &&& (forall|t: int| 0 <= t < e.len() ==> v[i + t] == #[trigger] e[t])
            &&& str_inv(v, pos, s, parsed.push(c), i + e.len())
        }),
{
    let k = parsed.len() as int;
    let c = s[k];
    let e = escape_char(c);
    let rest = escape_from(s, k) + seq!['"'];
    assert(escape_from(s, k) == e + escape_from(s, k + 1));
    assert forall|t: int| 0 <= t < e.len() implies v[i + t] == #[trigger] e[t] by {
        lemma_chr_match(v, i, rest, t);
    }
    lemma_sub_match(v, i, rest, e.len() as int, rest.len() as int);
    assert(rest.subrange(e.len() as int, rest.len() as int) =~= escape_from(s, k + 1)
        + seq!['"']);
    assert(parsed.push(c) =~= s.subrange(0, k + 1));
}

/// With a backslash under the cursor, every candidate is mid-string in a
/// two- or six-character escape.
proof fn lemma_str_backslash(v: Seq<char>, pos: int, s: Seq<char>, parsed: Seq<char>, i: int)
    requires
        str_inv(v, pos, s, parsed, i),
        i < v.len(),
        v[i] == '\\',
    ensures
        parsed.len() < s.len(),
        ({
            let c = s[parsed.len() as int];
            let e = escape_char(c);
            &&& (e.len() == 2 || e.len() == 6)
            &&& i + e.len() <= v.len()
            &&& (forall|t: int| 0 <= t < e.len() ==> v[i + t] == #[trigger] e[t])
            &&& str_inv(v, pos, s, parsed.push(c), i + e.len())
        }),
{
    let k = parsed.len() as int;
    if k >= s.len() {
        assert(escape_from(s, k).len() == 0);
        lemma_chr_match(v, i, escape_from(s, k) + seq!['"'], 0);
        assert((escape_from(s, k) + seq!['"'])[0] == '"');
        assert(false);
    }
    lemma_str_step(v, pos, s, parsed, i);
    lemma_escape_unit(s[k]);
    assert(v[i + 0] == escape_char(s[k])[0]);
}

/// Parse a JSON string literal starting at the opening quote. On text that
/// holds exactly a rendered string literal, this yields exactly its
/// characters and stops after the closing quote.
#[verifier::loop_isolation(false)]
#[verifier::rlimit(100)]
#[verifier::spinoff_prover]
fn parse_string(v: &Vec<char>, pos: usize) -> (r: Option<(String, usize)>)
    requires
        pos < v@.len(),
    ensures
        r matches Some(p) ==> pos < p.1 <= v@.len(),
        forall|s: Seq<char>| #[trigger] quoted_at(v@, pos as int, s) ==> (r matches Some(p)
            && p.0@ == s && p.1 == pos + quoted(s).len()),
{
    let n = v.len();
    if v[pos] != '"' {
        proof {
            assert forall|s: Seq<char>| #[trigger] quoted_at(v@, pos as int, s) implies false by {
                lemma_chr_match(v@, pos as int, quoted(s), 0);
                assert(quoted(s)[0] == '"');
            }
        }
        return None;
    }
    let mut out: Vec<char> = Vec::new();
    let mut i = pos + 1;
    proof {
        assert forall|s: Seq<char>| #[trigger] quoted_at(v@, pos as int, s) implies str_inv(
            v@,
            pos as int,
            s,
            out@,
            i as int,
        ) by {
            lemma_sub_match(v@, pos as int, quoted(s), 1, quoted(s).len() as int);
            assert(quoted(s).subrange(1, quoted(s).len() as int) =~= escape_from(s, 0)
                + seq!['"']);
            assert(out@ =~= s.subrange(0, 0));
        }
    }
    while i < v.len()
        invariant
            pos < i <= v@.len(),
            forall|s: Seq<char>| #[trigger] quoted_at(v@, pos as int, s) ==> str_inv(
                v@,
                pos as int,
                s,
                out@,
                i as int,
            ),
        decreases v@.len() - i,
    {
        let c = v[i];
        if c == '"' {
            proof {
                assert forall|s: Seq<char>| #[trigger] quoted_at(v@, pos as int, s) implies (out@
                    == s && i + 1 == pos + quoted(s).len()) by {
                    let k = out@.len() as int;
                    if k < s.len() {
                        lemma_str_step(v@, pos as int, s, out@, i as int);
                        lemma_escape_unit(s[k]);
                        assert(v@[i + 0] == escape_char(s[k])[0]);
                        assert(false);
                    }
                    assert(escape_from(s, k).len() == 0);
                    assert(out@ =~= s);
                }
            }
            return Some((string_of(&out), i + 1));
        }
        if c == '\\' {
            if i + 1 >= v.len() {
                proof {
                    assert forall|s: Seq<char>| #[trigger] quoted_at(
                        v@,
                        pos as int,
                        s,
                    ) implies false by {
                        lemma_str_backslash(v@, pos as int, s, out@, i as int);
                    }
                }
                return None;
            }
            let e = v[i + 1];
            let ghost out0 = out@;
            if e == '"' {
                out.push('"');
                proof {
                    assert forall|s: Seq<char>| #[trigger] quoted_at(
                        v@,
                        pos as int,
                        s,
                    ) implies str_inv(v@, pos as int, s, out@, i + 2) by {
                        lemma_str_backslash(v@, pos as int, s, out0, i as int);
                        let c0 = s[out0.len() as int];
                        lemma_escape_unit(c0);
                        if escape_char(c0).len() == 6 {
                            assert(v@[i + 1] == escape_char(c0)[1]);
                            assert(false);
                        }
                        assert(v@[i + 1] == escape_char(c0)[1]);
                        assert(c0 == '"');
                        assert(out@ =~= out0.push(c0));
                    }
                }
            } else if e == '\\' {
                out.push('\\');
                proof {
                    assert forall|s: Seq<char>| #[trigger] quoted_at(
                        v@,
                        pos as int,
                        s,
                    ) implies str_inv(v@, pos as int, s, out@, i + 2) by {
                        lemma_str_backslash(v@, pos as int, s, out0, i as int);
                        let c0 = s[out0.len() as int];
                        lemma_escape_unit(c0);
                        if escape_char(c0).len() == 6 {
                            assert(v@[i + 1] == escape_char(c0)[1]);
                            assert(false);
                        }
                        assert(v@[i + 1] == escape_char(c0)[1]);
                        assert(c0 == '\\');
                        assert(out@ =~= out0.push(c0));
                    }
                }
            } else if e == '/' {
                out.push('/');
                proof {
                    assert forall|s: Seq<char>| #[trigger] quoted_at(
                        v@,
                        pos as int,
                        s,
                    ) implies str_inv(v@, pos as int, s, out@, i + 2) by {
                        lemma_str_backslash(v@, pos as int, s, out0, i as int);
                        let c0 = s[out0.len() as int];
                        lemma_escape_unit(c0);
                        assert(v@[i + 1] == escape_char(c0)[1]);
                        assert(false);
                    }
                }
            } else if e == 'b' {
                out.push('\u{8}');
                proof {
                    assert forall|s: Seq<char>| #[trigger] quoted_at(
                        v@,
                        pos as int,
                        s,
                    ) implies str_inv(v@, pos as int, s, out@, i + 2) by {
                        lemma_str_backslash(v@, pos as int, s, out0, i as int);
                        let c0 = s[out0.len() as int];
                        lemma_escape_unit(c0);
                        if escape_char(c0).len() == 6 {
                            assert(v@[i + 1] == escape_char(c0)[1]);
                            assert(false);
                        }
                        assert(v@[i + 1] == escape_char(c0)[1]);
                        assert(c0 == '\u{8}');
                        assert(out@ =~= out0.push(c0));
                    }
                }
            } else if e == 'f' {
                out.push('\u{c}');
                proof {
                    assert forall|s: Seq<char>| #[trigger] quoted_at(
                        v@,
                        pos as int,
                        s,
                    ) implies str_inv(v@, pos as int, s, out@, i + 2) by {
                        lemma_str_backslash(v@, pos as int, s, out0, i as int);
                        let c0 = s[out0.len() as int];
                        lemma_escape_unit(c0);
                        if escape_char(c0).len() == 6 {
                            assert(v@[i + 1] == escape_char(c0)[1]);
                            assert(false);
                        }
                        assert(v@[i + 1] == escape_char(c0)[1]);
                        assert(c0 == '\u{c}');
                        assert(out@ =~= out0.push(c0));
                    }
                }
            } else if e == 'n' {
                out.push('\n');
                proof {
                    assert forall|s: Seq<char>| #[trigger] quoted_at(
                        v@,
                        pos as int,
                        s,
                    ) implies str_inv(v@, pos as int, s, out@, i + 2) by {
                        lemma_str_backslash(v@, pos as int, s, out0, i as int);
                        let c0 = s[out0.len() as int];
                        lemma_escape_unit(c0);
                        if escape_char(c0).len() == 6 {
                            assert(v@[i + 1] == escape_char(c0)[1]);
                            assert(false);
                        }
                        assert(v@[i + 1] == escape_char(c0)[1]);
                        assert(c0 == '\n');
                        assert(out@ =~= out0.push(c0));
                    }
                }
            } else if e == 'r' {
                out.push('\r');
                proof {
                    assert forall|s: Seq<char>| #[trigger] quoted_at(
                        v@,
                        pos as int,
                        s,
                    ) implies str_inv(v@, pos as int, s, out@, i + 2) by {
                        lemma_str_backslash(v@, pos as int, s, out0, i as int);
                        let c0 = s[out0.len() as int];
                        lemma_escape_unit(c0);
                        if escape_char(c0).len() == 6 {
                            assert(v@[i + 1] == escape_char(c0)[1]);
                            assert(false);
                        }
                        assert(v@[i + 1] == escape_char(c0)[1]);
                        assert(c0 == '\r');
                        assert(out@ =~= out0.push(c0));
                    }
                }
            } else if e == 't' {
                out.push('\t');
                proof {
                    assert forall|s: Seq<char>| #[trigger] quoted_at(
                        v@,
                        pos as int,
                        s,
                    ) implies str_inv(v@, pos as int, s, out@, i + 2) by {
                        lemma_str_backslash(v@, pos as int, s, out0, i as int);
                        let c0 = s[out0.len() as int];
                        lemma_escape_unit(c0);
                        if escape_char(c0).len() == 6 {
                            assert(v@[i + 1] == escape_char(c0)[1]);
                            assert(false);
                        }
                        assert(v@[i + 1] == escape_char(c0)[1]);
                        assert(c0 == '\t');
                        assert(out@ =~= out0.push(c0));
                    }
                }
            } else if e == 'u' {
                if v.len() - i < 6 {
                    proof {
                        assert forall|s: Seq<char>| #[trigger] quoted_at(
                            v@,
                            pos as int,
                            s,
                        ) implies false by {
                            lemma_str_backslash(v@, pos as int, s, out0, i as int);
                            let c0 = s[out0.len() as int];
                            lemma_escape_unit(c0);
                            if escape_char(c0).len() == 2 {
                                assert(v@[i + 1] == escape_char(c0)[1]);
                            }
                            assert(i + 6 <= v@.len());
                        }
                    }
                    return None;
                }
                let h1 = hex_val(v[i + 2]);
                let h2 = hex_val(v[i + 3]);
                let h3 = hex_val(v[i + 4]);
                let h4 = hex_val(v[i + 5]);
                match (h1, h2, h3, h4) {
                    (Some(a), Some(b), Some(c2), Some(d)) => {
                        let code: u32 = (a as u32) * 4096 + (b as u32) * 256 + (c2 as u32) * 16
                            + (d as u32);
                        if code < 128 {
                            out.push(code as u8 as char);
                            proof {
                                assert forall|s: Seq<char>| #[trigger] quoted_at(
                                    v@,
                                    pos as int,
                                    s,
                                ) implies str_inv(v@, pos as int, s, out@, i + 6) by {
                                    lemma_str_backslash(v@, pos as int, s, out0, i as int);
                                    let c0 = s[out0.len() as int];
                                    lemma_escape_unit(c0);
                                    if escape_char(c0).len() == 2 {
                                        assert(v@[i + 1] == escape_char(c0)[1]);
                                        assert(false);
                                    }
                                    let hi = (c0 as u32) as int / 16;
                                    let lo = (c0 as u32) as int % 16;
                                    lemma_hex_digit(hi);
                                    lemma_hex_digit(lo);
                                    lemma_dec_digit(hi);
                                    assert(v@[i + 2] == escape_char(c0)[2]);
                                    assert(v@[i + 3] == escape_char(c0)[3]);
                                    assert(v@[i + 4] == escape_char(c0)[4]);
                                    assert(v@[i + 5] == escape_char(c0)[5]);
                                    assert(a == 0 && b == 0);
                                    assert(c2 as int == hi && d as int == lo);
                                    assert(code == c0 as u32);
                                    assert(code as u8 as char == c0) by {
                                        let pc = code as u8 as char;
                                        assert(pc as u32 == code);
                                        vstd::utf8::char_u32_cast(c0, code);
                                        vstd::utf8::char_u32_cast(pc, code);
                                    }
                                    assert(out@ =~= out0.push(c0));
                                }
                            }
                            i = i + 6;
                            continue;
                        } else {
                            proof {
                                assert forall|s: Seq<char>| #[trigger] quoted_at(
                                    v@,
                                    pos as int,
                                    s,
                                ) implies false by {
                                    lemma_str_backslash(v@, pos as int, s, out0, i as int);
                                    let c0 = s[out0.len() as int];
                                    lemma_escape_unit(c0);
                                    if escape_char(c0).len() == 2 {
                                        assert(v@[i + 1] == escape_char(c0)[1]);
                                        assert(false);
                                    }
                                    let hi = (c0 as u32) as int / 16;
                                    let lo = (c0 as u32) as int % 16;
                                    lemma_hex_digit(hi);
                                    lemma_hex_digit(lo);
                                    lemma_dec_digit(hi);
                                    assert(v@[i + 2] == escape_char(c0)[2]);
                                    assert(v@[i + 3] == escape_char(c0)[3]);
                                    assert(v@[i + 4] == escape_char(c0)[4]);
                                    assert(v@[i + 5] == escape_char(c0)[5]);
                                    assert(code == c0 as u32);
                                }
                            }
                            return None;
                        }
                    },
                    _ => {
                        proof {
                            assert forall|s: Seq<char>| #[trigger] quoted_at(
                                v@,
                                pos as int,
                                s,
                            ) implies false by {
                                lemma_str_backslash(v@, pos as int, s, out0, i as int);
                                let c0 = s[out0.len() as int];
                                lemma_escape_unit(c0);
                                if escape_char(c0).len() == 2 {
                                    assert(v@[i + 1] == escape_char(c0)[1]);
                                    assert(false);
                                }
                                let hi = (c0 as u32) as int / 16;
                                let lo = (c0 as u32) as int % 16;
                                lemma_hex_digit(hi);
                                lemma_hex_digit(lo);
                                lemma_dec_digit(hi);
                                assert(v@[i + 2] == escape_char(c0)[2]);
                                assert(v@[i + 3] == escape_char(c0)[3]);
                                assert(v@[i + 4] == escape_char(c0)[4]);
                                assert(v@[i + 5] == escape_char(c0)[5]);
                            }
                        }
                        return None;
                    },
                }
            } else {
                proof {
                    assert forall|s: Seq<char>| #[trigger] quoted_at(
                        v@,
                        pos as int,
                        s,
                    ) implies false by {
                        lemma_str_backslash(v@, pos as int, s, out0, i as int);
                        let c0 = s[out0.len() as int];
                        lemma_escape_unit(c0);
                        assert(v@[i + 1] == escape_char(c0)[1]);
                    }
                }
                return None;
            }
            i = i + 2;
            continue;
        }
        let ghost out0 = out@;
        out.push(c);
        proof {
            assert forall|s: Seq<char>| #[trigger] quoted_at(v@, pos as int, s) implies str_inv(
                v@,
                pos as int,
                s,
                out@,
                i + 1,
            ) by {
                let k = out0.len() as int;
                if k >= s.len() {
                    assert(escape_from(s, k).len() == 0);
                    lemma_chr_match(v@, i as int, escape_from(s, k) + seq!['"'], 0);
                    assert((escape_from(s, k) + seq!['"'])[0] == '"');
                    assert(false);
                }
                lemma_str_step(v@, pos as int, s, out0, i as int);
                lemma_escape_unit(s[k]);
                assert(v@[i + 0] == escape_char(s[k])[0]);
                assert(escape_char(s[k]) == seq![s[k]]);
                assert(out@ =~= out0.push(s[k]));
            }
        }
        i = i + 1;
    }
    proof {
        assert forall|s: Seq<char>| #[trigger] quoted_at(v@, pos as int, s) implies false by {
            assert(str_inv(v@, pos as int, s, out@, i as int));
        }
    }
    None
}

/// What a number candidate at `pos` forces on the text: its sign character,
/// a digit run reading back to its magnitude, and the run's bounds.
proof fn lemma_num_candidate(v: Seq<char>, pos: int, n: i64)
    requires
        num_at(v, pos, n),
    ensures
        ({
            let a = (if n < 0 {
                -(n as int)
            } else {
                n as int
            }) as nat;
            let start = pos + (if n < 0 {
                1int
            } else {
                0int
            });
            let l = dec_rep(a).len() as int;
            &&& 0 <= pos < v.len()
            &&& ((n < 0) <==> v[pos] == '-')
            &&& a <= 9223372036854775808
            &&& l >= 1
            &&& start + l <= v.len()
            &&& v.subrange(start, start + l) == dec_rep(a)
            &&& digits_val(dec_rep(a)) == a
            &&& (forall|j: int| start <= j < start + l ==> is_digit_char(#[trigger] v[j]))
            &&& (start + l == v.len() || !is_digit_char(v[start + l]))
            &&& pos + int_rep(n as int).len() == start + l
        }),
{
    let a = (if n < 0 {
        -(n as int)
    } else {
        n as int
    }) as nat;
    let start = pos + (if n < 0 {
        1int
    } else {
        0int
    });
    let rep = int_rep(n as int);
    let l = dec_rep(a).len() as int;
    lemma_dec_rep(a);
    if n < 0 {
        assert(rep == seq!['-'] + dec_rep(a));
        lemma_chr_match(v, pos, rep, 0);
        lemma_sub_match(v, pos, rep, 1, rep.len() as int);
        assert(rep.subrange(1, rep.len() as int) =~= dec_rep(a));
    } else {
        assert(rep == dec_rep(a));
        lemma_sub_match(v, pos, rep, 0, rep.len() as int);
        assert(rep.subrange(0, rep.len() as int) =~= dec_rep(a));
        lemma_chr_match(v, pos, rep, 0);
        assert(is_digit_char(v[pos]));
    }
    assert forall|j: int| start <= j < start + l implies is_digit_char(v[j]) by {
        assert(v.subrange(start, start + l)[j - start] == v[j]);
        assert(is_digit_char(dec_rep(a)[j - start]));
    }
}

/// Inside a rendered integer the digit accumulator never leaves u64.
proof fn lemma_number_overflow(v: Seq<char>, pos: int, start: int, i: int, m: int)
    requires
        pos < v.len(),
        start == pos + (if v[pos] == '-' {
            1int
        } else {
            0int
        }),
        start <= i < v.len(),
        is_digit_char(v[i]),
        forall|j: int| start <= j < i ==> is_digit_char(#[trigger] v[j]),
        m == digits_val(v.subrange(start, i)),
        m * 10 + (v[i] as u32 - 48) > 18446744073709551615,
    ensures
        forall|n0: i64| !num_at(v, pos, n0),
{
    assert forall|n0: i64| !num_at(v, pos, n0) by {
        if num_at(v, pos, n0) {
            lemma_num_candidate(v, pos, n0);
            let a = (if n0 < 0 {
                -(n0 as int)
            } else {
                n0 as int
            }) as nat;
            let l = dec_rep(a).len() as int;
            assert(i < start + l) by {
                if i >= start + l {
                    if start + l < i {
                        assert(is_digit_char(v[start + l]));
                    }
                }
            }
            assert forall|t: int| 0 <= t < i + 1 - start implies #[trigger] v.subrange(
                start,
                i + 1,
            )[t] == dec_rep(a).subrange(0, i + 1 - start)[t] by {
                assert(v.subrange(start, start + l)[t] == v[start + t]);
            }
            assert(v.subrange(start, i + 1) =~= dec_rep(a).subrange(0, i + 1 - start));
            assert(v.subrange(start, i + 1).drop_last() =~= v.subrange(start, i));
            assert(v.subrange(start, i + 1).last() == v[i]);
            assert(digits_val(v.subrange(start, i + 1)) == m * 10 + (v[i] as u32 - 48));
            lemma_digits_val_prefix(dec_rep(a), i + 1 - start);
            assert(false);
        }
    }
}

/// Parse a JSON integer starting at a digit or `-`. On text that holds a
/// rendered integer bounded by a non-digit, this yields exactly that
/// integer and stops exactly after it.
#[verifier::loop_isolation(false)]
#[verifier::rlimit(100)]
fn parse_number(v: &Vec<char>, pos: usize) -> (r: Option<(i64, usize)>)
    requires
        pos < v@.len(),
    ensures
        r matches Some(p) ==> pos < p.1 <= v@.len(),
        forall|n0: i64| #[trigger] num_at(v@, pos as int, n0) ==> (r matches Some(p) && p.0 == n0
            && p.1 == pos + int_rep(n0 as int).len()),
{
    let n = v.len();
    let neg = v[pos] == '-';
    let mut i = if neg {
        pos + 1
    } else {
        pos
    };
    let ghost start = i as int;
    let mut m: u64 = 0;
    let mut any = false;
    proof {
        assert(v@.subrange(start, start) =~= Seq::<char>::empty());
    }
    while i < v.len() && v[i] >= '0' && v[i] <= '9'
        invariant
            start <= i <= v@.len(),
            start == pos + (if neg {
                1int
            } else {
                0int
            }),
            neg == (v@[pos as int] == '-'),
            any <==> i > start,
            forall|j: int| start <= j < i ==> is_digit_char(#[trigger] v@[j]),
            m as int == digits_val(v@.subrange(start, i as int)),
        decreases v@.len() - i,
    {
        let d = (v[i] as u32 - 48) as u64;
        proof {
            assert(v@.subrange(start, i + 1).drop_last() =~= v@.subrange(start, i as int));
            assert(v@.subrange(start, i + 1).last() == v@[i as int]);
        }
        let m10 = match m.checked_mul(10) {
            Some(x) => x,
            None => {
                proof {
                    lemma_number_overflow(v@, pos as int, start, i as int, m as int);
                }
                return None;
            },
        };
        m = match m10.checked_add(d) {
            Some(x) => x,
            None => {
                proof {
                    lemma_number_overflow(v@, pos as int, start, i as int, m as int);
                }
                return None;
            },
        };
        any = true;
        i = i + 1;
    }
    if !any {
        proof {
            assert forall|n0: i64| !num_at(v@, pos as int, n0) by {
                if num_at(v@, pos as int, n0) {
                    lemma_num_candidate(v@, pos as int, n0);
                }
            }
        }
        return None;
    }
    proof {
        assert forall|n0: i64| #[trigger] num_at(v@, pos as int, n0) implies (i as int == pos
            + int_rep(n0 as int).len() && ((n0 < 0) <==> neg) && m as int == (if n0 < 0 {
            -(n0 as int)
        } else {
            n0 as int
        })) by {
            lemma_num_candidate(v@, pos as int, n0);
            let a = (if n0 < 0 {
                -(n0 as int)
            } else {
                n0 as int
            }) as nat;
            let l = dec_rep(a).len() as int;
            if (i as int) < start + l {
                lemma_chr_match(v@, start, dec_rep(a), i - start);
                assert(is_digit_char(v@[i as int]));
                assert(false);
            }
            if (i as int) > start + l {
                assert(is_digit_char(v@[start + l]));
                assert(false);
            }
            assert(v@.subrange(start, i as int) == dec_rep(a));
        }
    }
    if neg {
        if m <= 9223372036854775808u64 {
            if m == 9223372036854775808u64 {
                Some((i64::MIN, i))
            } else {
                Some((-(m as i64), i))
            }
        } else {
            None
        }
    } else {
        if m <= 9223372036854775807u64 {
            Some((m as i64, i))
        } else {
            None
        }
    }
}

/// Check for the exact characters of `lit` at `pos`.
#[verifier::loop_isolation(false)]
fn expect_lit(v: &Vec<char>, pos: usize, lit: &Vec<char>) -> (r: bool)
    ensures
        r == starts_with_at(v@, pos as int, lit@),
{
    if lit.len() > v.len() || pos > v.len() - lit.len() {
        return false;
    }
    let mut j: usize = 0;
    while j < lit.len()
        invariant
            pos + lit@.len() <= v@.len(),
            j <= lit@.len(),
            forall|t: int| 0 <= t < j ==> v@[pos + t] == lit@[t],
        decreases lit@.len() - j,
    {
        if v[pos + j] != lit[j] {
            proof {
                if starts_with_at(v@, pos as int, lit@) {
                    lemma_chr_match(v@, pos as int, lit@, j as int);
                }
            }
            return false;
        }
        j = j + 1;
    }
    proof {
        assert(v@.subrange(pos as int, pos + lit@.len()) =~= lit@);
    }
    true
}

/// Two more spaces of indentation are still all spaces.
proof fn lemma_pad2_spaces(pad: Seq<char>)
    requires
        all_spaces(pad),
    ensures
        all_spaces(pad + "  "@),
        (pad + "  "@).len() == pad.len() + 2,
{
    reveal_strlit("  ");
    assert forall|i: int| 0 <= i < (pad + "  "@).len() implies (pad + "  "@)[i] == ' ' by {
        if i >= pad.len() {
            assert((pad + "  "@)[i] == "  "@[i - pad.len()]);
        }
    }
}

/// Mid-array state: `parsed` of the candidate's elements are read (up to
/// structural equality) and the cursor sits on the next element.
spec fn arr_inv(
    v: Seq<char>,
    items: Seq<Document>,
    pad: Seq<char>,
    parsed: Seq<Document>,
    i: int,
    endp: int,
) -> bool {
    let pad2 = pad + "  "@;
    let np = parsed.len() as int;
    &&& 0 <= np < items.len()
    &&& all_spaces(pad)
    &&& (forall|t: int| 0 <= t < np ==> doc_like(#[trigger] parsed[t], items[t]))
    &&& value_at(v, i, items[np], pad2)
    &&& ({
        let after = i + render(items[np], pad2).len();
        let rest = render_elems(items, pad2, np + 1) + seq!['\n'] + pad + seq![']'];
        &&& after + rest.len() == endp
        &&& endp <= v.len()
        &&& v.subrange(after, endp) == rest
    })
}

/// Mid-object state, likewise, with the cursor on the next field's key.
spec fn obj_inv(
    v: Seq<char>,
    prs: Seq<(String, Document)>,
    pad: Seq<char>,
    parsed: Seq<(String, Document)>,
    i: int,
    endp: int,
) -> bool {
    let pad2 = pad + "  "@;
    let np = parsed.len() as int;
    &&& 0 <= np < prs.len()
    &&& all_spaces(pad)
    &&& (forall|t: int|
        0 <= t < np ==> (#[trigger] parsed[t]).0@ == prs[t].0@ && doc_like(
            parsed[t].1,
            prs[t].1,
        ))
    &&& quoted_at(v, i, prs[np].0@)
    &&& ({
        let ak = i + quoted(prs[np].0@).len();
        &&& ak + 2 <= v.len()
        &&& v[ak] == ':'
        &&& v[ak + 1] == ' '
        &&& value_at(v, ak + 2, prs[np].1, pad2)
        &&& ({
            let after = ak + 2 + render(prs[np].1, pad2).len();
            let rest = render_fields(prs, pad2, np + 1) + seq!['\n'] + pad + seq!['}'];
            &&& after + rest.len() == endp
            &&& endp <= v.len()
            &&& v.subrange(after, endp) == rest
        })
    })
}

/// What a non-empty array candidate forces after its opening bracket: a
/// newline, the deeper indentation, then its first element.
proof fn lemma_arr_open(v: Seq<char>, pos: int, items: Seq<Document>, pad: Seq<char>, d: Document)
    requires
        value_at(v, pos, d, pad),
        d matches Document::Array(iv) && iv@ == items,
        items.len() > 0,
    ensures
        ({
            let pad2 = pad + "  "@;
            let e0 = pos + 2 + pad2.len();
            &&& pos + 1 < e0 < v.len()
            &&& (forall|j: int| pos + 1 <= j < e0 ==> is_ws_char(#[trigger] v[j]))
            &&& !is_ws_char(v[e0])
            &&& arr_inv(v, items, pad, Seq::empty(), e0, pos + render(d, pad).len())
        }),
{
    let pad2 = pad + "  "@;
    let e0 = pos + 2 + pad2.len();
    let rd = render(d, pad);
    let tail = render_elems(items, pad2, 1) + seq!['\n'] + pad + seq![']'];
    lemma_pad2_spaces(pad);
    assert(render_elems(items, pad2, 0) == seq!['\n'] + pad2 + render(items[0], pad2)
        + render_elems(items, pad2, 1));
    assert(rd =~= seq!['['] + seq!['\n'] + pad2 + render(items[0], pad2) + tail);
    lemma_render_first(items[0], pad2);
    assert forall|j: int| pos + 1 <= j < e0 implies is_ws_char(#[trigger] v[j]) by {
        lemma_chr_match(v, pos, rd, j - pos);
        if j == pos + 1 {
            assert(rd[1] == '\n');
        } else {
            assert(rd[j - pos] == pad2[j - pos - 2]);
        }
    }
    lemma_chr_match(v, pos, rd, e0 - pos);
    assert(rd[e0 - pos] == render(items[0], pad2)[0]);
    lemma_sub_match(v, pos, rd, e0 - pos, e0 - pos + render(items[0], pad2).len());
    assert(rd.subrange(e0 - pos, e0 - pos + render(items[0], pad2).len()) =~= render(
        items[0],
        pad2,
    ));
    let after = e0 + render(items[0], pad2).len();
    lemma_sub_match(v, pos, rd, after - pos, rd.len() as int);
    assert(rd.subrange(after - pos, rd.len() as int) =~= tail);
    if items.len() > 1 {
        assert(render_elems(items, pad2, 1) == seq![','] + seq!['\n'] + pad2 + render(
            items[1],
            pad2,
        ) + render_elems(items, pad2, 2));
        lemma_chr_match(v, after, tail, 0);
        assert(tail[0] == ',');
    } else {
        assert(render_elems(items, pad2, 1).len() == 0);
        lemma_chr_match(v, after, tail, 0);
        assert(tail[0] == '\n');
    }
}

/// What a non-empty object candidate forces after its opening brace.
#[verifier::rlimit(100)]
#[verifier::spinoff_prover]
proof fn lemma_obj_open(
    v: Seq<char>,
    pos: int,
    prs: Seq<(String, Document)>,
    pad: Seq<char>,
    d: Document,
)
    requires
        value_at(v, pos, d, pad),
        d matches Document::Object(pv) && pv@ == prs,
        prs.len() > 0,
    ensures
        ({
            let pad2 = pad + "  "@;
            let e0 = pos + 2 + pad2.len();
            &&& pos + 1 < e0 < v.len()
            &&& (forall|j: int| pos + 1 <= j < e0 ==> is_ws_char(#[trigger] v[j]))
            &&& !is_ws_char(v[e0])
            &&& obj_inv(v, prs, pad, Seq::empty(), e0, pos + render(d, pad).len())
        }),
{
    reveal_strlit(": ");
    let pad2 = pad + "  "@;
    let e0 = pos + 2 + pad2.len();
    let rd = render(d, pad);
    let key = prs[0].0@;
    let tail = render_fields(prs, pad2, 1) + seq!['\n'] + pad + seq!['}'];
    lemma_pad2_spaces(pad);
    assert(render_fields(prs, pad2, 0) == seq!['\n'] + pad2 + quoted(key) + ": "@ + render(
        prs[0].1,
        pad2,
    ) + render_fields(prs, pad2, 1));
    assert(rd =~= seq!['{'] + seq!['\n'] + pad2 + quoted(key) + ": "@ + render(prs[0].1, pad2)
        + tail);
    lemma_render_first(prs[0].1, pad2);
    assert forall|j: int| pos + 1 <= j < e0 implies is_ws_char(#[trigger] v[j]) by {
        lemma_chr_match(v, pos, rd, j - pos);
        if j == pos + 1 {
            assert(rd[1] == '\n');
        } else {
            assert(rd[j - pos] == pad2[j - pos - 2]);
        }
    }
    lemma_chr_match(v, pos, rd, e0 - pos);
    assert(rd[e0 - pos] == quoted(key)[0]);
    assert(quoted(key)[0] == '"');
    lemma_sub_match(v, pos, rd, e0 - pos, e0 - pos + quoted(key).len());
    assert(rd.subrange(e0 - pos, e0 - pos + quoted(key).len()) =~= quoted(key));
    let ak = e0 + quoted(key).len();
    lemma_chr_match(v, pos, rd, ak - pos);
    assert(rd[ak - pos] == ':');
    lemma_chr_match(v, pos, rd, ak + 1 - pos);
    assert(rd[ak + 1 - pos] == ' ');
    lemma_sub_match(v, pos, rd, ak + 2 - pos, ak + 2 - pos + render(prs[0].1, pad2).len());
    assert(rd.subrange(ak + 2 - pos, ak + 2 - pos + render(prs[0].1, pad2).len()) =~= render(
        prs[0].1,
        pad2,
    ));
    let after = ak + 2 + render(prs[0].1, pad2).len();
    lemma_sub_match(v, pos, rd, after - pos, rd.len() as int);
    assert(rd.subrange(after - pos, rd.len() as int) =~= tail);
    if prs.len() > 1 {
        assert(render_fields(prs, pad2, 1) == seq![','] + seq!['\n'] + pad2 + quoted(prs[1].0@)
            + ": "@ + render(prs[1].1, pad2) + render_fields(prs, pad2, 2));
        lemma_chr_match(v, after, tail, 0);
        assert(tail[0] == ',');
    } else {
        assert(render_fields(prs, pad2, 1).len() == 0);
        lemma_chr_match(v, after, tail, 0);
        assert(tail[0] == '\n');
    }
}

/// After one array element is read, the text either closes the array or
/// moves to the next element over a comma and fresh indentation.
proof fn lemma_arr_step(
    v: Seq<char>,
    items: Seq<Document>,
    pad: Seq<char>,
    parsed: Seq<Document>,
    i: int,
    endp: int,
    dnp: Document,
)
    requires
        arr_inv(v, items, pad, parsed, i, endp),
        doc_like(dnp, items[parsed.len() as int]),
    ensures
        ({
            let pad2 = pad + "  "@;
            let np = parsed.len() as int;
            let after = i + render(items[np], pad2).len();
            &&& i < after <= v.len()
            &&& (np + 1 == items.len() ==> {
                &&& after + 2 + pad.len() == endp
                &&& (forall|j: int| after <= j < endp - 1 ==> is_ws_char(#[trigger] v[j]))
                &&& endp - 1 < v.len()
                &&& v[endp - 1] == ']'
                &&& !is_ws_char(v[endp - 1])
            })
            &&& (np + 1 < items.len() ==> {
                let e1 = after + 2 + pad2.len();
                &&& v[after] == ','
                &&& !is_ws_char(v[after])
                &&& e1 < v.len()
                &&& (forall|j: int| after + 1 <= j < e1 ==> is_ws_char(#[trigger] v[j]))
                &&& !is_ws_char(v[e1])
                &&& arr_inv(v, items, pad, parsed.push(dnp), e1, endp)
            })
        }),
{
    let pad2 = pad + "  "@;
    let np = parsed.len() as int;
    let after = i + render(items[np], pad2).len();
    let rest = render_elems(items, pad2, np + 1) + seq!['\n'] + pad + seq![']'];
    lemma_render_first(items[np], pad2);
    lemma_pad2_spaces(pad);
    if np + 1 == items.len() {
        assert(render_elems(items, pad2, np + 1).len() == 0);
        assert(rest =~= seq!['\n'] + pad + seq![']']);
        assert forall|j: int| after <= j < endp - 1 implies is_ws_char(#[trigger] v[j]) by {
            lemma_chr_match(v, after, rest, j - after);
            if j == after {
                assert(rest[0] == '\n');
            } else {
                assert(rest[j - after] == pad[j - after - 1]);
            }
        }
        lemma_chr_match(v, after, rest, endp - 1 - after);
        assert(rest[endp - 1 - after] == ']');
    } else {
        let e1 = after + 2 + pad2.len();
        let tail2 = render_elems(items, pad2, np + 2) + seq!['\n'] + pad + seq![']'];
        assert(render_elems(items, pad2, np + 1) == seq![','] + seq!['\n'] + pad2 + render(
            items[np + 1],
            pad2,
        ) + render_elems(items, pad2, np + 2));
        assert(rest =~= seq![','] + seq!['\n'] + pad2 + render(items[np + 1], pad2) + tail2);
        lemma_render_first(items[np + 1], pad2);
        lemma_chr_match(v, after, rest, 0);
        assert(rest[0] == ',');
        assert forall|j: int| after + 1 <= j < e1 implies is_ws_char(#[trigger] v[j]) by {
            lemma_chr_match(v, after, rest, j - after);
            if j == after + 1 {
                assert(rest[1] == '\n');
            } else {
                assert(rest[j - after] == pad2[j - after - 2]);
            }
        }
        lemma_chr_match(v, after, rest, e1 - after);
        assert(rest[e1 - after] == render(items[np + 1], pad2)[0]);
        lemma_sub_match(v, after, rest, e1 - after, e1 - after + render(items[np + 1], pad2).len());
        assert(rest.subrange(e1 - after, e1 - after + render(items[np + 1], pad2).len()) =~= render(
            items[np + 1],
            pad2,
        ));
        let after1 = e1 + render(items[np + 1], pad2).len();
        lemma_sub_match(v, after, rest, after1 - after, rest.len() as int);
        assert(rest.subrange(after1 - after, rest.len() as int) =~= tail2);
        if np + 2 < items.len() {
            assert(render_elems(items, pad2, np + 2) == seq![','] + seq!['\n'] + pad2 + render(
                items[np + 2],
                pad2,
            ) + render_elems(items, pad2, np + 3));
            lemma_chr_match(v, after1, tail2, 0);
            assert(tail2[0] == ',');
        } else {
            assert(render_elems(items, pad2, np + 2).len() == 0);
            lemma_chr_match(v, after1, tail2, 0);
            assert(tail2[0] == '\n');
        }
    }
}

/// After one object field is read, the text either closes the object or
/// moves to the next field over a comma and fresh indentation.
#[verifier::rlimit(100)]
#[verifier::spinoff_prover]
proof fn lemma_obj_step(
    v: Seq<char>,
    prs: Seq<(String, Document)>,
    pad: Seq<char>,
    parsed: Seq<(String, Document)>,
    i: int,
    endp: int,
    knp: (String, Document),
)
    requires
        obj_inv(v, prs, pad, parsed, i, endp),
        knp.0@ == prs[parsed.len() as int].0@,
        doc_like(knp.1, prs[parsed.len() as int].1),
    ensures
        ({
            let pad2 = pad + "  "@;
            let np = parsed.len() as int;
            let ak = i + quoted(prs[np].0@).len();
            let after = ak + 2 + render(prs[np].1, pad2).len();
            &&& i < after <= v.len()
            &&& (np + 1 == prs.len() ==> {
                &&& after + 2 + pad.len() == endp
                &&& (forall|j: int| after <= j < endp - 1 ==> is_ws_char(#[trigger] v[j]))
                &&& endp - 1 < v.len()
                &&& v[endp - 1] == '}'
                &&& !is_ws_char(v[endp - 1])
            })
            &&& (np + 1 < prs.len() ==> {
                let e1 = after + 2 + pad2.len();
                &&& v[after] == ','
                &&& !is_ws_char(v[after])
                &&& e1 < v.len()
                &&& (forall|j: int| after + 1 <= j < e1 ==> is_ws_char(#[trigger] v[j]))
                &&& !is_ws_char(v[e1])
                &&& obj_inv(v, prs, pad, parsed.push(knp), e1, endp)
            })
        }),
{
    reveal_strlit(": ");
    let pad2 = pad + "  "@;
    let np = parsed.len() as int;
    let ak = i + quoted(prs[np].0@).len();
    let after = ak + 2 + render(prs[np].1, pad2).len();
    let rest = render_fields(prs, pad2, np + 1) + seq!['\n'] + pad + seq!['}'];
    lemma_pad2_spaces(pad);
    if np + 1 == prs.len() {
        assert(render_fields(prs, pad2, np + 1).len() == 0);
        assert(rest =~= seq!['\n'] + pad + seq!['}']);
        assert forall|j: int| after <= j < endp - 1 implies is_ws_char(#[trigger] v[j]) by {
            lemma_chr_match(v, after, rest, j - after);
            if j == after {
                assert(rest[0] == '\n');
            } else {
                assert(rest[j - after] == pad[j - after - 1]);
            }
        }
        lemma_chr_match(v, after, rest, endp - 1 - after);
        assert(rest[endp - 1 - after] == '}');
    } else {
        let e1 = after + 2 + pad2.len();
        let key1 = prs[np + 1].0@;
        let tail2 = render_fields(prs, pad2, np + 2) + seq!['\n'] + pad + seq!['}'];
        assert(render_fields(prs, pad2, np + 1) == seq![','] + seq!['\n'] + pad2 + quoted(key1)
            + ": "@ + render(prs[np + 1].1, pad2) + render_fields(prs, pad2, np + 2));
        assert(rest =~= seq![','] + seq!['\n'] + pad2 + quoted(key1) + ": "@ + render(
            prs[np + 1].1,
            pad2,
        ) + tail2);
        lemma_chr_match(v, after, rest, 0);
        assert(rest[0] == ',');
        assert forall|j: int| after + 1 <= j < e1 implies is_ws_char(#[trigger] v[j]) by {
            lemma_chr_match(v, after, rest, j - after);
            if j == after + 1 {
                assert(rest[1] == '\n');
            } else {
                assert(rest[j - after] == pad2[j - after - 2]);
            }
        }
        lemma_chr_match(v, after, rest, e1 - after);
        assert(rest[e1 - after] == quoted(key1)[0]);
        assert(quoted(key1)[0] == '"');
        lemma_sub_match(v, after, rest, e1 - after, e1 - after + quoted(key1).len());
        assert(rest.subrange(e1 - after, e1 - after + quoted(key1).len()) =~= quoted(key1));
        let ak1 = e1 + quoted(key1).len();
        lemma_chr_match(v, after, rest, ak1 - after);
        assert(rest[ak1 - after] == ':');
        lemma_chr_match(v, after, rest, ak1 + 1 - after);
        assert(rest[ak1 + 1 - after] == ' ');
        lemma_render_first(prs[np + 1].1, pad2);
        lemma_sub_match(
            v,
            after,
            rest,
            ak1 + 2 - after,
            ak1 + 2 - after + render(prs[np + 1].1, pad2).len(),
        );
        assert(rest.subrange(ak1 + 2 - after, ak1 + 2 - after + render(prs[np + 1].1, pad2).len())
            =~= render(prs[np + 1].1, pad2));
        let after1 = ak1 + 2 + render(prs[np + 1].1, pad2).len();
        lemma_sub_match(v, after, rest, after1 - after, rest.len() as int);
        assert(rest.subrange(after1 - after, rest.len() as int) =~= tail2);
        if np + 2 < prs.len() {
            assert(render_fields(prs, pad2, np + 2) == seq![','] + seq!['\n'] + pad2 + quoted(
                prs[np + 2].0@,
            ) + ": "@ + render(prs[np + 2].1, pad2) + render_fields(prs, pad2, np + 3));
            lemma_chr_match(v, after1, tail2, 0);
            assert(tail2[0] == ',');
        } else {
            assert(render_fields(prs, pad2, np + 2).len() == 0);
            lemma_chr_match(v, after1, tail2, 0);
            assert(tail2[0] == '\n');
        }
    }
}

/// Parse one JSON value starting at `pos` (no leading white space).
/// Numbers must be integers that fit `i64`; escaped code points above
/// `\u007f` are rejected; anything malformed yields `None`, never a panic.
/// On text that holds a rendered document bounded by a non-digit, parsing
/// succeeds with a structurally equal document and stops exactly after it.
#[verifier::loop_isolation(false)]
#[verifier::rlimit(100)]
fn parse_value(v: &Vec<char>, pos: usize) -> (r: Option<(Document, usize)>)
    requires
        pos <= v@.len(),
    ensures
        r matches Some(p) ==> pos < p.1 <= v@.len(),
        forall|d: Document, pad: Seq<char>| #[trigger] value_at(v@, pos as int, d, pad) ==> (
        r matches Some(p) && doc_like(p.0, d) && p.1 == pos + render(d, pad).len()),
    decreases v@.len() - pos,
{
    if pos >= v.len() {
        proof {
            assert forall|d: Document, pad: Seq<char>| #[trigger] value_at(
                v@,
                pos as int,
                d,
                pad,
            ) implies false by {
                lemma_render_first(d, pad);
            }
        }
        return None;
    }
    let c = v[pos];
    proof {
        assert forall|d: Document, pad: Seq<char>| #[trigger] value_at(
            v@,
            pos as int,
            d,
            pad,
        ) implies v@[pos as int] == render(d, pad)[0] by {
            lemma_render_first(d, pad);
            lemma_chr_match(v@, pos as int, render(d, pad), 0);
        }
    }
    if c == 'n' {
        let lit = chars_of("null");
        proof {
            reveal_strlit("null");
        }
        if expect_lit(v, pos, &lit) && lit.len() == 4 {
            proof {
                assert forall|d: Document, pad: Seq<char>| #[trigger] value_at(
                    v@,
                    pos as int,
                    d,
                    pad,
                ) implies (d is Null && render(d, pad).len() == 4) by {
                    lemma_render_first(d, pad);
                }
            }
            return Some((Document::Null, pos + 4));
        }
        proof {
            assert forall|d: Document, pad: Seq<char>| #[trigger] value_at(
                v@,
                pos as int,
                d,
                pad,
            ) implies false by {
                lemma_render_first(d, pad);
                assert(d is Null);
                assert(starts_with_at(v@, pos as int, "null"@));
            }
        }
        return None;
    }
    if c == 't' {
        let lit = chars_of("true");
        proof {
            reveal_strlit("true");
        }
        if expect_lit(v, pos, &lit) && lit.len() == 4 {
            proof {
                assert forall|d: Document, pad: Seq<char>| #[trigger] value_at(
                    v@,
                    pos as int,
                    d,
                    pad,
                ) implies (d == Document::Bool(true) && render(d, pad).len() == 4) by {
                    lemma_render_first(d, pad);
                }
            }
            return Some((Document::Bool(true), pos + 4));
        }
        proof {
            assert forall|d: Document, pad: Seq<char>| #[trigger] value_at(
                v@,
                pos as int,
                d,
                pad,
            ) implies false by {
                lemma_render_first(d, pad);
                assert(d == Document::Bool(true));
                assert(starts_with_at(v@, pos as int, "true"@));
            }
        }
        return None;
    }
    if c == 'f' {
        let lit = chars_of("false");
        proof {
            reveal_strlit("false");
        }
        if expect_lit(v, pos, &lit) && lit.len() == 5 {
            proof {
                assert forall|d: Document, pad: Seq<char>| #[trigger] value_at(
                    v@,
                    pos as int,
                    d,
                    pad,
                ) implies (d == Document::Bool(false) && render(d, pad).len() == 5) by {
                    lemma_render_first(d, pad);
                }
            }
            return Some((Document::Bool(false), pos + 5));
        }
        proof {
            assert forall|d: Document, pad: Seq<char>| #[trigger] value_at(
                v@,
                pos as int,
                d,
                pad,
            ) implies false by {
                lemma_render_first(d, pad);
                assert(d == Document::Bool(false));
                assert(starts_with_at(v@, pos as int, "false"@));
            }
        }
        return None;
    }
    if c == '"' {
        let parsed_str = parse_string(v, pos);
        proof {
            assert forall|d: Document, pad: Seq<char>| #[trigger] value_at(
                v@,
                pos as int,
                d,
                pad,
            ) implies (d matches Document::Text(x) && quoted_at(v@, pos as int, x@)
                && render(d, pad) == quoted(x@)) by {
                lemma_render_first(d, pad);
            }
        }
        return match parsed_str {
            Some((st, p)) => Some((Document::Text(st), p)),
            None => None,
        };
    }
    if c == '-' || (c >= '0' && c <= '9') {
        let parsed_num = parse_number(v, pos);
        proof {
            assert forall|d: Document, pad: Seq<char>| #[trigger] value_at(
                v@,
                pos as int,
                d,
                pad,
            ) implies (d matches Document::Int(x) && num_at(v@, pos as int, x) && render(d, pad)
                == int_rep(x as int)) by {
                lemma_render_first(d, pad);
            }
        }
        return match parsed_num {
            Some((x, p)) => Some((Document::Int(x), p)),
            None => None,
        };
    }
    if c == '[' {
        let mut entries: Vec<Document> = Vec::new();
        let i0 = skip_ws(v, pos + 1);
        proof {
            assert forall|d: Document, pad: Seq<char>| #[trigger] value_at(
                v@,
                pos as int,
                d,
                pad,
            ) implies (d matches Document::Array(iv) && (iv@.len() == 0 ==> i0 == pos + 1
                && pos + 1 < v@.len() && v@[pos + 1] == ']' && pos + render(d, pad).len() == pos
                + 2) && (iv@.len() > 0 ==> i0 as int == pos + 2 + pad.len() + 2 && arr_inv(
                v@,
                iv@,
                pad,
                Seq::empty(),
                i0 as int,
                pos + render(d, pad).len(),
            ) && !is_ws_char(v@[i0 as int]) && v@[i0 as int] != ']')) by {
                lemma_render_first(d, pad);
                let iv = d->Array_0;
                if iv@.len() == 0 {
                    reveal_strlit("[]");
                    assert(render(d, pad) == "[]"@);
                    lemma_chr_match(v@, pos as int, render(d, pad), 1);
                    lemma_ws_run(v@, pos + 1, i0 as int, pos + 1);
                } else {
                    lemma_arr_open(v@, pos as int, iv@, pad, d);
                    lemma_pad2_spaces(pad);
                    lemma_ws_run(v@, pos + 1, i0 as int, pos + 2 + (pad + "  "@).len());
                    lemma_render_first(iv@[0], pad + "  "@);
                    lemma_chr_match(v@, i0 as int, render(iv@[0], pad + "  "@), 0);
                }
            }
        }
        if i0 < v.len() && v[i0] == ']' {
            return Some((Document::Array(entries), i0 + 1));
        }
        let mut i = i0;
        proof {
            assert forall|d: Document, pad: Seq<char>| #[trigger] value_at(
                v@,
                pos as int,
                d,
                pad,
            ) implies (d matches Document::Array(iv) && iv@.len() > 0 && arr_inv(
                v@,
                iv@,
                pad,
                entries@,
                i as int,
                pos + render(d, pad).len(),
            )) by {
                let iv = d->Array_0;
                if iv@.len() == 0 {
                    assert(false);
                }
            }
        }
        while i < v.len()
            invariant
                pos < i <= v@.len(),
                forall|d: Document, pad: Seq<char>| #[trigger] value_at(v@, pos as int, d, pad)
                    ==> (d matches Document::Array(iv) && iv@.len() > 0 && arr_inv(
                    v@,
                    iv@,
                    pad,
                    entries@,
                    i as int,
                    pos + render(d, pad).len(),
                )),
            decreases v@.len() - i,
        {
            let parsed_elem = parse_value(v, i);
            match parsed_elem {
                Some((dv, p)) => {
                    let ghost entries0 = entries@;
                    entries.push(dv);
                    proof {
                        assert forall|d: Document, pad: Seq<char>| #[trigger] value_at(
                            v@,
                            pos as int,
                            d,
                            pad,
                        ) implies ({
                            let iv = d->Array_0;
                            let pad2 = pad + "  "@;
                            let np = entries0.len() as int;
                            let endp = pos + render(d, pad).len();
                            let after = i + render(iv@[np], pad2).len();
                            &&& doc_like(dv, iv@[np])
                            &&& p == after
                            &&& (np + 1 == iv@.len() ==> after + 2 + pad.len() == endp && (forall|
                                j: int,
                            |
                                after <= j < endp - 1 ==> is_ws_char(#[trigger] v@[j])) && endp - 1
                                < v@.len() && v@[endp - 1] == ']' && !is_ws_char(v@[endp - 1]))
                            &&& (np + 1 < iv@.len() ==> v@[p as int] == ',' && !is_ws_char(
                                v@[p as int],
                            ) && arr_inv(
                                v@,
                                iv@,
                                pad,
                                entries@,
                                after + 2 + pad2.len(),
                                endp,
                            ) && after + 2 + pad2.len() < v@.len() && (forall|j: int|
                                after + 1 <= j < after + 2 + pad2.len() ==> is_ws_char(
                                    #[trigger] v@[j],
                                )) && !is_ws_char(v@[after + 2 + pad2.len()]))
                        }) by {
                            let iv = d->Array_0;
                            lemma_arr_step(
                                v@,
                                iv@,
                                pad,
                                entries0,
                                i as int,
                                pos + render(d, pad).len(),
                                dv,
                            );
                        }
                    }
                    let j = skip_ws(v, p);
                    if j < v.len() && v[j] == ']' {
                        proof {
                            assert forall|d: Document, pad: Seq<char>| #[trigger] value_at(
                                v@,
                                pos as int,
                                d,
                                pad,
                            ) implies ({
                                let iv = d->Array_0;
                                &&& entries@.len() == iv@.len()
                                &&& doc_like(Document::Array(entries), d)
                                &&& j + 1 == pos + render(d, pad).len()
                            }) by {
                                let iv = d->Array_0;
                                let np = (entries@.len() - 1) as int;
                                let endp = pos + render(d, pad).len();
                                if np + 1 < iv@.len() {
                                    lemma_ws_run(v@, p as int, j as int, p as int);
                                    assert(false);
                                }
                                lemma_ws_run(v@, p as int, j as int, endp - 1);
                            }
                        }
                        return Some((Document::Array(entries), j + 1));
                    }
                    if j < v.len() && v[j] == ',' {
                        let k0 = skip_ws(v, j + 1);
                        proof {
                            assert forall|d: Document, pad: Seq<char>| #[trigger] value_at(
                                v@,
                                pos as int,
                                d,
                                pad,
                            ) implies (k0 > i && arr_inv(
                                v@,
                                d->Array_0@,
                                pad,
                                entries@,
                                k0 as int,
                                pos + render(d, pad).len(),
                            )) by {
                                let iv = d->Array_0;
                                let pad2 = pad + "  "@;
                                let np = (entries@.len() - 1) as int;
                                let endp = pos + render(d, pad).len();
                                if np + 1 == iv@.len() {
                                    lemma_ws_run(v@, p as int, j as int, endp - 1);
                                    assert(false);
                                }
                                lemma_ws_run(v@, p as int, j as int, p as int);
                                lemma_ws_run(v@, j + 1, k0 as int, p + 2 + pad2.len());
                            }
                        }
                        if k0 <= i {
                            return None;
                        }
                        i = k0;
                    } else {
                        proof {
                            assert forall|d: Document, pad: Seq<char>| #[trigger] value_at(
                                v@,
                                pos as int,
                                d,
                                pad,
                            ) implies false by {
                                let iv = d->Array_0;
                                let np = (entries@.len() - 1) as int;
                                let endp = pos + render(d, pad).len();
                                if np + 1 == iv@.len() {
                                    lemma_ws_run(v@, p as int, j as int, endp - 1);
                                } else {
                                    lemma_ws_run(v@, p as int, j as int, p as int);
                                }
                            }
                        }
                        return None;
                    }
                },
                None => {
                    return None;
                },
            }
        }
        proof {
            assert forall|d: Document, pad: Seq<char>| #[trigger] value_at(
                v@,
                pos as int,
                d,
                pad,
            ) implies false by {
                lemma_render_first(d->Array_0@[entries@.len() as int], pad + "  "@);
            }
        }
        return None;
    }
    if c == '{' {
        let mut fields: Vec<(String, Document)> = Vec::new();
        let i0 = skip_ws(v, pos + 1);
        proof {
            assert forall|d: Document, pad: Seq<char>| #[trigger] value_at(
                v@,
                pos as int,
                d,
                pad,
            ) implies (d matches Document::Object(pv) && (pv@.len() == 0 ==> i0 == pos + 1
                && pos + 1 < v@.len() && v@[pos + 1] == '}' && pos + render(d, pad).len() == pos
                + 2) && (pv@.len() > 0 ==> i0 as int == pos + 2 + pad.len() + 2 && obj_inv(
                v@,
                pv@,
                pad,
                Seq::empty(),
                i0 as int,
                pos + render(d, pad).len(),
            ) && !is_ws_char(v@[i0 as int]) && v@[i0 as int] == '"')) by {
                lemma_render_first(d, pad);
                let pv = d->Object_0;
                if pv@.len() == 0 {
                    reveal_strlit("{}");
                    assert(render(d, pad) == "{}"@);
                    lemma_chr_match(v@, pos as int, render(d, pad), 1);
                    lemma_ws_run(v@, pos + 1, i0 as int, pos + 1);
                } else {
                    lemma_obj_open(v@, pos as int, pv@, pad, d);
                    lemma_pad2_spaces(pad);
                    lemma_ws_run(v@, pos + 1, i0 as int, pos + 2 + (pad + "  "@).len());
                    lemma_chr_match(v@, i0 as int, quoted(pv@[0].0@), 0);
                }
            }
        }
        if i0 < v.len() && v[i0] == '}' {
            return Some((Document::Object(fields), i0 + 1));
        }
        let mut i = i0;
        proof {
            assert forall|d: Document, pad: Seq<char>| #[trigger] value_at(
                v@,
                pos as int,
                d,
                pad,
            ) implies (d matches Document::Object(pv) && pv@.len() > 0 && obj_inv(
                v@,
                pv@,
                pad,
                fields@,
                i as int,
                pos + render(d, pad).len(),
            )) by {
                let pv = d->Object_0;
                if pv@.len() == 0 {
                    assert(false);
                }
            }
        }
        while i < v.len()
            invariant
                pos < i <= v@.len(),
                forall|d: Document, pad: Seq<char>| #[trigger] value_at(v@, pos as int, d, pad)
                    ==> (d matches Document::Object(pv) && pv@.len() > 0 && obj_inv(
                    v@,
                    pv@,
                    pad,
                    fields@,
                    i as int,
                    pos + render(d, pad).len(),
                )),
            decreases v@.len() - i,
        {
            let parsed_key = parse_string(v, i);
            match parsed_key {
                Some((key, p)) => {
                    proof {
                        assert forall|d: Document, pad: Seq<char>| #[trigger] value_at(
                            v@,
                            pos as int,
                            d,
                            pad,
                        ) implies ({
                            let pv = d->Object_0;
                            let np = fields@.len() as int;
                            &&& key@ == pv@[np].0@
                            &&& p == i + quoted(pv@[np].0@).len()
                            &&& p + 2 <= v@.len()
                            &&& v@[p as int] == ':'
                            &&& v@[p + 1] == ' '
                        }) by {
                        }
                    }
                    let q = skip_ws(v, p);
                    if !(q < v.len() && v[q] == ':') {
                        proof {
                            assert forall|d: Document, pad: Seq<char>| #[trigger] value_at(
                                v@,
                                pos as int,
                                d,
                                pad,
                            ) implies false by {
                                lemma_ws_run(v@, p as int, q as int, p as int);
                            }
                        }
                        return None;
                    }
                    let vs = skip_ws(v, q + 1);
                    proof {
                        assert forall|d: Document, pad: Seq<char>| #[trigger] value_at(
                            v@,
                            pos as int,
                            d,
                            pad,
                        ) implies ({
                            let pv = d->Object_0;
                            let np = fields@.len() as int;
                            let pad2 = pad + "  "@;
                            &&& q == p
                            &&& vs == q + 2
                            &&& value_at(v@, vs as int, pv@[np].1, pad2)
                        }) by {
                            let pv = d->Object_0;
                            let np = fields@.len() as int;
                            let pad2 = pad + "  "@;
                            lemma_ws_run(v@, p as int, q as int, p as int);
                            lemma_render_first(pv@[np].1, pad2);
                            lemma_chr_match(v@, q + 2, render(pv@[np].1, pad2), 0);
                            lemma_ws_run(v@, q + 1, vs as int, q + 2);
                        }
                    }
                    let parsed_val = parse_value(v, vs);
                    match parsed_val {
                        Some((dv, p2)) => {
                            let ghost fields0 = fields@;
                            fields.push((key, dv));
                            proof {
                                assert forall|d: Document, pad: Seq<char>| #[trigger] value_at(
                                    v@,
                                    pos as int,
                                    d,
                                    pad,
                                ) implies ({
                                    let pv = d->Object_0;
                                    let pad2 = pad + "  "@;
                                    let np = fields0.len() as int;
                                    let endp = pos + render(d, pad).len();
                                    let after = vs + render(pv@[np].1, pad2).len();
                                    &&& p2 == after
                                    &&& (np + 1 == pv@.len() ==> after + 2 + pad.len() == endp && (
                                    forall|j: int|
                                        after <= j < endp - 1 ==> is_ws_char(#[trigger] v@[j]))
                                        && endp - 1 < v@.len() && v@[endp - 1] == '}'
                                        && !is_ws_char(v@[endp - 1]))
                                    &&& (np + 1 < pv@.len() ==> v@[p2 as int] == ','
                                        && !is_ws_char(v@[p2 as int]) && obj_inv(
                                        v@,
                                        pv@,
                                        pad,
                                        fields@,
                                        after + 2 + pad2.len(),
                                        endp,
                                    ) && after + 2 + pad2.len() < v@.len() && (forall|j: int|
                                        after + 1 <= j < after + 2 + pad2.len() ==> is_ws_char(
                                            #[trigger] v@[j],
                                        )) && !is_ws_char(v@[after + 2 + pad2.len()]))
                                }) by {
                                    let pv = d->Object_0;
                                    lemma_obj_step(
                                        v@,
                                        pv@,
                                        pad,
                                        fields0,
                                        i as int,
                                        pos + render(d, pad).len(),
                                        (key, dv),
                                    );
                                }
                            }
                            let j = skip_ws(v, p2);
                            if j < v.len() && v[j] == '}' {
                                proof {
                                    assert forall|d: Document, pad: Seq<char>| #[trigger] value_at(
                                        v@,
                                        pos as int,
                                        d,
                                        pad,
                                    ) implies ({
                                        &&& doc_like(Document::Object(fields), d)
                                        &&& j + 1 == pos + render(d, pad).len()
                                    }) by {
                                        let pv = d->Object_0;
                                        let np = (fields@.len() - 1) as int;
                                        let endp = pos + render(d, pad).len();
                                        if np + 1 < pv@.len() {
                                            lemma_ws_run(v@, p2 as int, j as int, p2 as int);
                                            assert(false);
                                        }
                                        lemma_ws_run(v@, p2 as int, j as int, endp - 1);
                                    }
                                }
                                return Some((Document::Object(fields), j + 1));
                            }
                            if j < v.len() && v[j] == ',' {
                                let k0 = skip_ws(v, j + 1);
                                proof {
                                    assert forall|d: Document, pad: Seq<char>| #[trigger] value_at(
                                        v@,
                                        pos as int,
                                        d,
                                        pad,
                                    ) implies (k0 > i && obj_inv(
                                        v@,
                                        d->Object_0@,
                                        pad,
                                        fields@,
                                        k0 as int,
                                        pos + render(d, pad).len(),
                                    )) by {
                                        let pv = d->Object_0;
                                        let pad2 = pad + "  "@;
                                        let np = (fields@.len() - 1) as int;
                                        let endp = pos + render(d, pad).len();
                                        if np + 1 == pv@.len() {
                                            lemma_ws_run(v@, p2 as int, j as int, endp - 1);
                                            assert(false);
                                        }
                                        lemma_ws_run(v@, p2 as int, j as int, p2 as int);
                                        lemma_ws_run(v@, j + 1, k0 as int, p2 + 2 + pad2.len());
                                    }
                                }
                                if k0 <= i {
                                    return None;
                                }
                                i = k0;
                            } else {
                                proof {
                                    assert forall|d: Document, pad: Seq<char>| #[trigger] value_at(
                                        v@,
                                        pos as int,
                                        d,
                                        pad,
                                    ) implies false by {
                                        let pv = d->Object_0;
                                        let np = (fields@.len() - 1) as int;
                                        let endp = pos + render(d, pad).len();
                                        if np + 1 == pv@.len() {
                                            lemma_ws_run(v@, p2 as int, j as int, endp - 1);
                                        } else {
                                            lemma_ws_run(v@, p2 as int, j as int, p2 as int);
                                        }
                                    }
                                }
                                return None;
                            }
                        },
                        None => {
                            return None;
                        },
                    }
                },
                None => {
                    return None;
                },
            }
        }
        proof {
            assert forall|d: Document, pad: Seq<char>| #[trigger] value_at(
                v@,
                pos as int,
                d,
                pad,
            ) implies false by {
            }
        }
        return None;
    }
    proof {
        assert forall|d: Document, pad: Seq<char>| #[trigger] value_at(
            v@,
            pos as int,
            d,
            pad,
        ) implies false by {
            lemma_render_first(d, pad);
        }
    }
    None
}

/// Rendering depends only on a document's structure: structurally equal
/// documents print identically.
proof fn lemma_render_like(a: Document, b: Document, pad: Seq<char>)
    requires
        doc_like(a, b),
    ensures
        render(a, pad) == render(b, pad),
    decreases a, 0int,
{
    match a {
        Document::Array(x) => {
            let y = b->Array_0;
            if x@.len() > 0 {
                lemma_render_like_elems(x@, y@, pad + "  "@, 0);
            }
        },
        Document::Object(x) => {
            let y = b->Object_0;
            if x@.len() > 0 {
                lemma_render_like_fields(x@, y@, pad + "  "@, 0);
            }
        },
        _ => {},
    }
}

proof fn lemma_render_like_elems(xs: Seq<Document>, ys: Seq<Document>, pad: Seq<char>, k: int)
    requires
        xs.len() == ys.len(),
        forall|t: int| 0 <= t < xs.len() ==> doc_like(#[trigger] xs[t], ys[t]),
    ensures
        render_elems(xs, pad, k) == render_elems(ys, pad, k),
    decreases xs, xs.len() - k,
{
    if 0 <= k < xs.len() {
        lemma_render_like(xs[k], ys[k], pad);
        lemma_render_like_elems(xs, ys, pad, k + 1);
    }
}

proof fn lemma_render_like_fields(
    xs: Seq<(String, Document)>,
    ys: Seq<(String, Document)>,
    pad: Seq<char>,
    k: int,
)
    requires
        xs.len() == ys.len(),
        forall|t: int|
            0 <= t < xs.len() ==> (#[trigger] xs[t]).0@ == ys[t].0@ && doc_like(xs[t].1, ys[t].1),
    ensures
        render_fields(xs, pad, k) == render_fields(ys, pad, k),
    decreases xs, xs.len() - k,
{
    if 0 <= k < xs.len() {
        lemma_render_like(xs[k].1, ys[k].1, pad);
        lemma_render_like_fields(xs, ys, pad, k + 1);
    }
}

/// Parse a disk cache file's text into a document. Malformed or unsupported
/// content yields `None`; this function never fails in any other way — and
/// on the exact text this library's printer produces for some document, it
/// succeeds with a structurally equal document.
pub fn parse_json_document(text: &str) -> (r: Option<Document>)
    ensures
        forall|d: Document| #[trigger] render(d, Seq::<char>::empty()) == text@ ==> (r matches Some(
            out,
        ) && doc_like(out, d)),
{
    let v = chars_of(text);
    let start = skip_ws(&v, 0);
    proof {
        assert forall|d: Document| #[trigger] render(d, Seq::<char>::empty()) == text@ implies (
        start == 0 && value_at(v@, 0, d, Seq::<char>::empty())) by {
            lemma_render_first(d, Seq::<char>::empty());
            lemma_ws_run(v@, 0, start as int, 0);
            assert(v@.subrange(0, render(d, Seq::<char>::empty()).len() as int) =~= render(
                d,
                Seq::<char>::empty(),
            ));
        }
    }
    match parse_value(&v, start) {
        Some((d0, p)) => {
            let e = skip_ws(&v, p);
            if e == v.len() {
                Some(d0)
            } else {
                proof {
                    assert forall|d: Document| #[trigger] render(d, Seq::<char>::empty())
                        == text@ implies false by {
                        lemma_ws_run(v@, p as int, e as int, p as int);
                    }
                }
                None
            }
        },
        None => {
            None
        },
    }
}

/// The tool- and disk-facing result check: whatever the parser accepted must
/// print back to exactly the text it was read from, so only canonical
/// documents are ever served from a file.
pub fn parse_canonical_document(text: &str) -> (r: Option<Document>)
    ensures
        r matches Some(out) ==> text@ == render(out, Seq::<char>::empty()),
        forall|d: Document| #[trigger] render(d, Seq::<char>::empty()) == text@ ==> (r matches Some(
            out,
        ) && doc_like(out, d)),
{
    match parse_json_document(text) {
        Some(doc) => {
            let back = document_to_json(&doc);
            if crate::text::str_eq(back.as_str(), text) {
                proof {
                    assert forall|d: Document| #[trigger] render(d, Seq::<char>::empty())
                        == text@ implies doc_like(doc, d) by {
                    }
                }
                Some(doc)
            } else {
                proof {
                    assert forall|d: Document| #[trigger] render(d, Seq::<char>::empty())
                        == text@ implies false by {
                        lemma_render_like(doc, d, Seq::<char>::empty());
                    }
                }
                None
            }
        },
        None => None,
    }
}

/// Pretty-print a document, as it is laid out in a disk cache file.
pub fn document_to_json(d: &Document) -> (r: String)
    ensures
        r@ == render(*d, Seq::<char>::empty()),
{
    let pad: Vec<char> = Vec::new();
    let mut out: Vec<char> = Vec::new();
    render_into(d, &pad, &mut out);
    assert(out@ =~= render(*d, Seq::<char>::empty()));
    string_of(&out)
}

/// The tool-facing text of an operation's outcome: the pretty-printed
/// document on success, a single `Error: `-prefixed descriptive line on
/// failure — never partial or garbled output.
pub fn render_result(outcome: &Result<Document, AppError>) -> (s: String)
    ensures
        match outcome {
            Ok(d) => s@ == render(*d, Seq::<char>::empty()),
            Err(e) => s@ == "Error: "@ + e.message_spec(),
        },
{
    match outcome {
        Ok(d) => document_to_json(d),
        Err(e) => String::from_str("Error: ").concat(e.message().as_str()),
    }
}

} // verus!
