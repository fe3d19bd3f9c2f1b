//! Verified primitives for the structured wire encoding: JSON string
//! escaping and un-escaping, whitespace, and scanning one JSON value.
//!
//! The payload of an event is treated as opaque: `scan_value` checks its
//! shape (strings with valid escapes, brackets balanced outside strings,
//! bare tokens made of literal or number characters), not the full JSON
//! grammar.

use vstd::prelude::*;

verus! {

pub open spec fn is_ws(b: u8) -> bool {
    b == 0x20 || b == 0x09 || b == 0x0a || b == 0x0d
}

/// `,`, `}`, `]` or whitespace: the bytes that end a bare token.
pub open spec fn is_delim(b: u8) -> bool {
    b == 0x2c || b == 0x7d || b == 0x5d || is_ws(b)
}

/// Lower-case hex digit for a value below 16.
pub open spec fn hex_digit(n: u8) -> u8 {
    if n < 10 {
        (0x30 + n) as u8
    } else {
        (0x57 + n) as u8
    }
}

/// Value of a hex digit byte, or -1.
pub open spec fn hex_val(b: u8) -> int {
    if 0x30 <= b && b <= 0x39 {
        b - 0x30
    } else if 0x61 <= b && b <= 0x66 {
        b - 0x57
    } else if 0x41 <= b && b <= 0x46 {
        b - 0x37
    } else {
        -1
    }
}

pub open spec fn is_hex(b: u8) -> bool {
    hex_val(b) >= 0
}

/// The escape sequence that the encoder emits for one byte: `"` and `\`
/// get a backslash escape, control bytes a `\u00xx` escape, everything
/// else stands for itself.
pub open spec fn esc_byte(b: u8) -> Seq<u8> {
    if b == 0x22 {
        seq![0x5cu8, 0x22u8]
    } else if b == 0x5c {
        seq![0x5cu8, 0x5cu8]
    } else if b < 0x20 {
        seq![0x5cu8, 0x75u8, 0x30u8, 0x30u8, hex_digit((b / 16) as u8), hex_digit((b % 16) as u8)]
    } else {
        seq![b]
    }
}

/// The escaped form of a whole byte string.
pub open spec fn escaped(s: Seq<u8>) -> Seq<u8>
    decreases s.len(),
{
    if s.len() == 0 {
        Seq::empty()
    } else {
        esc_byte(s[0]) + escaped(s.subrange(1, s.len() as int))
    }
}

pub proof fn lemma_escaped_append(a: Seq<u8>, b: Seq<u8>)
    ensures
        escaped(a + b) == escaped(a) + escaped(b),
    decreases a.len(),
{
    if a.len() == 0 {
        assert(a + b =~= b);
        assert(escaped(a) + escaped(b) =~= escaped(b));
    } else {
        let a1 = a.subrange(1, a.len() as int);
        lemma_escaped_append(a1, b);
        assert((a + b).subrange(1, (a + b).len() as int) =~= a1 + b);
        assert((a + b)[0] == a[0]);
        assert(esc_byte(a[0]) + (escaped(a1) + escaped(b)) =~= (esc_byte(a[0]) + escaped(a1))
            + escaped(b));
    }
}

/// Prepends one parsed byte to the result of parsing the rest.
pub open spec fn cons_parsed(b: u8, rest: Option<(Seq<u8>, int)>) -> Option<(Seq<u8>, int)> {
    match rest {
        Some((t, j)) => Some((seq![b] + t, j)),
        None => None,
    }
}

/// Parses the body of a JSON string starting at `i` (just after the opening
/// quote), up to and including the closing quote. Returns the un-escaped
/// bytes and the position after the closing quote. Escapes beyond the
/// Latin-1 range (`\uXXXX` with a non-zero high byte) are not accepted.
pub open spec fn parse_string_body(s: Seq<u8>, i: int) -> Option<(Seq<u8>, int)>
    decreases s.len() - i,
{
    if !(0 <= i < s.len()) {
        None
    } else if s[i] == 0x22 {
        Some((Seq::empty(), i + 1))
    } else if s[i] == 0x5c {
        if i + 1 < s.len() {
            let e = s[i + 1];
            if e == 0x22 || e == 0x5c || e == 0x2f {
                cons_parsed(e, parse_string_body(s, i + 2))
            } else if e == 0x62 {
                cons_parsed(0x08, parse_string_body(s, i + 2))
            } else if e == 0x66 {
                cons_parsed(0x0c, parse_string_body(s, i + 2))
            } else if e == 0x6e {
                cons_parsed(0x0a, parse_string_body(s, i + 2))
            } else if e == 0x72 {
                cons_parsed(0x0d, parse_string_body(s, i + 2))
            } else if e == 0x74 {
                cons_parsed(0x09, parse_string_body(s, i + 2))
            } else if e == 0x75 && i + 5 < s.len() && s[i + 2] == 0x30 && s[i + 3] == 0x30 && is_hex(
                s[i + 4],
            ) && is_hex(s[i + 5]) {
                cons_parsed(
                    (hex_val(s[i + 4]) * 16 + hex_val(s[i + 5])) as u8,
                    parse_string_body(s, i + 6),
                )
            } else {
                None
            }
        } else {
            None
        }
    } else if s[i] < 0x20 {
        None
    } else {
        cons_parsed(s[i], parse_string_body(s, i + 1))
    }
}

pub proof fn lemma_psb_bounds(s: Seq<u8>, i: int)
    requires
        parse_string_body(s, i) is Some,
    ensures
        i < parse_string_body(s, i)->Some_0.1 <= s.len(),
    decreases s.len() - i,
{
    if 0 <= i < s.len() && s[i] != 0x22 {
        if s[i] == 0x5c {
            if i + 1 < s.len() {
                let e = s[i + 1];
                if e == 0x75 && i + 5 < s.len() && s[i + 2] == 0x30 && s[i + 3] == 0x30 && is_hex(
                    s[i + 4],
                ) && is_hex(s[i + 5]) {
                    lemma_psb_bounds(s, i + 6);
                } else {
                    lemma_psb_bounds(s, i + 2);
                }
            }
        } else {
            lemma_psb_bounds(s, i + 1);
        }
    }
}

/// Parsing a string body reads only the bytes it consumes: the same parse
/// succeeds at any position of any sequence that holds the same bytes
/// there.
pub proof fn lemma_psb_reloc(s: Seq<u8>, t: Seq<u8>, i: int, d: int)
    requires
        parse_string_body(s, i) is Some,
        0 <= i + d,
        parse_string_body(s, i)->Some_0.1 + d <= t.len(),
        forall|k: int|
            i <= k < parse_string_body(s, i)->Some_0.1 ==> t[k + d] == s[k],
    ensures
        parse_string_body(t, i + d) == Some(
            (parse_string_body(s, i)->Some_0.0, parse_string_body(s, i)->Some_0.1 + d),
        ),
    decreases s.len() - i,
{
    lemma_psb_bounds(s, i);
    let j = parse_string_body(s, i)->Some_0.1;
    if s[i] == 0x22 {
        assert(t[i + d] == 0x22);
    } else if s[i] == 0x5c {
        let e = s[i + 1];
        if e == 0x75 && i + 5 < s.len() && s[i + 2] == 0x30 && s[i + 3] == 0x30 && is_hex(s[i + 4])
            && is_hex(s[i + 5]) {
            lemma_psb_bounds(s, i + 6);
            assert(i + 5 < j);
            lemma_psb_reloc(s, t, i + 6, d);
            assert(t[i + d] == 0x5c && t[i + 1 + d] == e);
            assert(t[i + 2 + d] == 0x30 && t[i + 3 + d] == 0x30);
            assert(is_hex(t[i + 4 + d]) && is_hex(t[i + 5 + d]));
            assert(hex_val(t[i + 4 + d]) == hex_val(s[i + 4]) && hex_val(t[i + 5 + d]) == hex_val(
                s[i + 5],
            ));
        } else {
            lemma_psb_bounds(s, i + 2);
            assert(i + 1 < j);
            lemma_psb_reloc(s, t, i + 2, d);
            assert(t[i + d] == 0x5c && t[i + 1 + d] == e);
        }
    } else {
        lemma_psb_bounds(s, i + 1);
        assert(t[i + d] == s[i]);
        lemma_psb_reloc(s, t, i + 1, d);
    }
}

/// Parsing the canonical encoding of a string gives the string back:
/// un-escaping inverts escaping.
pub proof fn lemma_parse_escaped(x: Seq<u8>, rest: Seq<u8>)
    ensures
        parse_string_body(escaped(x) + seq![0x22u8] + rest, 0) == Some(
            (x, escaped(x).len() + 1int),
        ),
    decreases x.len(),
{
    let doc = escaped(x) + seq![0x22u8] + rest;
    if x.len() == 0 {
        assert(doc[0] == 0x22);
        assert(parse_string_body(doc, 0) == Some((Seq::<u8>::empty(), 1int)));
        assert(Seq::<u8>::empty() =~= x);
    } else {
        let x1 = x.subrange(1, x.len() as int);
        let e = esc_byte(x[0]);
        let doc1 = escaped(x1) + seq![0x22u8] + rest;
        lemma_parse_escaped(x1, rest);
        assert(escaped(x) == e + escaped(x1));
        assert(doc =~= e + doc1);
        lemma_psb_bounds(doc1, 0);
        lemma_psb_reloc(doc1, doc, 0, e.len() as int);
        let inner = parse_string_body(doc, e.len() as int);
        assert(inner == Some((x1, e.len() + escaped(x1).len() + 1int)));
        let b = x[0];
        if b == 0x22 {
            assert(doc[0] == 0x5c && doc[1] == 0x22);
            assert(parse_string_body(doc, 0) == cons_parsed(b, parse_string_body(doc, 2)));
        } else if b == 0x5c {
            assert(doc[0] == 0x5c && doc[1] == 0x5c);
            assert(parse_string_body(doc, 0) == cons_parsed(b, parse_string_body(doc, 2)));
        } else if b < 0x20 {
            let hi = (b / 16) as u8;
            let lo = (b % 16) as u8;
            assert(doc[0] == 0x5c && doc[1] == 0x75 && doc[2] == 0x30 && doc[3] == 0x30 && doc[4]
                == hex_digit(hi) && doc[5] == hex_digit(lo));
            assert(hi < 2 && lo < 16);
            assert(hex_val(hex_digit(hi)) == hi);
            assert(hex_val(hex_digit(lo)) == lo);
            assert(0 + 5 < doc.len());
            assert((hex_val(doc[4]) * 16 + hex_val(doc[5])) as u8 == b);
            assert(parse_string_body(doc, 0) == cons_parsed(b, parse_string_body(doc, 6)));
        } else {
            assert(doc[0] == b);
            assert(b != 0x22 && b != 0x5c && !(b < 0x20));
            assert(parse_string_body(doc, 0) == cons_parsed(b, parse_string_body(doc, 1)));
        }
        assert(parse_string_body(doc, 0) == Some((seq![b] + x1, escaped(x).len() + 1int)));
        assert(seq![b] + x1 =~= x);
    }
}

/// First position at or after `i` that does not hold whitespace.
pub open spec fn skip_ws(s: Seq<u8>, i: int) -> int
    decreases s.len() - i,
{
    if 0 <= i < s.len() && is_ws(s[i]) {
        skip_ws(s, i + 1)
    } else {
        i
    }
}

/// First position at or after `i` that holds a delimiter (the end of a
/// bare token).
pub open spec fn scan_bare(s: Seq<u8>, i: int) -> int
    decreases s.len() - i,
{
    if 0 <= i < s.len() && !is_delim(s[i]) {
        scan_bare(s, i + 1)
    } else {
        i
    }
}

pub proof fn lemma_scan_bare_props(s: Seq<u8>, i: int)
    requires
        0 <= i <= s.len(),
    ensures
        i <= scan_bare(s, i) <= s.len(),
        forall|k: int| i <= k < scan_bare(s, i) ==> !is_delim(s[k]),
        scan_bare(s, i) < s.len() ==> is_delim(s[scan_bare(s, i)]),
    decreases s.len() - i,
{
    if i < s.len() && !is_delim(s[i]) {
        lemma_scan_bare_props(s, i + 1);
    }
}

/// Uniqueness: a run of non-delimiters followed by a delimiter or the end
/// determines `scan_bare`.
pub proof fn lemma_scan_bare_char(s: Seq<u8>, i: int, e: int)
    requires
        0 <= i <= e <= s.len(),
        forall|k: int| i <= k < e ==> !is_delim(s[k]),
        e < s.len() ==> is_delim(s[e]),
    ensures
        scan_bare(s, i) == e,
    decreases e - i,
{
    if i < e {
        lemma_scan_bare_char(s, i + 1, e);
    }
}

/// Scans from just after an opening bracket to the bracket that closes it,
/// counting depth and passing over strings.
pub open spec fn scan_nested(s: Seq<u8>, i: int, depth: int, in_str: bool, esc: bool) -> Option<
    int,
>
    decreases s.len() - i,
{
    if !(0 <= i < s.len()) {
        None
    } else {
        let b = s[i];
        if in_str {
            if esc {
                scan_nested(s, i + 1, depth, true, false)
            } else if b == 0x5c {
                scan_nested(s, i + 1, depth, true, true)
            } else if b == 0x22 {
                scan_nested(s, i + 1, depth, false, false)
            } else {
                scan_nested(s, i + 1, depth, true, false)
            }
        } else if b == 0x7b || b == 0x5b {
            scan_nested(s, i + 1, depth + 1, false, false)
        } else if b == 0x7d || b == 0x5d {
            if depth == 1 {
                Some(i + 1)
            } else {
                scan_nested(s, i + 1, depth - 1, false, false)
            }
        } else if b == 0x22 {
            scan_nested(s, i + 1, depth, true, false)
        } else {
            scan_nested(s, i + 1, depth, false, false)
        }
    }
}

pub proof fn lemma_scan_nested_bounds(s: Seq<u8>, i: int, depth: int, in_str: bool, esc: bool)
    requires
        scan_nested(s, i, depth, in_str, esc) is Some,
    ensures
        i < scan_nested(s, i, depth, in_str, esc)->Some_0 <= s.len(),
    decreases s.len() - i,
{
    if 0 <= i < s.len() {
        let b = s[i];
        if in_str {
            if esc {
                lemma_scan_nested_bounds(s, i + 1, depth, true, false);
            } else if b == 0x5c {
                lemma_scan_nested_bounds(s, i + 1, depth, true, true);
            } else if b == 0x22 {
                lemma_scan_nested_bounds(s, i + 1, depth, false, false);
            } else {
                lemma_scan_nested_bounds(s, i + 1, depth, true, false);
            }
        } else if b == 0x7b || b == 0x5b {
            lemma_scan_nested_bounds(s, i + 1, depth + 1, false, false);
        } else if b == 0x7d || b == 0x5d {
            if depth != 1 {
                lemma_scan_nested_bounds(s, i + 1, depth - 1, false, false);
            }
        } else if b == 0x22 {
            lemma_scan_nested_bounds(s, i + 1, depth, true, false);
        } else {
            lemma_scan_nested_bounds(s, i + 1, depth, false, false);
        }
    }
}

/// The nested scan reads only the bytes it consumes.
pub proof fn lemma_scan_nested_reloc(
    s: Seq<u8>,
    t: Seq<u8>,
    i: int,
    depth: int,
    in_str: bool,
    esc: bool,
    d: int,
)
    requires
        scan_nested(s, i, depth, in_str, esc) is Some,
        0 <= i + d,
        scan_nested(s, i, depth, in_str, esc)->Some_0 + d <= t.len(),
        forall|k: int|
            i <= k < scan_nested(s, i, depth, in_str, esc)->Some_0 ==> t[k + d] == s[k],
    ensures
        scan_nested(t, i + d, depth, in_str, esc) == Some(
            scan_nested(s, i, depth, in_str, esc)->Some_0 + d,
        ),
    decreases s.len() - i,
{
    lemma_scan_nested_bounds(s, i, depth, in_str, esc);
    let b = s[i];
    assert(t[i + d] == b);
    if in_str {
        if esc {
            lemma_scan_nested_bounds(s, i + 1, depth, true, false);
            lemma_scan_nested_reloc(s, t, i + 1, depth, true, false, d);
        } else if b == 0x5c {
            lemma_scan_nested_bounds(s, i + 1, depth, true, true);
            lemma_scan_nested_reloc(s, t, i + 1, depth, true, true, d);
        } else if b == 0x22 {
            lemma_scan_nested_bounds(s, i + 1, depth, false, false);
            lemma_scan_nested_reloc(s, t, i + 1, depth, false, false, d);
        } else {
            lemma_scan_nested_bounds(s, i + 1, depth, true, false);
            lemma_scan_nested_reloc(s, t, i + 1, depth, true, false, d);
        }
    } else if b == 0x7b || b == 0x5b {
        lemma_scan_nested_bounds(s, i + 1, depth + 1, false, false);
        lemma_scan_nested_reloc(s, t, i + 1, depth + 1, false, false, d);
    } else if b == 0x7d || b == 0x5d {
        if depth != 1 {
            lemma_scan_nested_bounds(s, i + 1, depth - 1, false, false);
            lemma_scan_nested_reloc(s, t, i + 1, depth - 1, false, false, d);
        }
    } else if b == 0x22 {
        lemma_scan_nested_bounds(s, i + 1, depth, true, false);
        lemma_scan_nested_reloc(s, t, i + 1, depth, true, false, d);
    } else {
        lemma_scan_nested_bounds(s, i + 1, depth, false, false);
        lemma_scan_nested_reloc(s, t, i + 1, depth, false, false, d);
    }
}

pub open spec fn lit_true() -> Seq<u8> {
    seq![0x74u8, 0x72u8, 0x75u8, 0x65u8]
}

pub open spec fn lit_false() -> Seq<u8> {
    seq![0x66u8, 0x61u8, 0x6cu8, 0x73u8, 0x65u8]
}

pub open spec fn lit_null() -> Seq<u8> {
    seq![0x6eu8, 0x75u8, 0x6cu8, 0x6cu8]
}

/// A byte that may appear in a JSON number.
pub open spec fn is_number_byte(b: u8) -> bool {
    (0x30 <= b && b <= 0x39) || b == 0x2d || b == 0x2b || b == 0x2e || b == 0x65 || b == 0x45
}

/// An acceptable bare token: one of the three literals, or a token made of
/// number characters (a shape check, not the full number grammar).
pub open spec fn is_bare_token(t: Seq<u8>) -> bool {
    t == lit_true() || t == lit_false() || t == lit_null() || (t.len() > 0 && forall|k: int|
        0 <= k < t.len() ==> is_number_byte(t[k]))
}

/// The end of one JSON value starting exactly at `i`: a string, a
/// bracketed value, or a bare token.
pub open spec fn scan_value(s: Seq<u8>, i: int) -> Option<int> {
    if !(0 <= i < s.len()) {
        None
    } else if s[i] == 0x22 {
        match parse_string_body(s, i + 1) {
            Some((v, j)) => Some(j),
            None => None,
        }
    } else if s[i] == 0x7b || s[i] == 0x5b {
        scan_nested(s, i + 1, 1, false, false)
    } else {
        let e = scan_bare(s, i);
        if e > i && is_bare_token(s.subrange(i, e)) {
            Some(e)
        } else {
            None
        }
    }
}

pub proof fn lemma_scan_value_bounds(s: Seq<u8>, i: int)
    requires
        scan_value(s, i) is Some,
    ensures
        0 <= i < scan_value(s, i)->Some_0 <= s.len(),
{
    if s[i] == 0x22 {
        lemma_psb_bounds(s, i + 1);
    } else if s[i] == 0x7b || s[i] == 0x5b {
        lemma_scan_nested_bounds(s, i + 1, 1, false, false);
    } else {
        lemma_scan_bare_props(s, i);
    }
}

/// `s` holds exactly one JSON value: the payload shape that the structured
/// encoder accepts.
pub open spec fn json_value_exact(s: Seq<u8>) -> bool {
    scan_value(s, 0) == Some(s.len() as int)
}

/// A value scan reads only the bytes it consumes, plus — for a bare token —
/// the delimiter (or end) just after it.
pub proof fn lemma_scan_value_reloc(s: Seq<u8>, t: Seq<u8>, i: int, d: int)
    requires
        scan_value(s, i) is Some,
        0 <= i + d,
        scan_value(s, i)->Some_0 + d <= t.len(),
        forall|k: int| i <= k < scan_value(s, i)->Some_0 ==> t[k + d] == s[k],
        scan_value(s, i)->Some_0 + d == t.len() || is_delim(t[scan_value(s, i)->Some_0 + d]),
    ensures
        scan_value(t, i + d) == Some(scan_value(s, i)->Some_0 + d),
        t.subrange(i + d, scan_value(s, i)->Some_0 + d) == s.subrange(
            i,
            scan_value(s, i)->Some_0,
        ),
{
    lemma_scan_value_bounds(s, i);
    let j = scan_value(s, i)->Some_0;
    assert(t[i + d] == s[i]);
    assert(t.subrange(i + d, j + d) =~= s.subrange(i, j));
    if s[i] == 0x22 {
        lemma_psb_bounds(s, i + 1);
        lemma_psb_reloc(s, t, i + 1, d);
    } else if s[i] == 0x7b || s[i] == 0x5b {
        lemma_scan_nested_bounds(s, i + 1, 1, false, false);
        lemma_scan_nested_reloc(s, t, i + 1, 1, false, false, d);
    } else {
        lemma_scan_bare_props(s, i);
        assert forall|k: int| i + d <= k < j + d implies !is_delim(t[k]) by {
            let k0 = k - d;
            assert(i <= k0 < j);
            assert(t[k0 + d] == s[k0]);
        }
        lemma_scan_bare_char(t, i + d, j + d);
        assert(t.subrange(i + d, j + d) == s.subrange(i, j));
    }
}

// ---------------------------------------------------------------------------
// Executable counterparts.
// ---------------------------------------------------------------------------

fn hex_digit_exec(n: u8) -> (r: u8)
    requires
        n < 16,
    ensures
        r == hex_digit(n),
{
    if n < 10 {
        0x30 + n
    } else {
        0x57 + n
    }
}

fn hex_val_exec(b: u8) -> (r: Option<u8>)
    ensures
        match r {
            Some(v) => is_hex(b) && v == hex_val(b),
            None => !is_hex(b),
        },
{
    if 0x30 <= b && b <= 0x39 {
        Some(b - 0x30)
    } else if 0x61 <= b && b <= 0x66 {
        Some(b - 0x57)
    } else if 0x41 <= b && b <= 0x46 {
        Some(b - 0x37)
    } else {
        None
    }
}

/// Appends the escaped form of `s` to `out`.
pub fn escape_into(out: &mut Vec<u8>, s: &[u8])
    ensures
        final(out)@ == old(out)@ + escaped(s@),
{
    let mut i: usize = 0;
    while i < s.len()
        invariant
            i <= s@.len(),
            out@ == old(out)@ + escaped(s@.subrange(0, i as int)),
        decreases s@.len() - i,
    {
        let ghost pre = s@.subrange(0, i as int);
        let b = s[i];
        if b == 0x22 {
            out.push(0x5c);
            out.push(0x22);
        } else if b == 0x5c {
            out.push(0x5c);
            out.push(0x5c);
        } else if b < 0x20 {
            out.push(0x5c);
            out.push(0x75);
            out.push(0x30);
            out.push(0x30);
            out.push(hex_digit_exec(b / 16));
            out.push(hex_digit_exec(b % 16));
        } else {
            out.push(b);
        }
        proof {
            lemma_escaped_append(pre, seq![b]);
            assert(escaped(seq![b]) =~= esc_byte(b) + escaped(
                seq![b].subrange(1, 1),
            ));
            assert(escaped(seq![b].subrange(1, 1)) =~= Seq::<u8>::empty());
            assert(escaped(seq![b]) =~= esc_byte(b));
            assert(pre + seq![b] =~= s@.subrange(0, i + 1));
            assert(out@ =~= old(out)@ + escaped(s@.subrange(0, i + 1)));
        }
        i = i + 1;
    }
    proof {
        assert(s@.subrange(0, s@.len() as int) =~= s@);
    }
}

/// Appends `"` + escaped `s` + `"` to `out`.
pub fn emit_string(out: &mut Vec<u8>, s: &[u8])
    ensures
        final(out)@ == old(out)@ + seq![0x22u8] + escaped(s@) + seq![0x22u8],
{
    out.push(0x22);
    escape_into(out, s);
    out.push(0x22);
    proof {
        assert(out@ =~= old(out)@ + seq![0x22u8] + escaped(s@) + seq![0x22u8]);
    }
}

/// Parses a string body starting at `start` (just after the opening
/// quote); returns the un-escaped bytes and the position after the closing
/// quote.
pub fn parse_string_exec(s: &[u8], start: usize) -> (r: Option<(Vec<u8>, usize)>)
    ensures
        match r {
            Some((v, j)) => parse_string_body(s@, start as int) == Some((v@, j as int)) && start
                < j <= s@.len(),
            None => parse_string_body(s@, start as int) is None,
        },
{
    let n = s.len();
    if start >= n {
        return None;
    }
    let mut acc: Vec<u8> = Vec::new();
    let mut i: usize = start;
    loop
        invariant
            start <= i <= n,
            n == s@.len(),
            parse_string_body(s@, start as int) == cons_all(acc@, parse_string_body(s@, i as int)),
        decreases n - i,
    {
        if i >= n {
            return None;
        }
        let b = s[i];
        if b == 0x22 {
            proof {
                assert(parse_string_body(s@, i as int) == Some((Seq::<u8>::empty(), i + 1)));
                assert(acc@ + Seq::<u8>::empty() =~= acc@);
            }
            return Some((acc, i + 1));
        } else if b == 0x5c {
            if n - i <= 1 {
                return None;
            }
            let e = s[i + 1];
            let unescaped: u8 = if e == 0x22 || e == 0x5c || e == 0x2f {
                e
            } else if e == 0x62 {
                0x08
            } else if e == 0x66 {
                0x0c
            } else if e == 0x6e {
                0x0a
            } else if e == 0x72 {
                0x0d
            } else if e == 0x74 {
                0x09
            } else if e == 0x75 {
                if n - i <= 5 {
                    return None;
                }
                if s[i + 2] != 0x30 || s[i + 3] != 0x30 {
                    return None;
                }
                let hi = match hex_val_exec(s[i + 4]) {
                    Some(h) => h,
                    None => { return None; },
                };
                let lo = match hex_val_exec(s[i + 5]) {
                    Some(l) => l,
                    None => { return None; },
                };
                hi * 16 + lo
            } else {
                return None;
            };
            let step: usize = if e == 0x75 {
                6
            } else {
                2
            };
            proof {
                assert(parse_string_body(s@, i as int) == cons_parsed(
                    unescaped,
                    parse_string_body(s@, i + step),
                ));
                lemma_cons_all_push(acc@, unescaped, parse_string_body(s@, i + step));
            }
            acc.push(unescaped);
            i = i + step;
        } else if b < 0x20 {
            return None;
        } else {
            proof {
                assert(parse_string_body(s@, i as int) == cons_parsed(
                    b,
                    parse_string_body(s@, i + 1),
                ));
                lemma_cons_all_push(acc@, b, parse_string_body(s@, i + 1));
            }
            acc.push(b);
            i = i + 1;
        }
    }
}

/// Prepends all of `a` to a parse result.
pub open spec fn cons_all(a: Seq<u8>, rest: Option<(Seq<u8>, int)>) -> Option<(Seq<u8>, int)> {
    match rest {
        Some((t, j)) => Some((a + t, j)),
        None => None,
    }
}

proof fn lemma_cons_all_push(a: Seq<u8>, b: u8, rest: Option<(Seq<u8>, int)>)
    ensures
        cons_all(a, cons_parsed(b, rest)) == cons_all(a.push(b), rest),
{
    match rest {
        Some((t, j)) => {
            assert(a + (seq![b] + t) =~= a.push(b) + t);
        },
        None => {},
    }
}

/// First position at or after `start` that holds no whitespace.
pub fn skip_ws_exec(s: &[u8], start: usize) -> (r: usize)
    requires
        start <= s@.len(),
    ensures
        r == skip_ws(s@, start as int),
        start <= r <= s@.len(),
{
    let n = s.len();
    let mut i: usize = start;
    while i < n && (s[i] == 0x20 || s[i] == 0x09 || s[i] == 0x0a || s[i] == 0x0d)
        invariant
            start <= i <= n,
            n == s@.len(),
            skip_ws(s@, start as int) == skip_ws(s@, i as int),
        decreases n - i,
    {
        i = i + 1;
    }
    i
}

/// The end of one JSON value starting exactly at `start`.
pub fn scan_value_exec(s: &[u8], start: usize) -> (r: Option<usize>)
    ensures
        match r {
            Some(j) => scan_value(s@, start as int) == Some(j as int) && start < j <= s@.len(),
            None => scan_value(s@, start as int) is None,
        },
{
    let n = s.len();
    if start >= n {
        return None;
    }
    let b0 = s[start];
    if b0 == 0x22 {
        match parse_string_exec(s, start + 1) {
            Some((_, j)) => Some(j),
            None => None,
        }
    } else if b0 == 0x7b || b0 == 0x5b {
        let mut i: usize = start + 1;
        let mut depth: usize = 1;
        let mut in_str: bool = false;
        let mut esc: bool = false;
        loop
            invariant
                start < i <= n,
                n == s@.len(),
                depth >= 1,
                depth <= i,
                in_str || !esc,
                scan_value(s@, start as int) == scan_nested(
                    s@,
                    i as int,
                    depth as int,
                    in_str,
                    esc,
                ),
            decreases n - i,
        {
            if i >= n {
                return None;
            }
            let b = s[i];
            let ghost oi = i as int;
            let ghost od = depth as int;
            let ghost ostr = in_str;
            let ghost oesc = esc;
            if in_str {
                if esc {
                    esc = false;
                } else if b == 0x5c {
                    esc = true;
                } else if b == 0x22 {
                    in_str = false;
                }
            } else if b == 0x7b || b == 0x5b {
                depth = depth + 1;
            } else if b == 0x7d || b == 0x5d {
                if depth == 1 {
                    proof {
                        assert(scan_nested(s@, oi, od, ostr, oesc) == Some(oi + 1));
                    }
                    return Some(i + 1);
                }
                depth = depth - 1;
            } else if b == 0x22 {
                in_str = true;
            }
            i = i + 1;
            proof {
                if ostr {
                    if oesc {
                        assert(scan_nested(s@, oi, od, true, true) == scan_nested(
                            s@,
                            oi + 1,
                            od,
                            true,
                            false,
                        ));
                    } else if b == 0x5c {
                        assert(scan_nested(s@, oi, od, true, false) == scan_nested(
                            s@,
                            oi + 1,
                            od,
                            true,
                            true,
                        ));
                    } else if b == 0x22 {
                        assert(scan_nested(s@, oi, od, true, false) == scan_nested(
                            s@,
                            oi + 1,
                            od,
                            false,
                            false,
                        ));
                    } else {
                        assert(scan_nested(s@, oi, od, true, false) == scan_nested(
                            s@,
                            oi + 1,
                            od,
                            true,
                            false,
                        ));
                    }
                } else if b == 0x7b || b == 0x5b {
                    assert(scan_nested(s@, oi, od, false, false) == scan_nested(
                        s@,
                        oi + 1,
                        od + 1,
                        false,
                        false,
                    ));
                } else if b == 0x7d || b == 0x5d {
                    assert(od != 1);
                    assert(scan_nested(s@, oi, od, false, false) == scan_nested(
                        s@,
                        oi + 1,
                        od - 1,
                        false,
                        false,
                    ));
                } else if b == 0x22 {
                    assert(scan_nested(s@, oi, od, false, false) == scan_nested(
                        s@,
                        oi + 1,
                        od,
                        true,
                        false,
                    ));
                } else {
                    assert(scan_nested(s@, oi, od, false, false) == scan_nested(
                        s@,
                        oi + 1,
                        od,
                        false,
                        false,
                    ));
                }
                assert(scan_nested(s@, oi, od, ostr, oesc) == scan_nested(
                    s@,
                    i as int,
                    depth as int,
                    in_str,
                    esc,
                ));
            }
        }
    } else {
        let mut e: usize = start;
        while e < n && !(s[e] == 0x2c || s[e] == 0x7d || s[e] == 0x5d || s[e] == 0x20 || s[e]
            == 0x09 || s[e] == 0x0a || s[e] == 0x0d)
            invariant
                start <= e <= n,
                n == s@.len(),
                scan_bare(s@, start as int) == scan_bare(s@, e as int),
            decreases n - e,
        {
            e = e + 1;
        }
        proof {
            assert(scan_bare(s@, e as int) == e);
        }
        if e == start {
            return None;
        }
        let tok = vstd::slice::slice_subrange(s, start, e);
        if is_bare_token_exec(tok) {
            Some(e)
        } else {
            None
        }
    }
}

fn is_bare_token_exec(t: &[u8]) -> (r: bool)
    ensures
        r == is_bare_token(t@),
{
    if t.len() == 4 && t[0] == 0x74 && t[1] == 0x72 && t[2] == 0x75 && t[3] == 0x65 {
        proof {
            assert(t@ =~= lit_true());
        }
        return true;
    }
    if t.len() == 5 && t[0] == 0x66 && t[1] == 0x61 && t[2] == 0x6c && t[3] == 0x73 && t[4]
        == 0x65 {
        proof {
            assert(t@ =~= lit_false());
        }
        return true;
    }
    if t.len() == 4 && t[0] == 0x6e && t[1] == 0x75 && t[2] == 0x6c && t[3] == 0x6c {
        proof {
            assert(t@ =~= lit_null());
        }
        return true;
    }
    if t.len() == 0 {
        proof {
            assert(t@ != lit_true() && t@ != lit_false() && t@ != lit_null()) by {
                assert(t@.len() == 0);
            }
        }
        return false;
    }
    let mut k: usize = 0;
    #[verifier::loop_isolation(false)]
    while k < t.len()
        invariant
            k <= t@.len(),
            forall|j: int| 0 <= j < k ==> is_number_byte(t@[j]),
        decreases t@.len() - k,
    {
        let b = t[k];
        if !((0x30 <= b && b <= 0x39) || b == 0x2d || b == 0x2b || b == 0x2e || b == 0x65 || b
            == 0x45) {
            proof {
                assert(!is_number_byte(t@[k as int]));
                if t@ == lit_true() {
                    assert(t@.len() == 4 && t@[0] == 0x74 && t@[1] == 0x72 && t@[2] == 0x75 && t@[3]
                        == 0x65);
                    assert(false);
                }
                if t@ == lit_false() {
                    assert(t@.len() == 5 && t@[0] == 0x66 && t@[1] == 0x61 && t@[2] == 0x6c && t@[3]
                        == 0x73 && t@[4] == 0x65);
                    assert(false);
                }
                if t@ == lit_null() {
                    assert(t@.len() == 4 && t@[0] == 0x6e && t@[1] == 0x75 && t@[2] == 0x6c && t@[3]
                        == 0x6c);
                    assert(false);
                }
                assert(t@ != lit_true() && t@ != lit_false() && t@ != lit_null());
            }
            return false;
        }
        k = k + 1;
    }
    true
}

/// Checks that `s` holds exactly one JSON value: the shape the structured
/// encoder requires of a payload.
pub fn check_json_value(s: &[u8]) -> (r: bool)
    ensures
        r == json_value_exact(s@),
{
    match scan_value_exec(s, 0) {
        Some(j) => j == s.len(),
        None => false,
    }
}

} // verus!
