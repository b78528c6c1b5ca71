//! The notation's grammar as spec functions over the input bytes. Each rule
//! takes a position and, on success, gives the position after what it
//! consumed together with what it recognised. Alternatives are ordered: the
//! first that matches wins.
use vstd::prelude::*;
use vstd::utf8::*;
use crate::bytes::{
    scan, Stop, BACKSLASH, COLON, COMMA, CR, DASH, DEL, HASH, LBRACKET, LF, QUOTE, RBRACKET, SLASH,
    SPACE,
};
use crate::model::{merged, Tree};

verus! {

/// The number of spaces added to the indentation at each nesting level.
pub const INDENT_STEP: usize = 2;

/// The deepest nesting of blocks that is accepted; a block nested deeper does
/// not match, which bounds the recursion of the parser.
pub const MAX_NESTING: usize = 100;

pub open spec fn byte_at(s: Seq<u8>, p: int, b: u8) -> bool {
    0 <= p < s.len() && s[p] == b
}

pub open spec fn skip_space(s: Seq<u8>, p: int) -> int {
    scan(s, p, Stop::NonSpace)
}

/// `\n` or `\r\n`.
pub open spec fn line_ending(s: Seq<u8>, p: int) -> Option<int> {
    if byte_at(s, p, LF) {
        Some(p + 1)
    } else if byte_at(s, p, CR) && byte_at(s, p + 1, LF) {
        Some(p + 2)
    } else {
        None
    }
}

/// Absorbs lines that hold only horizontal whitespace.
pub open spec fn blank_lines(s: Seq<u8>, p: int) -> int
    decreases s.len() - p,
{
    match line_ending(s, skip_space(s, p)) {
        Some(q) => if p < q <= s.len() {
            blank_lines(s, q)
        } else {
            p
        },
        None => p,
    }
}

/// A line ending followed by any number of blank lines.
pub open spec fn eol_any(s: Seq<u8>, p: int) -> Option<int> {
    match line_ending(s, p) {
        Some(q) => Some(blank_lines(s, q)),
        None => None,
    }
}

/// Optional whitespace, an optional `#` with the rest of the line, then the end of the line.
pub open spec fn comment(s: Seq<u8>, p: int) -> Option<int> {
    let a = skip_space(s, p);
    let b = if byte_at(s, a, HASH) {
        scan(s, a + 1, Stop::LineBreak)
    } else {
        a
    };
    eol_any(s, b)
}

/// Exactly `n` spaces start at `p`.
pub open spec fn indented(s: Seq<u8>, p: int, n: nat) -> bool {
    0 <= p && p + n <= s.len() && forall|i: int| p <= i < p + n ==> s[i] == SPACE
}

/// Further chunks of a plain scalar: optional whitespace, then a nonempty run.
pub open spec fn plain_rest(s: Seq<u8>, q: int) -> int
    decreases s.len() - q,
{
    let r = skip_space(s, q);
    let e = scan(s, r, Stop::PlainRest);
    if r < e && q < e <= s.len() {
        plain_rest(s, e)
    } else {
        q
    }
}

/// The text of `s[p..e]` where it is well-formed UTF-8.
pub open spec fn text_of(s: Seq<u8>, p: int, e: int) -> Option<Seq<char>> {
    if valid_utf8(s.subrange(p, e)) {
        Some(decode_utf8(s.subrange(p, e)))
    } else {
        None
    }
}

pub open spec fn plain(s: Seq<u8>, p: int) -> Option<(int, Seq<char>)> {
    let q = scan(s, p, Stop::PlainLead);
    if 0 <= p < q {
        let e = plain_rest(s, q);
        match text_of(s, p, e) {
            Some(t) => Some((e, t)),
            None => None,
        }
    } else {
        None
    }
}

pub open spec fn hex_digit(b: u8) -> Option<u32> {
    if 48 <= b <= 57 {
        Some((b - 48) as u32)
    } else if 97 <= b <= 102 {
        Some((b - 87) as u32)
    } else if 65 <= b <= 70 {
        Some((b - 55) as u32)
    } else {
        None
    }
}

/// Exactly four hexadecimal digits at `p`, read as a number.
pub open spec fn hex4(s: Seq<u8>, p: int) -> Option<u32> {
    if 0 <= p && p + 4 <= s.len() {
        match (hex_digit(s[p]), hex_digit(s[p + 1]), hex_digit(s[p + 2]), hex_digit(s[p + 3])) {
            (Some(a), Some(b), Some(c), Some(d)) => Some((a * 4096 + b * 256 + c * 16 + d) as u32),
            _ => None,
        }
    } else {
        None
    }
}

/// The character that the escape code at `p` (after the backslash) stands for.
pub open spec fn escape(s: Seq<u8>, p: int) -> Option<(int, char)> {
    if 0 <= p < s.len() {
        let b = s[p];
        if b == QUOTE {
            Some((p + 1, '"'))
        } else if b == BACKSLASH {
            Some((p + 1, '\\'))
        } else if b == SLASH {
            Some((p + 1, '/'))
        } else if b == 110 {
            Some((p + 1, '\n'))
        } else if b == 114 {
            Some((p + 1, '\r'))
        } else if b == 116 {
            Some((p + 1, '\t'))
        } else if b == 98 {
            Some((p + 1, '\x08'))
        } else if b == 102 {
            Some((p + 1, '\x0c'))
        } else if b == 117 {
            match hex4(s, p + 1) {
                Some(c) => if is_scalar(c) {
                    Some((p + 5, c as char))
                } else {
                    None
                },
                None => None,
            }
        } else {
            None
        }
    } else {
        None
    }
}

/// The body of a double-quoted scalar from `p` up to its closing quote: the
/// position of that quote and the decoded text.
pub open spec fn quoted_body(s: Seq<u8>, p: int) -> Option<(int, Seq<char>)>
    decreases s.len() - p,
{
    if !(0 <= p < s.len()) {
        None
    } else if s[p] == QUOTE {
        Some((p, seq![]))
    } else if s[p] == BACKSLASH {
        match escape(s, p + 1) {
            Some((q, c)) => if p < q <= s.len() {
                match quoted_body(s, q) {
                    Some((e, t)) => Some((e, seq![c] + t)),
                    None => None,
                }
            } else {
                None
            },
            None => None,
        }
    } else if s[p] == DEL {
        None
    } else {
        let q = scan(s, p, Stop::QuotedRun);
        if p < q <= s.len() {
            match (text_of(s, p, q), quoted_body(s, q)) {
                (Some(run), Some((e, t))) => Some((e, run + t)),
                _ => None,
            }
        } else {
            None
        }
    }
}

pub open spec fn double_quoted(s: Seq<u8>, p: int) -> Option<(int, Seq<char>)> {
    if byte_at(s, p, QUOTE) {
        match quoted_body(s, p + 1) {
            Some((e, t)) => Some((e + 1, t)),
            None => None,
        }
    } else {
        None
    }
}

/// A double-quoted scalar, else a plain one.
pub open spec fn scalar(s: Seq<u8>, p: int) -> Option<(int, Seq<char>)> {
    match double_quoted(s, p) {
        Some(r) => Some(r),
        None => plain(s, p),
    }
}

/// Further elements of a flow sequence, each after a comma.
pub open spec fn flow_more(s: Seq<u8>, q: int) -> (Seq<Seq<char>>, int)
    decreases s.len() - q,
{
    let a = skip_space(s, q);
    if byte_at(s, a, COMMA) {
        match scalar(s, skip_space(s, a + 1)) {
            Some((c, t)) => if q < c <= s.len() {
                let r = flow_more(s, c);
                (seq![t] + r.0, r.1)
            } else {
                (seq![], q)
            },
            None => (seq![], q),
        }
    } else {
        (seq![], q)
    }
}

/// The comma-separated scalars of a flow sequence, possibly none.
pub open spec fn flow_elems(s: Seq<u8>, p: int) -> (Seq<Seq<char>>, int) {
    match scalar(s, p) {
        Some((q, t)) => {
            let r = flow_more(s, q);
            (seq![t] + r.0, r.1)
        },
        None => (seq![], p),
    }
}

pub open spec fn strs(ts: Seq<Seq<char>>) -> Seq<Tree> {
    ts.map_values(|t: Seq<char>| Tree::Str(t))
}

/// `[`, scalars separated by commas, `]`.
pub open spec fn flow(s: Seq<u8>, p: int) -> Option<(int, Tree)> {
    if byte_at(s, p, LBRACKET) {
        let r = flow_elems(s, skip_space(s, p + 1));
        let f = skip_space(s, r.1);
        if byte_at(s, f, RBRACKET) {
            Some((f + 1, Tree::List(strs(r.0))))
        } else {
            None
        }
    } else {
        None
    }
}

/// The end of a line; for a top-level value, also the very end of the input.
pub open spec fn value_end(s: Seq<u8>, q: int, top: bool) -> Option<int> {
    if top && q == s.len() {
        Some(q)
    } else {
        eol_any(s, q)
    }
}

/// A flow sequence that ends its line, else a scalar that ends its line. A
/// top-level value may end at the end of the input instead.
pub open spec fn inline_value(s: Seq<u8>, p: int, top: bool) -> Option<(int, Tree)> {
    let by_flow = match flow(s, p) {
        Some((q, v)) => match value_end(s, q, top) {
            Some(e) => Some((e, v)),
            None => None,
        },
        None => None,
    };
    match by_flow {
        Some(r) => Some(r),
        None => match scalar(s, p) {
            Some((q, t)) => match value_end(s, q, top) {
                Some(e) => Some((e, Tree::Str(t))),
                None => None,
            },
            None => None,
        },
    }
}

/// The value of a statement: a nested item list or property map on the
/// following lines (within the nesting ceiling), else an inline value.
pub open spec fn expression(s: Seq<u8>, p: int, ind: nat) -> Option<(int, Tree)>
    decreases s.len() - p, 5int,
{
    if !(0 <= p <= s.len()) {
        None
    } else {
        let nested = match line_ending(s, p) {
            Some(q) => if ind < MAX_NESTING * INDENT_STEP {
                match items(s, q, (ind + INDENT_STEP) as nat) {
                    Some(r) => Some(r),
                    None => props(s, q, (ind + INDENT_STEP) as nat),
                }
            } else {
                None
            },
            None => None,
        };
        match nested {
            Some(r) => Some(r),
            None => inline_value(s, p, false),
        }
    }
}

/// `-`, whitespace, then an expression, at indentation `ind`.
pub open spec fn item(s: Seq<u8>, p: int, ind: nat) -> Option<(int, Tree)>
    decreases s.len() - p, 1int,
{
    if indented(s, p, ind) && byte_at(s, p + ind, DASH) {
        let q = skip_space(s, p + ind + 1);
        if p + ind + 1 < q <= s.len() {
            expression(s, q, ind)
        } else {
            None
        }
    } else {
        None
    }
}

/// As many items as follow one another, and the position after the last.
pub open spec fn items_from(s: Seq<u8>, p: int, ind: nat) -> (Seq<Tree>, int)
    decreases s.len() - p, 2int,
{
    match item(s, p, ind) {
        Some((q, v)) => if p < q <= s.len() {
            let r = items_from(s, q, ind);
            (seq![v] + r.0, r.1)
        } else {
            (seq![], p)
        },
        None => (seq![], p),
    }
}

/// An item list: at least one item.
pub open spec fn items(s: Seq<u8>, p: int, ind: nat) -> Option<(int, Tree)>
    decreases s.len() - p, 3int,
{
    let r = items_from(s, p, ind);
    if r.0.len() > 0 {
        Some((r.1, Tree::List(r.0)))
    } else {
        None
    }
}

/// A key, a colon, then an expression, at indentation `ind`.
pub open spec fn prop(s: Seq<u8>, p: int, ind: nat) -> Option<(int, (Seq<char>, Tree))>
    decreases s.len() - p, 1int,
{
    if indented(s, p, ind) {
        match scalar(s, p + ind) {
            Some((k, key)) => {
                let a = skip_space(s, k);
                let b = skip_space(s, a + 1);
                if byte_at(s, a, COLON) && p < b <= s.len() {
                    match expression(s, b, ind) {
                        Some((e, v)) => Some((e, (key, v))),
                        None => None,
                    }
                } else {
                    None
                }
            },
            None => None,
        }
    } else {
        None
    }
}

/// One line of a property map: a comment, which adds no entry, else a property.
pub open spec fn prop_line(s: Seq<u8>, p: int, ind: nat) -> Option<(int, Seq<(Seq<char>, Tree)>)>
    decreases s.len() - p, 2int,
{
    match comment(s, p) {
        Some(q) => Some((q, seq![])),
        None => match prop(s, p, ind) {
            Some((q, kv)) => Some((q, seq![kv])),
            None => None,
        },
    }
}

/// The entries of as many property-map lines as follow one another, in order.
pub open spec fn props_from(s: Seq<u8>, p: int, ind: nat) -> (Seq<(Seq<char>, Tree)>, int)
    decreases s.len() - p, 3int,
{
    match prop_line(s, p, ind) {
        Some((q, es)) => if p < q <= s.len() {
            let r = props_from(s, q, ind);
            (es + r.0, r.1)
        } else {
            (seq![], p)
        },
        None => (seq![], p),
    }
}

/// A property map: at least one line; later entries overwrite earlier ones.
pub open spec fn props(s: Seq<u8>, p: int, ind: nat) -> Option<(int, Tree)>
    decreases s.len() - p, 4int,
{
    match prop_line(s, p, ind) {
        Some((q, es)) => if p < q <= s.len() {
            let r = props_from(s, p, ind);
            Some((r.1, Tree::Dict(merged(r.0))))
        } else {
            None
        },
        None => None,
    }
}

/// A whole document: an item list, else a property map, else an inline value.
pub open spec fn document(s: Seq<u8>) -> Option<(int, Tree)> {
    match items(s, 0, 0) {
        Some(r) => Some(r),
        None => match props(s, 0, 0) {
            Some(r) => Some(r),
            None => inline_value(s, 0, true),
        },
    }
}

/// How far a double-quoted body starting at `p` got: the position of the byte
/// where it stopped (its closing quote, or where decoding failed).
pub open spec fn quoted_reach(s: Seq<u8>, p: int) -> int
    decreases s.len() - p,
{
    if !(0 <= p < s.len()) || s[p] == QUOTE || s[p] == DEL {
        p
    } else if s[p] == BACKSLASH {
        match escape(s, p + 1) {
            Some((q, _)) => if p < q <= s.len() {
                quoted_reach(s, q)
            } else {
                p
            },
            None => p,
        }
    } else {
        let q = scan(s, p, Stop::QuotedRun);
        if p < q <= s.len() && text_of(s, p, q) is Some {
            quoted_reach(s, q)
        } else {
            p
        }
    }
}

/// Where a failed scalar at `p` stopped: inside a double-quoted scalar, where
/// its body stopped; otherwise at `p`.
pub open spec fn scalar_reach(s: Seq<u8>, p: int) -> int {
    if byte_at(s, p, QUOTE) {
        quoted_reach(s, p + 1)
    } else {
        p
    }
}

/// Where a failed flow sequence at `p` stopped: after its last element, where
/// a comma or `]` was expected; or at `p` when it does not open with `[`.
pub open spec fn flow_reach(s: Seq<u8>, p: int) -> int {
    if byte_at(s, p, LBRACKET) {
        skip_space(s, flow_elems(s, skip_space(s, p + 1)).1)
    } else {
        p
    }
}

/// Where a failed flow sequence that should end its line stopped.
pub open spec fn flow_line_reach(s: Seq<u8>, p: int) -> int {
    match flow(s, p) {
        Some((q, _)) => q,
        None => flow_reach(s, p),
    }
}

/// Where a failed scalar that should end its line stopped.
pub open spec fn scalar_line_reach(s: Seq<u8>, p: int) -> int {
    match scalar(s, p) {
        Some((q, _)) => q,
        None => scalar_reach(s, p),
    }
}

pub open spec fn max(a: int, b: int) -> int {
    if a < b {
        b
    } else {
        a
    }
}

/// How far a failed expression at `p` got: the furthest of its alternatives.
pub open spec fn expression_reach(s: Seq<u8>, p: int, ind: nat) -> int
    decreases s.len() - p, 5int,
{
    let inline = max(flow_line_reach(s, p), scalar_line_reach(s, p));
    if !(0 <= p <= s.len()) {
        p
    } else {
        match line_ending(s, p) {
            Some(q) => if ind < MAX_NESTING * INDENT_STEP {
                max(
                    max(
                        item_reach(s, q, (ind + INDENT_STEP) as nat),
                        prop_reach(s, q, (ind + INDENT_STEP) as nat),
                    ),
                    inline,
                )
            } else {
                inline
            },
            None => inline,
        }
    }
}

/// How far a failed item at `p` got.
pub open spec fn item_reach(s: Seq<u8>, p: int, ind: nat) -> int
    decreases s.len() - p, 1int,
{
    if indented(s, p, ind) && byte_at(s, p + ind, DASH) {
        let q = skip_space(s, p + ind + 1);
        if p + ind + 1 < q <= s.len() {
            expression_reach(s, q, ind)
        } else {
            p + ind + 1
        }
    } else if indented(s, p, ind) {
        p + ind
    } else {
        p
    }
}

/// How far a failed property at `p` got.
pub open spec fn prop_reach(s: Seq<u8>, p: int, ind: nat) -> int
    decreases s.len() - p, 1int,
{
    if indented(s, p, ind) {
        match scalar(s, p + ind) {
            Some((k, _)) => {
                let a = skip_space(s, k);
                let b = skip_space(s, a + 1);
                if !byte_at(s, a, COLON) {
                    a
                } else if p < b <= s.len() {
                    expression_reach(s, b, ind)
                } else {
                    a + 1
                }
            },
            None => scalar_reach(s, p + ind),
        }
    } else {
        p
    }
}

} // verus!
