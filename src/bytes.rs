use vstd::prelude::*;

verus! {

pub const TAB: u8 = 9;
pub const LF: u8 = 10;
pub const CR: u8 = 13;
pub const SPACE: u8 = 32;
pub const BANG: u8 = 33;
pub const QUOTE: u8 = 34;
pub const HASH: u8 = 35;
pub const PERCENT: u8 = 37;
pub const AMPERSAND: u8 = 38;
pub const APOSTROPHE: u8 = 39;
pub const STAR: u8 = 42;
pub const COMMA: u8 = 44;
pub const DASH: u8 = 45;
pub const SLASH: u8 = 47;
pub const COLON: u8 = 58;
pub const GREATER: u8 = 62;
pub const QUESTION: u8 = 63;
pub const AT: u8 = 64;
pub const LBRACKET: u8 = 91;
pub const BACKSLASH: u8 = 92;
pub const RBRACKET: u8 = 93;
pub const BACKTICK: u8 = 96;
pub const LBRACE: u8 = 123;
pub const PIPE: u8 = 124;
pub const RBRACE: u8 = 125;
pub const DEL: u8 = 127;

/// The byte classes that end a run of bytes.
#[derive(Clone, Copy, PartialEq, Eq, Structural)]
pub enum Stop {
    /// Any byte but a space or a tab.
    NonSpace,
    /// Bytes that may not open a plain scalar.
    PlainLead,
    /// Bytes that end a later chunk of a plain scalar.
    PlainRest,
    /// Bytes that end a literal run inside a double-quoted scalar.
    QuotedRun,
    /// Line-ending bytes.
    LineBreak,
}

pub open spec fn is_space(b: u8) -> bool {
    b == SPACE || b == TAB
}

pub open spec fn is_line_break(b: u8) -> bool {
    b == CR || b == LF
}

pub open spec fn is_plain_rest_stop(b: u8) -> bool {
    is_space(b) || is_line_break(b) || b == COMMA || b == RBRACKET || b == LBRACKET || b == LBRACE
        || b == RBRACE || b == COLON || b == HASH || b == QUOTE || b == APOSTROPHE
}

pub open spec fn is_plain_lead_stop(b: u8) -> bool {
    is_plain_rest_stop(b) || b == QUESTION || b == AMPERSAND || b == STAR || b == BANG || b == PIPE
        || b == GREATER || b == PERCENT || b == AT || b == BACKTICK || b == DASH
}

pub open spec fn is_quoted_stop(b: u8) -> bool {
    b == QUOTE || b == BACKSLASH || b == DEL
}

pub open spec fn stops(class: Stop, b: u8) -> bool {
    match class {
        Stop::NonSpace => !is_space(b),
        Stop::PlainLead => is_plain_lead_stop(b),
        Stop::PlainRest => is_plain_rest_stop(b),
        Stop::QuotedRun => is_quoted_stop(b),
        Stop::LineBreak => is_line_break(b),
    }
}

pub fn stops_at(class: Stop, b: u8) -> (r: bool)
    ensures
        r == stops(class, b),
{
    let space = b == SPACE || b == TAB;
    let brk = b == CR || b == LF;
    let rest = space || brk || b == COMMA || b == RBRACKET || b == LBRACKET || b == LBRACE
        || b == RBRACE || b == COLON || b == HASH || b == QUOTE || b == APOSTROPHE;
    match class {
        Stop::NonSpace => !space,
        Stop::PlainLead => rest || b == QUESTION || b == AMPERSAND || b == STAR || b == BANG
            || b == PIPE || b == GREATER || b == PERCENT || b == AT || b == BACKTICK || b == DASH,
        Stop::PlainRest => rest,
        Stop::QuotedRun => b == QUOTE || b == BACKSLASH || b == DEL,
        Stop::LineBreak => brk,
    }
}

/// The first position at or after `p` that holds a byte of `class`, or the end.
pub open spec fn scan(s: Seq<u8>, p: int, class: Stop) -> int
    decreases s.len() - p,
{
    if 0 <= p < s.len() && !stops(class, s[p]) {
        scan(s, p + 1, class)
    } else {
        p
    }
}

pub proof fn lemma_scan(s: Seq<u8>, p: int, class: Stop)
    requires
        0 <= p <= s.len(),
    ensures
        p <= scan(s, p, class) <= s.len(),
        forall|i: int| p <= i < scan(s, p, class) ==> !stops(class, #[trigger] s[i]),
        scan(s, p, class) < s.len() ==> stops(class, s[scan(s, p, class)]),
    decreases s.len() - p,
{
    if p < s.len() && !stops(class, s[p]) {
        lemma_scan(s, p + 1, class);
    }
}

/// Advances from `p` over bytes that are not of `class`.
pub fn scan_from(s: &[u8], p: usize, class: Stop) -> (r: usize)
    requires
        p <= s@.len(),
    ensures
        r as int == scan(s@, p as int, class),
        p <= r <= s@.len(),
{
    let mut i: usize = p;
    while i < s.len() && !stops_at(class, s[i])
        invariant
            p <= i <= s@.len(),
            scan(s@, i as int, class) == scan(s@, p as int, class),
        decreases s@.len() - i,
    {
        i = i + 1;
    }
    i
}

} // verus!
