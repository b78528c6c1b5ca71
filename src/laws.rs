//! Properties of the grammar that hold for every input.
use vstd::prelude::*;
use crate::bytes::{
    is_quoted_stop, is_plain_rest_stop, is_space, lemma_scan, Stop, APOSTROPHE, BACKSLASH, COLON, COMMA, CR, HASH,
    LBRACE, LBRACKET, LF, QUOTE, RBRACE, RBRACKET, SLASH,
};
use vstd::utf8::{
    decode_utf8, encode_utf8, encode_utf8_decode_utf8, encode_utf8_valid_utf8, is_ascii_chars,
    is_ascii_chars_encode_utf8, is_scalar,
};
use crate::grammar::{
    byte_at, comment, document, hex4, text_of, double_quoted, escape, expression, flow, hex_digit, indented,
    inline_value, item, items, items_from, line_ending, plain, plain_rest, prop, prop_line, props,
    props_from, quoted_body, skip_space, strs, INDENT_STEP,
};
use crate::model::{
    dict_get, keys_unique, last_value, lemma_list_wf, lemma_merged, lemma_merged_values_wf, tree_wf, values_wf,
    Tree,
};

verus! {

/// In a property map the keys are distinct, and each key holds the value
/// written at its last occurrence.
pub proof fn law_last_key_wins(s: Seq<u8>, p: int, ind: nat)
    requires
        props(s, p, ind) is Some,
    ensures
        props(s, p, ind) matches Some((_, Tree::Dict(d))) && keys_unique(d) && forall|k: Seq<char>|
            #[trigger] dict_get(d, k) == last_value(props_from(s, p, ind).0, k),
{
    lemma_merged(props_from(s, p, ind).0);
}

/// An item list holds the value of the item on its first line, followed by the
/// values of the items on the lines below, in the order in which they appear.
pub proof fn law_items_in_order(s: Seq<u8>, p: int, ind: nat)
    requires
        items(s, p, ind) is Some,
    ensures
        item(s, p, ind) matches Some((q, v)) && p < q && items(s, p, ind) == Some(
            (items_from(s, q, ind).1, Tree::List(seq![v] + items_from(s, q, ind).0)),
        ),
{
}

/// The line at `p` starts with exactly `ind` spaces and then a byte that is not
/// horizontal whitespace.
pub open spec fn starts_at_indent(s: Seq<u8>, p: int, ind: nat) -> bool {
    indented(s, p, ind) && p + ind < s.len() && !is_space(s[p + ind])
}

/// A line indented otherwise than by exactly `ind` spaces is neither an item
/// nor a property at that depth: it ends an item list, and a property map
/// takes it in only as a comment, with no entry.
pub proof fn law_wrong_indent_ends_block(s: Seq<u8>, p: int, ind: nat)
    requires
        0 <= p <= s.len(),
        !starts_at_indent(s, p, ind),
    ensures
        item(s, p, ind) is None,
        prop(s, p, ind) is None,
        items_from(s, p, ind) == (Seq::<Tree>::empty(), p),
        prop_line(s, p, ind) == (match comment(s, p) {
            Some(q) => Some((q, Seq::<(Seq<char>, Tree)>::empty())),
            None => None,
        }),
{
}

/// Each one-letter escape decodes to exactly one character and consumes one
/// byte after the backslash.
pub proof fn law_escapes(s: Seq<u8>, p: int)
    requires
        0 <= p < s.len(),
    ensures
        s[p] == 110 ==> escape(s, p) == Some((p + 1, '\n')),
        s[p] == 114 ==> escape(s, p) == Some((p + 1, '\r')),
        s[p] == 116 ==> escape(s, p) == Some((p + 1, '\t')),
        s[p] == 98 ==> escape(s, p) == Some((p + 1, '\x08')),
        s[p] == 102 ==> escape(s, p) == Some((p + 1, '\x0c')),
        s[p] == QUOTE ==> escape(s, p) == Some((p + 1, '"')),
        s[p] == BACKSLASH ==> escape(s, p) == Some((p + 1, '\\')),
        s[p] == SLASH ==> escape(s, p) == Some((p + 1, '/')),
{
}

/// Hexadecimal digits of `\u` escapes are read regardless of case.
pub proof fn law_hex_case_insensitive(b: u8)
    requires
        97 <= b <= 102,
    ensures
        hex_digit(b) == hex_digit((b - 32) as u8),
        hex_digit(b) == Some((b - 87) as u32),
{
}

/// A double-quoted scalar that holds a single escape decodes to exactly the
/// character that the escape stands for.
pub proof fn law_single_escape(s: Seq<u8>, p: int)
    requires
        byte_at(s, p, QUOTE),
        byte_at(s, p + 1, BACKSLASH),
        escape(s, p + 2) is Some,
        byte_at(s, escape(s, p + 2)->Some_0.0, QUOTE),
    ensures
        double_quoted(s, p) == Some(
            (escape(s, p + 2)->Some_0.0 + 1, seq![escape(s, p + 2)->Some_0.1]),
        ),
{
    let (q, c) = escape(s, p + 2)->Some_0;
    assert(quoted_body(s, q) == Some((q, Seq::<char>::empty())));
    assert(seq![c] + Seq::<char>::empty() =~= seq![c]);
}

proof fn lemma_plain_rest(s: Seq<u8>, q: int)
    requires
        0 <= q <= s.len(),
    ensures
        q <= plain_rest(s, q) <= s.len(),
        forall|i: int|
            q <= i < plain_rest(s, q) ==> is_space(#[trigger] s[i]) || !is_plain_rest_stop(s[i]),
    decreases s.len() - q,
{
    let r = skip_space(s, q);
    lemma_scan(s, q, Stop::NonSpace);
    let e = crate::bytes::scan(s, r, Stop::PlainRest);
    lemma_scan(s, r, Stop::PlainRest);
    if r < e && q < e <= s.len() {
        lemma_plain_rest(s, e);
    }
}

/// A plain scalar's text is the raw span it covers, decoded as UTF-8, and that
/// span holds no colon, comma, bracket, brace, hash, quote or line-ending byte.
pub proof fn law_plain_excludes_structure(s: Seq<u8>, p: int)
    requires
        plain(s, p) is Some,
    ensures
        plain(s, p)->Some_0.1 == decode_utf8(s.subrange(p, plain(s, p)->Some_0.0)),
        forall|i: int|
            p <= i < plain(s, p)->Some_0.0 ==> !(#[trigger] s[i] == COLON || s[i] == COMMA || s[i]
                == LBRACKET || s[i] == RBRACKET || s[i] == CR || s[i] == LF || s[i] == HASH || s[i]
                == LBRACE || s[i] == RBRACE || s[i] == QUOTE || s[i] == APOSTROPHE),
{
    let q = crate::bytes::scan(s, p, Stop::PlainLead);
    lemma_scan(s, p, Stop::PlainLead);
    lemma_plain_rest(s, q);
}

/// The position of the `n`-th line of an item list that starts at `p`.
pub open spec fn item_pos(s: Seq<u8>, p: int, ind: nat, n: nat) -> int
    decreases n,
{
    if n == 0 {
        p
    } else {
        let prev = item_pos(s, p, ind, (n - 1) as nat);
        match item(s, prev, ind) {
            Some((q, _)) => q,
            None => prev,
        }
    }
}

proof fn lemma_item_pos_shift(s: Seq<u8>, p: int, ind: nat, n: nat)
    requires
        item(s, p, ind) is Some,
    ensures
        item_pos(s, p, ind, n + 1) == item_pos(s, item(s, p, ind)->Some_0.0, ind, n),
    decreases n,
{
    let q = item(s, p, ind)->Some_0.0;
    if n > 0 {
        lemma_item_pos_shift(s, p, ind, (n - 1) as nat);
        assert(item_pos(s, p, ind, n) == item_pos(s, q, ind, (n - 1) as nat));
        assert(item_pos(s, q, ind, n) == match item(s, item_pos(s, q, ind, (n - 1) as nat), ind) {
            Some((r, _)) => r,
            None => item_pos(s, q, ind, (n - 1) as nat),
        });
    } else {
        assert(item_pos(s, p, ind, 0) == p);
        assert(item_pos(s, q, ind, 0) == q);
    }
}

/// The values of an item list are those of its item lines, top to bottom: the
/// `i`-th value comes from the item line at `item_pos(.., i)`, which ends where
/// the next begins, none is skipped or added, and the list ends where no
/// further item follows.
pub proof fn law_items_whole_order(s: Seq<u8>, p: int, ind: nat)
    requires
        0 <= p <= s.len(),
    ensures
        forall|i: int|
            0 <= i < items_from(s, p, ind).0.len() ==> #[trigger] item(
                s,
                item_pos(s, p, ind, i as nat),
                ind,
            ) == Some((item_pos(s, p, ind, (i + 1) as nat), items_from(s, p, ind).0[i])),
        items_from(s, p, ind).1 == item_pos(s, p, ind, items_from(s, p, ind).0.len()),
        !(item(s, items_from(s, p, ind).1, ind) matches Some((q, _)) && items_from(s, p, ind).1 < q
            <= s.len()),
    decreases s.len() - p,
{
    if let Some((q, v)) = item(s, p, ind) {
        if p < q <= s.len() {
            law_items_whole_order(s, q, ind);
            let r = items_from(s, q, ind);
            let xs = items_from(s, p, ind).0;
            assert forall|i: int| 0 <= i < xs.len() implies #[trigger] item(
                s,
                item_pos(s, p, ind, i as nat),
                ind,
            ) == Some((item_pos(s, p, ind, (i + 1) as nat), xs[i])) by {
                lemma_item_pos_shift(s, p, ind, i as nat);
                if i > 0 {
                    lemma_item_pos_shift(s, p, ind, (i - 1) as nat);
                    assert(xs[i] == r.0[i - 1]);
                    assert(item(s, item_pos(s, q, ind, (i - 1) as nat), ind) == Some(
                        (item_pos(s, q, ind, i as nat), r.0[i - 1]),
                    ));
                }
            }
            lemma_item_pos_shift(s, p, ind, r.0.len());
        }
    }
}

/// A `\u` escape reads exactly four hexadecimal digits, of either case, as a
/// number and stands for the character with that code when it is a Unicode
/// scalar value; otherwise the escape is rejected.
pub proof fn law_unicode_escape(s: Seq<u8>, p: int)
    requires
        0 <= p < s.len(),
        s[p] == 117,
    ensures
        hex4(s, p + 1) is Some <==> (p + 5 <= s.len() && forall|k: int|
            p + 1 <= k < p + 5 ==> #[trigger] hex_digit(s[k]) is Some),
        hex4(s, p + 1) matches Some(c) ==> c == hex_digit(s[p + 1])->Some_0 * 4096 + hex_digit(
            s[p + 2],
        )->Some_0 * 256 + hex_digit(s[p + 3])->Some_0 * 16 + hex_digit(s[p + 4])->Some_0,
        escape(s, p) == (match hex4(s, p + 1) {
            Some(c) => if is_scalar(c) {
                Some((p + 5, c as char))
            } else {
                None
            },
            None => None,
        }),
{
    if p + 5 <= s.len() && forall|k: int| p + 1 <= k < p + 5 ==> #[trigger] hex_digit(s[k]) is Some {
        assert(hex_digit(s[p + 1]) is Some);
        assert(hex_digit(s[p + 2]) is Some);
        assert(hex_digit(s[p + 3]) is Some);
        assert(hex_digit(s[p + 4]) is Some);
    }
    if hex4(s, p + 1) is Some {
        assert forall|k: int| p + 1 <= k < p + 5 implies #[trigger] hex_digit(s[k]) is Some by {
            if k == p + 1 {
            } else if k == p + 2 {
            } else if k == p + 3 {
            } else {
            }
        }
    }
}

/// The escape code that stands for `c`, for the characters with a one-letter escape.
pub open spec fn escape_code(c: char) -> Option<u8> {
    if c == '\n' {
        Some(110)
    } else if c == '\r' {
        Some(114)
    } else if c == '\t' {
        Some(116)
    } else if c == '\x08' {
        Some(98)
    } else if c == '\x0c' {
        Some(102)
    } else if c == '"' {
        Some(QUOTE)
    } else if c == '\\' {
        Some(BACKSLASH)
    } else if c == '/' {
        Some(SLASH)
    } else {
        None
    }
}

/// Decoding inverts escaping: a quoted body written as the one-letter escape of
/// each character of `t`, in turn, and closed by a quote, decodes to `t`.
pub proof fn law_escape_round_trip(s: Seq<u8>, p: int, t: Seq<char>)
    requires
        0 <= p,
        p + 2 * t.len() < s.len(),
        forall|k: int| 0 <= k < t.len() ==> #[trigger] escape_code(t[k]) is Some,
        forall|k: int|
            0 <= k < t.len() ==> s[p + 2 * k] == BACKSLASH && s[p + 2 * k + 1] == #[trigger] escape_code(
                t[k],
            )->Some_0,
        s[p + 2 * t.len()] == QUOTE,
    ensures
        quoted_body(s, p) == Some((p + 2 * t.len(), t)),
    decreases t.len(),
{
    if t.len() > 0 {
        let u = t.drop_first();
        assert forall|k: int| 0 <= k < u.len() implies #[trigger] escape_code(u[k]) is Some by {
            assert(u[k] == t[k + 1]);
        }
        assert forall|k: int| 0 <= k < u.len() implies s[p + 2 + 2 * k] == BACKSLASH && s[p + 2 + 2
            * k + 1] == #[trigger] escape_code(u[k])->Some_0 by {
            assert(u[k] == t[k + 1]);
            assert(p + 2 * (k + 1) == p + 2 + 2 * k);
        }
        law_escape_round_trip(s, p + 2, u);
        assert(escape_code(t[0]) is Some);
        assert(s[p] == BACKSLASH);
        assert(escape(s, p + 1) == Some((p + 2, t[0])));
        assert(seq![t[0]] + u =~= t);
    }
}

proof fn lemma_inline_wf(s: Seq<u8>, p: int, top: bool)
    ensures
        inline_value(s, p, top) matches Some((_, t)) ==> tree_wf(t),
{
    if let Some((_, Tree::List(xs))) = flow(s, p) {
        assert forall|i: int| 0 <= i < xs.len() implies #[trigger] tree_wf(xs[i]) by {
            let ts = crate::grammar::flow_elems(s, skip_space(s, p + 1)).0;
            assert(xs == strs(ts));
            assert(xs[i] == Tree::Str(ts[i]));
        }
        lemma_list_wf(xs);
    }
    if let Some((_, t)) = inline_value(s, p, top) {
        assert(tree_wf(t));
    }
}

proof fn lemma_expression_wf(s: Seq<u8>, p: int, ind: nat)
    ensures
        expression(s, p, ind) matches Some((_, t)) ==> tree_wf(t),
    decreases s.len() - p, 5int,
{
    if 0 <= p <= s.len() {
        if let Some(q) = line_ending(s, p) {
            lemma_items_wf(s, q, (ind + INDENT_STEP) as nat);
            lemma_props_wf(s, q, (ind + INDENT_STEP) as nat);
        }
        lemma_inline_wf(s, p, false);
    }
}

proof fn lemma_item_wf(s: Seq<u8>, p: int, ind: nat)
    ensures
        item(s, p, ind) matches Some((_, t)) ==> tree_wf(t),
    decreases s.len() - p, 1int,
{
    if indented(s, p, ind) && byte_at(s, p + ind, crate::bytes::DASH) {
        let q = skip_space(s, p + ind + 1);
        if p + ind + 1 < q <= s.len() {
            lemma_expression_wf(s, q, ind);
        }
    }
}

proof fn lemma_items_from_wf(s: Seq<u8>, p: int, ind: nat)
    ensures
        forall|i: int|
            0 <= i < items_from(s, p, ind).0.len() ==> #[trigger] tree_wf(items_from(s, p, ind).0[i]),
    decreases s.len() - p, 2int,
{
    if let Some((q, v)) = item(s, p, ind) {
        if p < q <= s.len() {
            lemma_item_wf(s, p, ind);
            lemma_items_from_wf(s, q, ind);
            let r = items_from(s, q, ind);
            assert forall|i: int| 0 <= i < items_from(s, p, ind).0.len() implies #[trigger] tree_wf(
                items_from(s, p, ind).0[i],
            ) by {
                if i > 0 {
                    assert(items_from(s, p, ind).0[i] == r.0[i - 1]);
                }
            }
        }
    }
}

proof fn lemma_items_wf(s: Seq<u8>, p: int, ind: nat)
    ensures
        items(s, p, ind) matches Some((_, t)) ==> tree_wf(t),
    decreases s.len() - p, 3int,
{
    lemma_items_from_wf(s, p, ind);
    if let Some((_, t)) = items(s, p, ind) {
        let xs = items_from(s, p, ind).0;
        assert(t == Tree::List(xs));
        lemma_list_wf(xs);
    }
}

proof fn lemma_prop_wf(s: Seq<u8>, p: int, ind: nat)
    ensures
        prop(s, p, ind) matches Some((_, (_, t))) ==> tree_wf(t),
    decreases s.len() - p, 1int,
{
    if indented(s, p, ind) {
        if let Some((k, _)) = crate::grammar::scalar(s, p + ind) {
            let a = skip_space(s, k);
            let b = skip_space(s, a + 1);
            if byte_at(s, a, COLON) && p < b <= s.len() {
                lemma_expression_wf(s, b, ind);
            }
        }
    }
}

proof fn lemma_prop_line_wf(s: Seq<u8>, p: int, ind: nat)
    ensures
        prop_line(s, p, ind) matches Some((_, es)) ==> values_wf(es),
    decreases s.len() - p, 2int,
{
    lemma_prop_wf(s, p, ind);
}

proof fn lemma_props_from_wf(s: Seq<u8>, p: int, ind: nat)
    ensures
        values_wf(props_from(s, p, ind).0),
    decreases s.len() - p, 3int,
{
    if let Some((q, es)) = prop_line(s, p, ind) {
        if p < q <= s.len() {
            lemma_prop_line_wf(s, p, ind);
            lemma_props_from_wf(s, q, ind);
            let r = props_from(s, q, ind);
            let all = props_from(s, p, ind).0;
            assert(all == es + r.0);
            assert forall|i: int| 0 <= i < all.len() implies #[trigger] tree_wf(all[i].1) by {
                if i >= es.len() {
                    assert(all[i] == r.0[i - es.len()]);
                } else {
                    assert(all[i] == es[i]);
                }
            }
        }
    }
}

proof fn lemma_props_wf(s: Seq<u8>, p: int, ind: nat)
    ensures
        props(s, p, ind) matches Some((_, t)) ==> tree_wf(t),
    decreases s.len() - p, 4int,
{
    lemma_props_from_wf(s, p, ind);
    lemma_merged_values_wf(props_from(s, p, ind).0);
}

/// Every dictionary in a parsed document, at any depth, has distinct keys.
pub proof fn law_document_well_formed(s: Seq<u8>)
    ensures
        document(s) matches Some((_, t)) ==> tree_wf(t),
{
    lemma_items_wf(s, 0, 0);
    lemma_props_wf(s, 0, 0);
    lemma_inline_wf(s, 0, true);
}

/// The bytes that stand for an ASCII character inside a double-quoted scalar:
/// a quote or a backslash is escaped, any other character is written as itself.
pub open spec fn escaped_char(c: char) -> Seq<u8> {
    if c == '"' {
        seq![BACKSLASH, QUOTE]
    } else if c == '\\' {
        seq![BACKSLASH, BACKSLASH]
    } else {
        seq![c as u8]
    }
}

/// A text written for a double-quoted scalar, character by character.
pub open spec fn escaped_text(t: Seq<char>) -> Seq<u8>
    decreases t.len(),
{
    if t.len() == 0 {
        seq![]
    } else {
        escaped_char(t[0]) + escaped_text(t.drop_first())
    }
}

/// ASCII text without the delete character.
pub open spec fn plain_ascii(t: Seq<char>) -> bool {
    forall|i: int| 0 <= i < t.len() ==> #[trigger] t[i] < '\u{7f}'
}

/// The number of leading characters that are written as themselves.
pub open spec fn literal_len(t: Seq<char>) -> int
    decreases t.len(),
{
    if t.len() == 0 || t[0] == '"' || t[0] == '\\' {
        0
    } else {
        1 + literal_len(t.drop_first())
    }
}

proof fn lemma_literal_len(t: Seq<char>)
    ensures
        0 <= literal_len(t) <= t.len(),
        literal_len(t) < t.len() ==> (t[literal_len(t)] == '"' || t[literal_len(t)] == '\\'),
        forall|i: int| 0 <= i < literal_len(t) ==> #[trigger] t[i] != '"' && t[i] != '\\',
    decreases t.len(),
{
    if t.len() > 0 && t[0] != '"' && t[0] != '\\' {
        let r = t.drop_first();
        lemma_literal_len(r);
        assert forall|i: int| 0 <= i < literal_len(t) implies #[trigger] t[i] != '"' && t[i] != '\\' by {
            if i > 0 {
                assert(t[i] == r[i - 1]);
            }
        }
    }
}

proof fn lemma_escaped_concat(a: Seq<char>, b: Seq<char>)
    ensures
        escaped_text(a + b) == escaped_text(a) + escaped_text(b),
    decreases a.len(),
{
    if a.len() == 0 {
        assert(a + b =~= b);
        assert(Seq::<u8>::empty() + escaped_text(b) =~= escaped_text(b));
    } else {
        lemma_escaped_concat(a.drop_first(), b);
        assert((a + b).drop_first() =~= a.drop_first() + b);
        assert(escaped_char(a[0]) + (escaped_text(a.drop_first()) + escaped_text(b)) =~= (
        escaped_char(a[0]) + escaped_text(a.drop_first())) + escaped_text(b));
    }
}

proof fn lemma_ascii_byte(c: char)
    requires
        c < '\u{7f}',
    ensures
        '\0' <= c <= '\u{7f}',
        (c as u8) as u32 == c as u32,
        c != '"' && c != '\\' ==> !is_quoted_stop(c as u8),
{
    vstd::utf8::char_is_scalar(c);
    assert((c as u32) < 0x7f);
}

proof fn lemma_escaped_literal(u: Seq<char>)
    requires
        plain_ascii(u),
        forall|i: int| 0 <= i < u.len() ==> #[trigger] u[i] != '"' && u[i] != '\\',
    ensures
        escaped_text(u) == encode_utf8(u),
        escaped_text(u).len() == u.len(),
        forall|i: int| 0 <= i < u.len() ==> !is_quoted_stop(#[trigger] escaped_text(u)[i]),
    decreases u.len(),
{
    let e = escaped_text(u);
    assert forall|i: int| 0 <= i < u.len() implies '\0' <= #[trigger] u[i] <= '\u{7f}' by {
        lemma_ascii_byte(u[i]);
    }
    assert(is_ascii_chars(u));
    is_ascii_chars_encode_utf8(u);
    if u.len() > 0 {
        let r = u.drop_first();
        assert forall|i: int| 0 <= i < r.len() implies #[trigger] r[i] != '"' && r[i] != '\\' by {
            assert(r[i] == u[i + 1]);
        }
        assert forall|i: int| 0 <= i < r.len() implies #[trigger] r[i] < '\u{7f}' by {
            assert(r[i] == u[i + 1]);
        }
        lemma_escaped_literal(r);
        assert(u[0] != '"' && u[0] != '\\');
        assert(escaped_char(u[0]) == seq![u[0] as u8]);
        assert(e.len() == u.len());
        assert forall|i: int| 0 <= i < u.len() implies e[i] == encode_utf8(u)[i] by {
            if i > 0 {
                assert(e[i] == escaped_text(r)[i - 1]);
                assert(escaped_text(r)[i - 1] == encode_utf8(r)[i - 1]);
                is_ascii_chars_encode_utf8(r);
                assert(r[i - 1] == u[i]);
            }
        }
        assert(e =~= encode_utf8(u));
        assert forall|i: int| 0 <= i < u.len() implies !is_quoted_stop(#[trigger] e[i]) by {
            lemma_ascii_byte(u[i]);
        }
    } else {
        assert(e =~= encode_utf8(u));
    }
}

proof fn lemma_scan_exact(s: Seq<u8>, p: int, k: int, class: Stop)
    requires
        0 <= p,
        0 <= k,
        p + k < s.len(),
        forall|i: int| p <= i < p + k ==> !crate::bytes::stops(class, #[trigger] s[i]),
        crate::bytes::stops(class, s[p + k]),
    ensures
        crate::bytes::scan(s, p, class) == p + k,
    decreases k,
{
    if k > 0 {
        lemma_scan_exact(s, p + 1, k - 1, class);
    }
}

/// Decoding inverts escaping, for ASCII text without the delete character:
/// the text written with each quote and backslash escaped, and closed by a
/// quote, decodes back to the text.
pub proof fn law_quoted_round_trip(s: Seq<u8>, p: int, t: Seq<char>)
    requires
        plain_ascii(t),
        0 <= p,
        p + escaped_text(t).len() < s.len(),
        forall|i: int| 0 <= i < escaped_text(t).len() ==> s[p + i] == #[trigger] escaped_text(t)[i],
        s[p + escaped_text(t).len()] == QUOTE,
    ensures
        quoted_body(s, p) == Some((p + escaped_text(t).len(), t)),
    decreases t.len(),
{
    let n = escaped_text(t).len();
    if t.len() == 0 {
        assert(s[p] == QUOTE);
    } else if t[0] == '"' || t[0] == '\\' {
        let w = t.drop_first();
        assert forall|i: int| 0 <= i < w.len() implies #[trigger] w[i] < '\u{7f}' by {
            assert(w[i] == t[i + 1]);
        }
        assert forall|i: int| 0 <= i < escaped_text(w).len() implies s[p + 2 + i]
            == #[trigger] escaped_text(w)[i] by {
            assert(escaped_text(t)[i + 2] == escaped_text(w)[i]);
        }
        assert(escaped_text(t)[0] == BACKSLASH);
        assert(s[p] == BACKSLASH);
        assert(s[p + 1] == escaped_text(t)[1]);
        law_quoted_round_trip(s, p + 2, w);
        assert(escape(s, p + 1) == Some((p + 2, t[0])));
        assert(seq![t[0]] + w =~= t);
    } else {
        let k = literal_len(t);
        lemma_literal_len(t);
        let w = t.subrange(k, t.len() as int);
        lemma_literal_run(s, p, t);
        assert forall|i: int| 0 <= i < w.len() implies #[trigger] w[i] < '\u{7f}' by {
            assert(w[i] == t[i + k]);
        }
        let u = t.subrange(0, k);
        assert(u + w =~= t);
        lemma_escaped_concat(u, w);
        let ew = escaped_text(w);
        let eu = escaped_text(u);
        assert(escaped_text(t) == eu + ew);
        assert forall|i: int| 0 <= i < ew.len() implies s[p + k + i] == #[trigger] ew[i] by {
            assert(escaped_text(t)[k + i] == (eu + ew)[k + i]);
        }
        law_quoted_round_trip(s, p + k, w);
    }
}

/// The literal run at the start of an escaped text is scanned whole and decodes
/// to the characters it was written from.
proof fn lemma_literal_run(s: Seq<u8>, p: int, t: Seq<char>)
    requires
        plain_ascii(t),
        t.len() > 0,
        t[0] != '"' && t[0] != '\\',
        0 <= p,
        p + escaped_text(t).len() < s.len(),
        forall|i: int| 0 <= i < escaped_text(t).len() ==> s[p + i] == #[trigger] escaped_text(t)[i],
        s[p + escaped_text(t).len()] == QUOTE,
    ensures
        crate::bytes::scan(s, p, Stop::QuotedRun) == p + literal_len(t),
        text_of(s, p, p + literal_len(t)) == Some(t.subrange(0, literal_len(t))),
        1 <= literal_len(t) <= t.len(),
        escaped_text(t) == escaped_text(t.subrange(0, literal_len(t))) + escaped_text(
            t.subrange(literal_len(t), t.len() as int),
        ),
        escaped_text(t.subrange(0, literal_len(t))).len() == literal_len(t),
{
    let k = literal_len(t);
    lemma_literal_len(t);
    let u = t.subrange(0, k);
    let w = t.subrange(k, t.len() as int);
    assert(u + w =~= t);
    lemma_escaped_concat(u, w);
    assert forall|i: int| 0 <= i < u.len() implies #[trigger] u[i] < '\u{7f}' by {
        assert(u[i] == t[i]);
    }
    assert forall|i: int| 0 <= i < u.len() implies #[trigger] u[i] != '"' && u[i] != '\\' by {
        assert(u[i] == t[i]);
    }
    lemma_escaped_literal(u);
    let eu = escaped_text(u);
    let ew = escaped_text(w);
    assert(escaped_text(t) == eu + ew);
    assert forall|i: int| p <= i < p + k implies !crate::bytes::stops(
        Stop::QuotedRun,
        #[trigger] s[i],
    ) by {
        assert(s[i] == escaped_text(t)[i - p]);
        assert(escaped_text(t)[i - p] == eu[i - p]);
    }
    if k < t.len() {
        assert(w[0] == t[k]);
        assert(escaped_char(w[0])[0] == BACKSLASH);
        assert(ew[0] == BACKSLASH);
        assert(s[p + k] == escaped_text(t)[k]);
    } else {
        assert(w.len() == 0);
    }
    lemma_scan_exact(s, p, k, Stop::QuotedRun);
    assert(s.subrange(p, p + k) =~= eu) by {
        assert forall|i: int| 0 <= i < k implies s.subrange(p, p + k)[i] == eu[i] by {
            assert(s[p + i] == escaped_text(t)[i]);
        }
    }
    encode_utf8_valid_utf8(u);
    encode_utf8_decode_utf8(u);
}

} // verus!
