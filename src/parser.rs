//! The executable parser. Each rule mirrors the rule of the same name in
//! `grammar` and is proved to agree with it.
use vstd::prelude::*;
use vstd::utf8::char_u32_cast;
use crate::bytes::{
    scan_from, Stop, BACKSLASH, COLON, COMMA, CR, DASH, DEL, HASH, LBRACKET, LF, QUOTE, RBRACKET,
    SLASH, SPACE,
};
use crate::grammar;
use crate::model::{keys_unique, merged, Tree};
use crate::text::{char_of, decode_span, push_char};
use vstd::string::StringExecFns;
use crate::value::{dict_view, list_view, store_entry, Value};

verus! {

pub open spec fn pos(r: Option<usize>) -> Option<int> {
    match r {
        Some(q) => Some(q as int),
        None => None,
    }
}

pub open spec fn text_res(r: Option<(usize, String)>) -> Option<(int, Seq<char>)> {
    match r {
        Some((q, t)) => Some((q as int, t@)),
        None => None,
    }
}

pub open spec fn tree_res(r: Option<(usize, Value)>) -> Option<(int, Tree)> {
    match r {
        Some((q, v)) => Some((q as int, v@)),
        None => None,
    }
}

pub open spec fn prefixed(pre: Seq<char>, r: Option<(int, Seq<char>)>) -> Option<(int, Seq<char>)> {
    match r {
        Some((e, t)) => Some((e, pre + t)),
        None => None,
    }
}

proof fn lemma_prefixed(a: Seq<char>, b: Seq<char>, r: Option<(int, Seq<char>)>)
    ensures
        prefixed(a, prefixed(b, r)) == prefixed(a + b, r),
{
    if let Some((e, t)) = r {
        assert(a + (b + t) =~= (a + b) + t);
    }
}

fn skip_space(s: &[u8], p: usize) -> (r: usize)
    requires
        s@.len() < usize::MAX,
        p <= s@.len(),
    ensures
        r as int == grammar::skip_space(s@, p as int),
        p <= r <= s@.len(),
{
    scan_from(s, p, Stop::NonSpace)
}

fn byte_at(s: &[u8], p: usize, b: u8) -> (r: bool)
    requires
        s@.len() < usize::MAX,
    ensures
        r == grammar::byte_at(s@, p as int, b),
{
    p < s.len() && s[p] == b
}

fn line_ending(s: &[u8], p: usize) -> (r: Option<usize>)
    requires
        s@.len() < usize::MAX,
    ensures
        pos(r) == grammar::line_ending(s@, p as int),
        r matches Some(q) ==> p < q <= s@.len(),
{
    if byte_at(s, p, LF) {
        Some(p + 1)
    } else if byte_at(s, p, CR) && p + 1 < s.len() && s[p + 1] == LF {
        Some(p + 2)
    } else {
        None
    }
}

fn blank_lines(s: &[u8], p: usize) -> (r: usize)
    requires
        s@.len() < usize::MAX,
        p <= s@.len(),
    ensures
        r as int == grammar::blank_lines(s@, p as int),
        p <= r <= s@.len(),
{
    let mut q = p;
    loop
        invariant
            s@.len() < usize::MAX,
            p <= q <= s@.len(),
            grammar::blank_lines(s@, q as int) == grammar::blank_lines(s@, p as int),
        decreases s@.len() - q,
    {
        match line_ending(s, skip_space(s, q)) {
            Some(n) => {
                if q < n {
                    q = n;
                } else {
                    return q;
                }
            },
            None => {
                return q;
            },
        }
    }
}

fn eol_any(s: &[u8], p: usize) -> (r: Option<usize>)
    requires
        s@.len() < usize::MAX,
    ensures
        pos(r) == grammar::eol_any(s@, p as int),
        r matches Some(q) ==> p < q <= s@.len(),
{
    match line_ending(s, p) {
        Some(q) => Some(blank_lines(s, q)),
        None => None,
    }
}

fn comment(s: &[u8], p: usize) -> (r: Option<usize>)
    requires
        s@.len() < usize::MAX,
        p <= s@.len(),
    ensures
        pos(r) == grammar::comment(s@, p as int),
        r matches Some(q) ==> p < q <= s@.len(),
{
    let a = skip_space(s, p);
    let b = if byte_at(s, a, HASH) {
        scan_from(s, a + 1, Stop::LineBreak)
    } else {
        a
    };
    eol_any(s, b)
}

fn indented(s: &[u8], p: usize, n: usize) -> (r: bool)
    requires
        s@.len() < usize::MAX,
        p <= s@.len(),
    ensures
        r == grammar::indented(s@, p as int, n as nat),
{
    if n > s.len() - p {
        return false;
    }
    let mut i: usize = 0;
    while i < n
        invariant
            i <= n,
            p + n <= s@.len(),
            s@.len() < usize::MAX,
            forall|j: int| p <= j < p + i ==> s@[j] == SPACE,
        decreases n - i,
    {
        if s[p + i] != SPACE {
            return false;
        }
        i = i + 1;
    }
    true
}

fn plain_rest(s: &[u8], q: usize) -> (r: usize)
    requires
        s@.len() < usize::MAX,
        q <= s@.len(),
    ensures
        r as int == grammar::plain_rest(s@, q as int),
        q <= r <= s@.len(),
{
    let mut c = q;
    loop
        invariant
            s@.len() < usize::MAX,
            q <= c <= s@.len(),
            grammar::plain_rest(s@, c as int) == grammar::plain_rest(s@, q as int),
        decreases s@.len() - c,
    {
        let r = skip_space(s, c);
        let e = scan_from(s, r, Stop::PlainRest);
        if r < e && c < e {
            c = e;
        } else {
            return c;
        }
    }
}

fn plain(s: &[u8], p: usize) -> (r: Option<(usize, String)>)
    requires
        s@.len() < usize::MAX,
        p <= s@.len(),
    ensures
        text_res(r) == grammar::plain(s@, p as int),
        r matches Some((q, _)) ==> p < q <= s@.len(),
{
    let q = scan_from(s, p, Stop::PlainLead);
    if p < q {
        let e = plain_rest(s, q);
        match decode_span(s, p, e) {
            Some(t) => Some((e, t)),
            None => None,
        }
    } else {
        None
    }
}

fn hex_digit(b: u8) -> (r: Option<u32>)
    ensures
        r == grammar::hex_digit(b),
{
    if 48 <= b && b <= 57 {
        Some((b - 48) as u32)
    } else if 97 <= b && b <= 102 {
        Some((b - 87) as u32)
    } else if 65 <= b && b <= 70 {
        Some((b - 55) as u32)
    } else {
        None
    }
}

fn hex4(s: &[u8], p: usize) -> (r: Option<u32>)
    requires
        s@.len() < usize::MAX,
        p <= s@.len(),
    ensures
        r == grammar::hex4(s@, p as int),
{
    if s.len() - p < 4 {
        return None;
    }
    match (hex_digit(s[p]), hex_digit(s[p + 1]), hex_digit(s[p + 2]), hex_digit(s[p + 3])) {
        (Some(a), Some(b), Some(c), Some(d)) => Some(a * 4096 + b * 256 + c * 16 + d),
        _ => None,
    }
}

fn escape(s: &[u8], p: usize) -> (r: Option<(usize, char)>)
    requires
        s@.len() < usize::MAX,
        p <= s@.len(),
    ensures
        match r {
            Some((q, c)) => grammar::escape(s@, p as int) == Some((q as int, c)),
            None => grammar::escape(s@, p as int) is None,
        },
        r matches Some((q, _)) ==> p < q <= s@.len(),
{
    if p >= s.len() {
        return None;
    }
    let b = s[p];
    if b == QUOTE {
        Some((p + 1, '"'))
    } else if b == BACKSLASH {
        Some((p + 1, '\\'))
    } else if b == SLASH {
        Some((p + 1, '/'))
    } else if b == 110 {
        Some((p + 1, '\n'))
    } else if b == 114 {
        Some((p + 1, '\r'))
    } else if b == 116 {
        Some((p + 1, '\t'))
    } else if b == 98 {
        Some((p + 1, '\x08'))
    } else if b == 102 {
        Some((p + 1, '\x0c'))
    } else if b == 117 {
        match hex4(s, p + 1) {
            Some(code) => match char_of(code) {
                Some(c) => {
                    proof {
                        char_u32_cast(c, code);
                    }
                    Some((p + 5, c))
                },
                None => None,
            },
            None => None,
        }
    } else {
        None
    }
}

fn quoted_body(s: &[u8], p: usize) -> (r: Option<(usize, String)>)
    requires
        s@.len() < usize::MAX,
        p <= s@.len(),
    ensures
        text_res(r) == grammar::quoted_body(s@, p as int),
        r matches Some((q, _)) ==> p <= q < s@.len(),
{
    let mut text = String::new();
    let mut i = p;
    loop
        invariant
            s@.len() < usize::MAX,
            p <= i <= s@.len(),
            grammar::quoted_body(s@, p as int) == prefixed(text@, grammar::quoted_body(s@, i as int)),
        decreases s@.len() - i,
    {
        if i >= s.len() {
            return None;
        }
        let b = s[i];
        if b == QUOTE {
            assert(text@ + seq![] =~= text@);
            return Some((i, text));
        } else if b == BACKSLASH {
            match escape(s, i + 1) {
                Some((q, c)) => {
                    proof {
                        lemma_prefixed(text@, seq![c], grammar::quoted_body(s@, q as int));
                        assert(text@ + seq![c] =~= text@.push(c));
                    }
                    push_char(&mut text, c);
                    i = q;
                },
                None => {
                    return None;
                },
            }
        } else if b == DEL {
            return None;
        } else {
            let q = scan_from(s, i, Stop::QuotedRun);
            if i < q {
                match decode_span(s, i, q) {
                    Some(run) => {
                        proof {
                            lemma_prefixed(text@, run@, grammar::quoted_body(s@, q as int));
                        }
                        text.append(run.as_str());
                        i = q;
                    },
                    None => {
                        return None;
                    },
                }
            } else {
                return None;
            }
        }
    }
}

fn double_quoted(s: &[u8], p: usize) -> (r: Option<(usize, String)>)
    requires
        s@.len() < usize::MAX,
        p <= s@.len(),
    ensures
        text_res(r) == grammar::double_quoted(s@, p as int),
        r matches Some((q, _)) ==> p < q <= s@.len(),
{
    if byte_at(s, p, QUOTE) {
        match quoted_body(s, p + 1) {
            Some((e, t)) => Some((e + 1, t)),
            None => None,
        }
    } else {
        None
    }
}

fn scalar(s: &[u8], p: usize) -> (r: Option<(usize, String)>)
    requires
        s@.len() < usize::MAX,
        p <= s@.len(),
    ensures
        text_res(r) == grammar::scalar(s@, p as int),
        r matches Some((q, _)) ==> p < q <= s@.len(),
{
    match double_quoted(s, p) {
        Some(r) => Some(r),
        None => plain(s, p),
    }
}

fn array_of(vals: Vec<Value>) -> (v: Value)
    ensures
        v@ == Tree::List(list_view(vals@)),
{
    let ghost lv = list_view(vals@);
    let v = Value::Array(vals);
    assert(v@ == Tree::List(lv)) by {
        if let Tree::List(xs) = v@ {
            assert(xs =~= lv);
        }
    }
    v
}

fn list_result(vals: Vec<Value>, end: usize) -> (r: Option<(usize, Value)>)
    ensures
        tree_res(r) == (if vals@.len() > 0 {
            Some((end as int, Tree::List(list_view(vals@))))
        } else {
            None
        }),
{
    if vals.len() > 0 {
        Some((end, array_of(vals)))
    } else {
        None
    }
}

fn flow(s: &[u8], p: usize) -> (r: Option<(usize, Value)>)
    requires
        s@.len() < usize::MAX,
        p <= s@.len(),
    ensures
        tree_res(r) == grammar::flow(s@, p as int),
        r matches Some((q, _)) ==> p < q <= s@.len(),
{
    if !byte_at(s, p, LBRACKET) {
        return None;
    }
    let b = skip_space(s, p + 1);
    let mut vals: Vec<Value> = Vec::new();
    let ghost acc: Seq<Seq<char>> = seq![];
    let mut i = b;
    match scalar(s, b) {
        Some((q, t)) => {
            proof {
                acc = seq![t@];
            }
            vals.push(Value::String(t));
            assert(list_view(vals@) =~= grammar::strs(acc));
            i = q;
            loop
                invariant
                    s@.len() < usize::MAX,
                    b < i <= s@.len(),
                    list_view(vals@) == grammar::strs(acc),
                    grammar::flow_elems(s@, b as int) == (acc + grammar::flow_more(s@, i as int).0,
                        grammar::flow_more(s@, i as int).1),
                ensures
                    b < i <= s@.len(),
                    list_view(vals@) == grammar::strs(acc),
                    grammar::flow_elems(s@, b as int) == (acc, i as int),
                decreases s@.len() - i,
            {
                let a = skip_space(s, i);
                if !byte_at(s, a, COMMA) {
                    break;
                }
                match scalar(s, skip_space(s, a + 1)) {
                    Some((c, t)) => {
                        if i < c {
                            let ghost old_acc = acc;
                            let ghost before = vals@;
                            let ghost tv = t@;
                            vals.push(Value::String(t));
                            proof {
                                let rest = grammar::flow_more(s@, c as int);
                                assert(old_acc + (seq![tv] + rest.0) =~= old_acc.push(tv) + rest.0);
                                acc = old_acc.push(tv);
                                assert(list_view(before).len() == grammar::strs(old_acc).len());
                                assert forall|j: int| 0 <= j < vals@.len() implies list_view(vals@)[j]
                                    == grammar::strs(acc)[j] by {
                                    if j < before.len() {
                                        assert(list_view(before)[j] == grammar::strs(old_acc)[j]);
                                    }
                                }
                                assert(list_view(vals@) =~= grammar::strs(acc));
                            }
                            i = c;
                        } else {
                            break;
                        }
                    },
                    None => {
                        break;
                    },
                }
            }
        },
        None => {
            assert(list_view(vals@) =~= grammar::strs(acc));
        },
    }
    let f = skip_space(s, i);
    if byte_at(s, f, RBRACKET) {
        Some((f + 1, array_of(vals)))
    } else {
        None
    }
}

fn value_end(s: &[u8], q: usize, top: bool) -> (r: Option<usize>)
    requires
        s@.len() < usize::MAX,
        q <= s@.len(),
    ensures
        pos(r) == grammar::value_end(s@, q as int, top),
        r matches Some(e) ==> q <= e <= s@.len(),
{
    if top && q == s.len() {
        Some(q)
    } else {
        eol_any(s, q)
    }
}

fn inline_value(s: &[u8], p: usize, top: bool) -> (r: Option<(usize, Value)>)
    requires
        s@.len() < usize::MAX,
        p <= s@.len(),
    ensures
        tree_res(r) == grammar::inline_value(s@, p as int, top),
        r matches Some((q, _)) ==> p < q <= s@.len(),
{
    if let Some((q, v)) = flow(s, p) {
        if let Some(e) = value_end(s, q, top) {
            return Some((e, v));
        }
    }
    match scalar(s, p) {
        Some((q, t)) => match value_end(s, q, top) {
            Some(e) => Some((e, Value::String(t))),
            None => None,
        },
        None => None,
    }
}

fn expression(s: &[u8], p: usize, ind: usize) -> (r: Option<(usize, Value)>)
    requires
        s@.len() < usize::MAX,
        p <= s@.len(),
        ind < s@.len(),
    ensures
        tree_res(r) == grammar::expression(s@, p as int, ind as nat),
        r matches Some((q, _)) ==> p < q <= s@.len(),
    decreases s@.len() - p, 5int,
{
    if let Some(q) = line_ending(s, p) {
        if ind < grammar::MAX_NESTING * grammar::INDENT_STEP {
            if let Some(r) = items(s, q, ind + grammar::INDENT_STEP) {
                return Some(r);
            }
            if let Some(r) = props(s, q, ind + grammar::INDENT_STEP) {
                return Some(r);
            }
        }
    }
    inline_value(s, p, false)
}

fn item(s: &[u8], p: usize, ind: usize) -> (r: Option<(usize, Value)>)
    requires
        s@.len() < usize::MAX,
        p <= s@.len(),
    ensures
        tree_res(r) == grammar::item(s@, p as int, ind as nat),
        r matches Some((q, _)) ==> p < q <= s@.len(),
    decreases s@.len() - p, 1int,
{
    if indented(s, p, ind) && byte_at(s, p + ind, DASH) {
        let q = skip_space(s, p + ind + 1);
        if p + ind + 1 < q {
            expression(s, q, ind)
        } else {
            None
        }
    } else {
        None
    }
}

fn items(s: &[u8], p: usize, ind: usize) -> (r: Option<(usize, Value)>)
    requires
        s@.len() < usize::MAX,
        p <= s@.len(),
    ensures
        tree_res(r) == grammar::items(s@, p as int, ind as nat),
        r matches Some((q, _)) ==> p < q <= s@.len(),
    decreases s@.len() - p, 3int,
{
    let mut vals: Vec<Value> = Vec::new();
    let mut i = p;
    loop
        invariant
            s@.len() < usize::MAX,
            p <= i <= s@.len(),
            vals@.len() == 0 ==> i == p,
            grammar::items_from(s@, p as int, ind as nat) == (list_view(vals@) + grammar::items_from(
                s@,
                i as int,
                ind as nat,
            ).0, grammar::items_from(s@, i as int, ind as nat).1),
        ensures
            p <= i <= s@.len(),
            vals@.len() == 0 ==> i == p,
            grammar::items_from(s@, p as int, ind as nat) == (list_view(vals@), i as int),
        decreases s@.len() - i,
    {
        match item(s, i, ind) {
            Some((q, v)) => {
                let ghost before = vals@;
                let ghost rest = grammar::items_from(s@, q as int, ind as nat);
                vals.push(v);
                assert(list_view(vals@) =~= list_view(before).push(vals@.last()@));
                assert(list_view(before) + (seq![vals@.last()@] + rest.0) =~= list_view(vals@)
                    + rest.0);
                i = q;
            },
            None => {
                assert(list_view(vals@) + seq![] =~= list_view(vals@));
                break;
            },
        }
    }
    list_result(vals, i)
}

pub open spec fn entry_res(r: Option<(usize, (String, Value))>) -> Option<(int, (Seq<char>, Tree))> {
    match r {
        Some((q, (k, v))) => Some((q as int, (k@, v@))),
        None => None,
    }
}

pub open spec fn line_res(r: Option<(usize, Option<(String, Value)>)>) -> Option<
    (int, Seq<(Seq<char>, Tree)>),
> {
    match r {
        Some((q, Some((k, v)))) => Some((q as int, seq![(k@, v@)])),
        Some((q, None)) => Some((q as int, seq![])),
        None => None,
    }
}

fn object_of(d: Vec<(String, Value)>) -> (v: Value)
    ensures
        v@ == Tree::Dict(dict_view(d@)),
{
    let ghost dv = dict_view(d@);
    let ghost dd = d@;
    let v = Value::Object(d);
    assert(v@ == Tree::Dict(dv)) by {
        if let Tree::Dict(xs) = v@ {
            assert forall|j: int| 0 <= j < xs.len() implies xs[j] == dv[j] by {
                assert(xs[j] == (dd[j].0@, dd[j].1@));
            }
            assert(xs =~= dv);
        }
    }
    v
}

fn prop(s: &[u8], p: usize, ind: usize) -> (r: Option<(usize, (String, Value))>)
    requires
        s@.len() < usize::MAX,
        p <= s@.len(),
    ensures
        entry_res(r) == grammar::prop(s@, p as int, ind as nat),
        r matches Some((q, _)) ==> p < q <= s@.len(),
    decreases s@.len() - p, 1int,
{
    if !indented(s, p, ind) {
        return None;
    }
    match scalar(s, p + ind) {
        Some((k, key)) => {
            let a = skip_space(s, k);
            if byte_at(s, a, COLON) {
                let b = skip_space(s, a + 1);
                if p < b {
                    match expression(s, b, ind) {
                        Some((e, v)) => Some((e, (key, v))),
                        None => None,
                    }
                } else {
                    None
                }
            } else {
                None
            }
        },
        None => None,
    }
}

fn prop_line(s: &[u8], p: usize, ind: usize) -> (r: Option<(usize, Option<(String, Value)>)>)
    requires
        s@.len() < usize::MAX,
        p <= s@.len(),
    ensures
        line_res(r) == grammar::prop_line(s@, p as int, ind as nat),
        r matches Some((q, _)) ==> p < q <= s@.len(),
    decreases s@.len() - p, 2int,
{
    if let Some(q) = comment(s, p) {
        return Some((q, None));
    }
    match prop(s, p, ind) {
        Some((q, kv)) => Some((q, Some(kv))),
        None => None,
    }
}

fn props(s: &[u8], p: usize, ind: usize) -> (r: Option<(usize, Value)>)
    requires
        s@.len() < usize::MAX,
        p <= s@.len(),
    ensures
        tree_res(r) == grammar::props(s@, p as int, ind as nat),
        r matches Some((q, _)) ==> p < q <= s@.len(),
    decreases s@.len() - p, 4int,
{
    let mut d: Vec<(String, Value)> = Vec::new();
    let ghost done: Seq<(Seq<char>, Tree)> = seq![];
    let mut i = p;
    assert(dict_view(d@) =~= merged(done));
    loop
        invariant
            s@.len() < usize::MAX,
            p <= i <= s@.len(),
            i > p ==> (grammar::prop_line(s@, p as int, ind as nat) matches Some((q, _)) && p < q
                <= s@.len()),
            dict_view(d@) == merged(done),
            keys_unique(dict_view(d@)),
            grammar::props_from(s@, p as int, ind as nat) == (done + grammar::props_from(
                s@,
                i as int,
                ind as nat,
            ).0, grammar::props_from(s@, i as int, ind as nat).1),
        ensures
            p <= i <= s@.len(),
            i > p ==> (grammar::prop_line(s@, p as int, ind as nat) matches Some((q, _)) && p < q
                <= s@.len()),
            i == p ==> !(grammar::prop_line(s@, p as int, ind as nat) matches Some((q, _)) && p < q
                <= s@.len()),
            dict_view(d@) == merged(done),
            grammar::props_from(s@, p as int, ind as nat) == (done, i as int),
        decreases s@.len() - i,
    {
        match prop_line(s, i, ind) {
            Some((q, entry)) => {
                let ghost rest = grammar::props_from(s@, q as int, ind as nat);
                match entry {
                    Some((k, v)) => {
                        let ghost kv = (k@, v@);
                        store_entry(&mut d, k, v);
                        proof {
                            assert(done + (seq![kv] + rest.0) =~= done.push(kv) + rest.0);
                            assert(done.push(kv).drop_last() =~= done);
                            done = done.push(kv);
                        }
                    },
                    None => {
                        assert(done + (seq![] + rest.0) =~= done + rest.0);
                    },
                }
                i = q;
            },
            None => {
                assert(done + seq![] =~= done);
                break;
            },
        }
    }
    if i > p {
        Some((i, object_of(d)))
    } else {
        None
    }
}

fn quoted_reach(s: &[u8], p: usize) -> (r: usize)
    requires
        s@.len() < usize::MAX,
        p <= s@.len(),
    ensures
        r as int == grammar::quoted_reach(s@, p as int),
        r <= s@.len(),
{
    let mut i = p;
    loop
        invariant
            s@.len() < usize::MAX,
            p <= i <= s@.len(),
            grammar::quoted_reach(s@, i as int) == grammar::quoted_reach(s@, p as int),
        decreases s@.len() - i,
    {
        if i >= s.len() || s[i] == QUOTE || s[i] == DEL {
            return i;
        }
        if s[i] == BACKSLASH {
            match escape(s, i + 1) {
                Some((q, _)) => {
                    i = q;
                },
                None => {
                    return i;
                },
            }
        } else {
            let q = scan_from(s, i, Stop::QuotedRun);
            if i < q && decode_span(s, i, q).is_some() {
                i = q;
            } else {
                return i;
            }
        }
    }
}

fn scalar_reach(s: &[u8], p: usize) -> (r: usize)
    requires
        s@.len() < usize::MAX,
        p <= s@.len(),
    ensures
        r as int == grammar::scalar_reach(s@, p as int),
        r <= s@.len(),
{
    if byte_at(s, p, QUOTE) {
        quoted_reach(s, p + 1)
    } else {
        p
    }
}

fn flow_elems_end(s: &[u8], b: usize) -> (r: usize)
    requires
        s@.len() < usize::MAX,
        b <= s@.len(),
    ensures
        r as int == grammar::flow_elems(s@, b as int).1,
        r <= s@.len(),
{
    match scalar(s, b) {
        None => b,
        Some((q, _)) => {
            let mut i = q;
            loop
                invariant
                    s@.len() < usize::MAX,
                    b < i <= s@.len(),
                    grammar::flow_elems(s@, b as int).1 == grammar::flow_more(s@, i as int).1,
                decreases s@.len() - i,
            {
                let a = skip_space(s, i);
                if !byte_at(s, a, COMMA) {
                    return i;
                }
                match scalar(s, skip_space(s, a + 1)) {
                    Some((c, _)) => {
                        if i < c {
                            i = c;
                        } else {
                            return i;
                        }
                    },
                    None => {
                        return i;
                    },
                }
            }
        },
    }
}

fn flow_line_reach(s: &[u8], p: usize) -> (r: usize)
    requires
        s@.len() < usize::MAX,
        p <= s@.len(),
    ensures
        r as int == grammar::flow_line_reach(s@, p as int),
        r <= s@.len(),
{
    if let Some((q, _)) = flow(s, p) {
        return q;
    }
    if byte_at(s, p, LBRACKET) {
        skip_space(s, flow_elems_end(s, skip_space(s, p + 1)))
    } else {
        p
    }
}

fn scalar_line_reach(s: &[u8], p: usize) -> (r: usize)
    requires
        s@.len() < usize::MAX,
        p <= s@.len(),
    ensures
        r as int == grammar::scalar_line_reach(s@, p as int),
        r <= s@.len(),
{
    match scalar(s, p) {
        Some((q, _)) => q,
        None => scalar_reach(s, p),
    }
}

fn max(a: usize, b: usize) -> (r: usize)
    ensures
        r as int == grammar::max(a as int, b as int),
{
    if a < b {
        b
    } else {
        a
    }
}

fn expression_reach(s: &[u8], p: usize, ind: usize) -> (r: usize)
    requires
        s@.len() < usize::MAX,
        p <= s@.len(),
        ind < s@.len(),
    ensures
        r as int == grammar::expression_reach(s@, p as int, ind as nat),
        r <= s@.len(),
    decreases s@.len() - p, 5int,
{
    let inline = max(flow_line_reach(s, p), scalar_line_reach(s, p));
    match line_ending(s, p) {
        Some(q) => {
            if ind < grammar::MAX_NESTING * grammar::INDENT_STEP {
                let nested = max(
                    item_reach(s, q, ind + grammar::INDENT_STEP),
                    prop_reach(s, q, ind + grammar::INDENT_STEP),
                );
                max(nested, inline)
            } else {
                inline
            }
        },
        None => inline,
    }
}

fn item_reach(s: &[u8], p: usize, ind: usize) -> (r: usize)
    requires
        s@.len() < usize::MAX,
        p <= s@.len(),
    ensures
        r as int == grammar::item_reach(s@, p as int, ind as nat),
        r <= s@.len(),
    decreases s@.len() - p, 1int,
{
    if !indented(s, p, ind) {
        return p;
    }
    if byte_at(s, p + ind, DASH) {
        let q = skip_space(s, p + ind + 1);
        if p + ind + 1 < q {
            expression_reach(s, q, ind)
        } else {
            p + ind + 1
        }
    } else {
        p + ind
    }
}

fn prop_reach(s: &[u8], p: usize, ind: usize) -> (r: usize)
    requires
        s@.len() < usize::MAX,
        p <= s@.len(),
    ensures
        r as int == grammar::prop_reach(s@, p as int, ind as nat),
        r <= s@.len(),
    decreases s@.len() - p, 1int,
{
    if !indented(s, p, ind) {
        return p;
    }
    match scalar(s, p + ind) {
        Some((k, _)) => {
            let a = skip_space(s, k);
            if !byte_at(s, a, COLON) {
                return a;
            }
            let b = skip_space(s, a + 1);
            if p < b {
                expression_reach(s, b, ind)
            } else {
                a + 1
            }
        },
        None => scalar_reach(s, p + ind),
    }
}

/// The shapes that a document may take, in the order in which they are tried.
#[derive(Clone, Copy, Debug, PartialEq, Eq, Structural)]
pub enum Shape {
    ItemList,
    PropertyMap,
    FlowSequence,
    Scalar,
}

/// One shape that was tried at the start of the document, and the offset at
/// which that attempt stopped: the furthest byte that it reached.
#[derive(Clone, Copy, Debug, PartialEq, Eq, Structural)]
pub struct Attempt {
    pub shape: Shape,
    pub offset: usize,
}

/// A document that matched none of the shapes. `tried` holds each shape, in
/// the order tried, with the offset where it stopped; `offset` is the furthest
/// of those.
#[derive(Debug, PartialEq, Eq)]
pub struct ParseError {
    pub offset: usize,
    pub tried: Vec<Attempt>,
}

/// Where each shape stopped when a document at the start of `s` fails.
pub open spec fn attempts(s: Seq<u8>) -> Seq<Attempt> {
    seq![
        Attempt { shape: Shape::ItemList, offset: grammar::item_reach(s, 0, 0) as usize },
        Attempt { shape: Shape::PropertyMap, offset: grammar::prop_reach(s, 0, 0) as usize },
        Attempt { shape: Shape::FlowSequence, offset: grammar::flow_line_reach(s, 0) as usize },
        Attempt { shape: Shape::Scalar, offset: grammar::scalar_line_reach(s, 0) as usize },
    ]
}

/// The furthest offset that any shape reached when a document at the start of `s` fails.
pub open spec fn furthest(s: Seq<u8>) -> int {
    grammar::max(
        grammar::max(grammar::item_reach(s, 0, 0), grammar::prop_reach(s, 0, 0)),
        grammar::max(grammar::flow_line_reach(s, 0), grammar::scalar_line_reach(s, 0)),
    )
}

/// Parses a document from the start of `input`: an item list, else a property
/// map, else a flow sequence or a scalar that ends its line or the input. What
/// follows the document, always less than the whole input, is handed back
/// unparsed. On failure the error says where each shape stopped.
pub fn parse(input: &[u8]) -> (r: Result<(&[u8], Value), ParseError>)
    requires
        input@.len() < usize::MAX,
    ensures
        match grammar::document(input@) {
            Some((e, t)) => r matches Ok((rest, v)) && rest@ == input@.subrange(e, input@.len() as int)
                && v@ == t && 0 < e,
            None => r matches Err(err) && err.offset as int == furthest(input@) && err.tried@
                == attempts(input@),
        },
        r matches Ok((rest, v)) ==> v.wf() && rest@.len() < input@.len(),
{
    proof {
        crate::laws::law_document_well_formed(input@);
    }
    let found = match items(input, 0, 0) {
        Some(r) => Some(r),
        None => match props(input, 0, 0) {
            Some(r) => Some(r),
            None => inline_value(input, 0, true),
        },
    };
    match found {
        Some((e, v)) => Ok((vstd::slice::slice_subrange(input, e, input.len()), v)),
        None => {
            let a_items = item_reach(input, 0, 0);
            let a_props = prop_reach(input, 0, 0);
            let a_flow = flow_line_reach(input, 0);
            let a_scalar = scalar_line_reach(input, 0);
            let tried = vec![
                Attempt { shape: Shape::ItemList, offset: a_items },
                Attempt { shape: Shape::PropertyMap, offset: a_props },
                Attempt { shape: Shape::FlowSequence, offset: a_flow },
                Attempt { shape: Shape::Scalar, offset: a_scalar },
            ];
            assert(tried@ =~= attempts(input@));
            let offset = max(max(a_items, a_props), max(a_flow, a_scalar));
            Err(ParseError { offset, tried })
        },
    }
}

} // verus!
