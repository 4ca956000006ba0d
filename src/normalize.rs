//! Canonical forms of literal structures: whitespace outside string literals
//! is removed, the elements of order-insensitive arrays are sorted, and the
//! keys of objects that parse as JSON are put in ascending order.
use vstd::prelude::*;
use vstd::relations::{sorted_by, total_ordering};
use vstd::seq_lib::lemma_sorted_unique;
use crate::text::{
    append_chars, chars_of, is_whitespace, is_ws, lemma_text_leq_total, slice_vec, sort_texts,
    sorted_texts, string_of, text_leq, text_order, texts, trim_back, trim_bounds, trim_front,
    trimmed,
};

verus! {

/// Scanner state after a prefix of a text: `(in_string, escape)`.
/// A backslash escapes the next character anywhere; an unescaped `"`
/// opens or closes a string literal.
pub open spec fn quote_step(st: (bool, bool), c: char) -> (bool, bool) {
    if st.1 {
        (st.0, false)
    } else if c == '\\' {
        (st.0, true)
    } else if c == '"' {
        (!st.0, false)
    } else {
        st
    }
}

pub open spec fn quote_state(s: Seq<char>) -> (bool, bool)
    decreases s.len(),
{
    if s.len() == 0 {
        (false, false)
    } else {
        quote_step(quote_state(s.drop_last()), s.last())
    }
}

/// Whether `c`, read in state `st`, is structural text: not escaped, not a
/// backslash or quote, and not inside a string literal.
pub open spec fn is_active(st: (bool, bool), c: char) -> bool {
    !st.1 && c != '\\' && c != '"' && !st.0
}

/// `s` without the whitespace that stands outside string literals.
pub open spec fn stripped(s: Seq<char>) -> Seq<char>
    decreases s.len(),
{
    if s.len() == 0 {
        Seq::empty()
    } else {
        let c = s.last();
        if is_active(quote_state(s.drop_last()), c) && is_ws(c) {
            stripped(s.drop_last())
        } else {
            stripped(s.drop_last()).push(c)
        }
    }
}

/// Nesting depth after a prefix: structural `{` and `[` open, `}` and `]` close.
pub open spec fn depth_of(s: Seq<char>) -> int
    decreases s.len(),
{
    if s.len() == 0 {
        0
    } else {
        let c = s.last();
        let d = depth_of(s.drop_last());
        if is_active(quote_state(s.drop_last()), c) && (c == '{' || c == '[') {
            d + 1
        } else if is_active(quote_state(s.drop_last()), c) && (c == '}' || c == ']') {
            d - 1
        } else {
            d
        }
    }
}

/// Whether the last character of `s` is a top-level element separator.
pub open spec fn ends_with_separator(s: Seq<char>) -> bool {
    s.len() > 0 && is_active(quote_state(s.drop_last()), s.last()) && s.last() == ','
        && depth_of(s.drop_last()) == 0
}

/// Adds the trimmed pending text to the elements, unless it is blank.
pub open spec fn flush(elems: Seq<Seq<char>>, cur: Seq<char>) -> Seq<Seq<char>> {
    if trimmed(cur).len() > 0 {
        elems.push(trimmed(cur))
    } else {
        elems
    }
}

/// Elements found so far and pending text, after a prefix.
pub open spec fn split_acc(s: Seq<char>) -> (Seq<Seq<char>>, Seq<char>)
    decreases s.len(),
{
    if s.len() == 0 {
        (Seq::empty(), Seq::empty())
    } else {
        let (e, cur) = split_acc(s.drop_last());
        if ends_with_separator(s) {
            (flush(e, cur), Seq::empty())
        } else {
            (e, cur.push(s.last()))
        }
    }
}

/// The top-level elements of an array's interior: split at commas outside
/// strings and nested structures, each trimmed, blank ones dropped.
pub open spec fn split_elements(s: Seq<char>) -> Seq<Seq<char>> {
    flush(split_acc(s).0, split_acc(s).1)
}

/// The texts of `v` joined with `sep` between neighbours.
pub open spec fn join_with(v: Seq<Seq<char>>, sep: char) -> Seq<char>
    decreases v.len(),
{
    if v.len() == 0 {
        Seq::empty()
    } else if v.len() == 1 {
        v[0]
    } else {
        join_with(v.drop_last(), sep).push(sep) + v.last()
    }
}

/// Canonical form of a stripped array whose elements may be reordered.
pub open spec fn sorted_array(t: Seq<char>) -> Seq<char> {
    let inner = t.subrange(1, t.len() - 1);
    if inner.len() == 0 {
        seq!['[', ']']
    } else {
        seq!['['] + join_with(sorted_texts(split_elements(inner)), ',') + seq![']']
    }
}

/// What `serde_json` reads from `s` when it is one JSON object: each member
/// as its key and the compact rendering of its value.
pub uninterp spec fn json_members(s: Seq<char>) -> Option<Seq<(Seq<char>, Seq<char>)>>;

/// Keys in strictly ascending order.
pub open spec fn keys_ascending(m: Seq<(Seq<char>, Seq<char>)>) -> bool {
    forall|i: int, j: int|
        0 <= i < j < m.len() ==> text_leq(#[trigger] m[i].0, #[trigger] m[j].0) && m[i].0 != m[j].0
}

pub open spec fn member_text(kv: (Seq<char>, Seq<char>)) -> Seq<char> {
    seq!['"'] + kv.0 + seq!['"', ':'] + kv.1
}

/// `{"k":v,...}` over the members in their order.
pub open spec fn render_object(m: Seq<(Seq<char>, Seq<char>)>) -> Seq<char> {
    seq!['{'] + join_with(m.map_values(|kv: (Seq<char>, Seq<char>)| member_text(kv)), ',') + seq![
        '}',
    ]
}

/// The canonical form of `s`; `can_sort` says whether an array's element
/// order is insignificant.
pub open spec fn canonical(s: Seq<char>, can_sort: bool) -> Seq<char> {
    let t = stripped(s);
    if t.len() > 0 && t[0] == '[' && can_sort && t.len() >= 2 {
        sorted_array(t)
    } else if t.len() > 0 && t[0] == '{' {
        match json_members(t) {
            Some(m) => render_object(m),
            None => t,
        }
    } else {
        t
    }
}

pub open spec fn member_views(m: Seq<(Vec<char>, Vec<char>)>) -> Seq<(Seq<char>, Seq<char>)> {
    m.map_values(|kv: (Vec<char>, Vec<char>)| (kv.0@, kv.1@))
}

/// Relies on `serde_json::from_str::<serde_json::Value>` and on `Value`'s
/// `Display` (compact JSON): when `s` parses as one JSON object, its members
/// as key and rendered value. The default `serde_json::Map` is a `BTreeMap`,
/// so the keys come in ascending order, each once.
#[verifier::external_body]
fn parse_json_object(s: &Vec<char>) -> (r: Option<Vec<(Vec<char>, Vec<char>)>>)
    ensures
        r is None <==> json_members(s@) is None,
        r matches Some(m) ==> json_members(s@) == Some(member_views(m@)),
        r matches Some(m) ==> keys_ascending(member_views(m@)),
{
    let text: String = s.iter().collect();
    match serde_json::from_str::<serde_json::Value>(&text) {
        Ok(serde_json::Value::Object(map)) => Some(
            map.iter().map(|(k, v)| (k.chars().collect(), v.to_string().chars().collect())).collect(),
        ),
        _ => None,
    }
}

/// Removes the whitespace outside string literals.
pub fn strip_chars(s: &Vec<char>) -> (r: Vec<char>)
    ensures
        r@ == stripped(s@),
{
    let mut r: Vec<char> = Vec::new();
    let mut in_string = false;
    let mut escape = false;
    let mut i: usize = 0;
    while i < s.len()
        invariant
            i <= s@.len(),
            (in_string, escape) == quote_state(s@.take(i as int)),
            r@ == stripped(s@.take(i as int)),
        decreases s@.len() - i,
    {
        let c = s[i];
        proof {
            assert(s@.take(i + 1).drop_last() =~= s@.take(i as int));
        }
        if escape {
            r.push(c);
            escape = false;
        } else if c == '\\' {
            r.push(c);
            escape = true;
        } else if c == '"' {
            r.push(c);
            in_string = !in_string;
        } else if in_string {
            r.push(c);
        } else if !is_whitespace(c) {
            r.push(c);
        }
        i = i + 1;
    }
    proof {
        assert(s@.take(s@.len() as int) =~= s@);
    }
    r
}

/// Strips all whitespace outside string literals.
pub fn strip_whitespace(content: &str) -> (r: String)
    ensures
        r@ == stripped(content@),
{
    let s = chars_of(content);
    let r = strip_chars(&s);
    string_of(r.as_slice())
}

/// Adds the trimmed text of `cur` to `elems` unless it is blank.
fn flush_pending(elems: &mut Vec<Vec<char>>, cur: &Vec<char>)
    ensures
        texts(final(elems)@) == flush(texts(old(elems)@), cur@),
{
    let (a, b) = trim_bounds(cur, 0, cur.len());
    proof {
        assert(cur@.subrange(0, cur@.len() as int) =~= cur@);
    }
    if a < b {
        let t = slice_vec(cur, a, b);
        elems.push(t);
        proof {
            assert(texts(elems@) =~= texts(old(elems)@).push(trimmed(cur@)));
        }
    }
}

/// Splits an array's interior into its top-level elements.
pub fn split_chars(s: &Vec<char>) -> (r: Vec<Vec<char>>)
    ensures
        texts(r@) == split_elements(s@),
{
    let mut elems: Vec<Vec<char>> = Vec::new();
    let mut cur: Vec<char> = Vec::new();
    let mut opens: usize = 0;
    let mut closes: usize = 0;
    let mut in_string = false;
    let mut escape = false;
    let mut i: usize = 0;
    while i < s.len()
        invariant
            i <= s@.len(),
            opens <= i,
            closes <= i,
            opens - closes == depth_of(s@.take(i as int)),
            (in_string, escape) == quote_state(s@.take(i as int)),
            (texts(elems@), cur@) == split_acc(s@.take(i as int)),
        decreases s@.len() - i,
    {
        let c = s[i];
        proof {
            assert(s@.take(i + 1).drop_last() =~= s@.take(i as int));
        }
        if escape {
            cur.push(c);
            escape = false;
        } else if c == '\\' {
            cur.push(c);
            escape = true;
        } else if c == '"' {
            cur.push(c);
            in_string = !in_string;
        } else if in_string {
            cur.push(c);
        } else if c == '{' || c == '[' {
            opens = opens + 1;
            cur.push(c);
        } else if c == '}' || c == ']' {
            closes = closes + 1;
            cur.push(c);
        } else if c == ',' && opens == closes {
            flush_pending(&mut elems, &cur);
            cur = Vec::new();
        } else {
            cur.push(c);
        }
        proof {
            assert(cur@ == split_acc(s@.take(i + 1)).1);
        }
        i = i + 1;
    }
    flush_pending(&mut elems, &cur);
    proof {
        assert(s@.take(s@.len() as int) =~= s@);
    }
    elems
}

/// Splits an array's interior (the text between its brackets) into its
/// top-level elements, each trimmed; blank elements are dropped.
pub fn split_array_elements(inner: &str) -> (r: Vec<String>)
    ensures
        r@.map_values(|x: String| x@) == split_elements(inner@),
{
    let s = chars_of(inner);
    let parts = split_chars(&s);
    let mut r: Vec<String> = Vec::new();
    let mut i: usize = 0;
    while i < parts.len()
        invariant
            i <= parts@.len(),
            r@.len() == i,
            forall|k: int| 0 <= k < i ==> #[trigger] r@[k]@ == parts@[k]@,
        decreases parts@.len() - i,
    {
        let t = string_of(parts[i].as_slice());
        r.push(t);
        i = i + 1;
    }
    proof {
        assert(r@.map_values(|x: String| x@) =~= texts(parts@));
    }
    r
}

/// Joins texts with `sep` between neighbours.
pub fn join_chars(v: &Vec<Vec<char>>, sep: char) -> (r: Vec<char>)
    ensures
        r@ == join_with(texts(v@), sep),
{
    let mut r: Vec<char> = Vec::new();
    let mut i: usize = 0;
    while i < v.len()
        invariant
            i <= v@.len(),
            r@ == join_with(texts(v@).take(i as int), sep),
        decreases v@.len() - i,
    {
        proof {
            assert(texts(v@).take(i + 1).drop_last() =~= texts(v@).take(i as int));
        }
        if i > 0 {
            r.push(sep);
        }
        append_chars(&mut r, &v[i]);
        proof {
            if i == 0 {
                assert(r@ =~= texts(v@).take(1)[0]);
            }
        }
        i = i + 1;
    }
    proof {
        assert(texts(v@).take(v@.len() as int) =~= texts(v@));
    }
    r
}

/// Canonical form of a stripped array: its elements sorted.
fn normalize_array(content: &Vec<char>) -> (r: Vec<char>)
    requires
        content@.len() >= 2,
    ensures
        r@ == sorted_array(content@),
{
    let n = content.len();
    let inner = slice_vec(content, 1, n - 1);
    if inner.len() == 0 {
        let mut r: Vec<char> = Vec::new();
        r.push('[');
        r.push(']');
        proof {
            assert(r@ =~= seq!['[', ']']);
        }
        return r;
    }
    let elems = sort_texts(split_chars(&inner));
    let mut r: Vec<char> = Vec::new();
    r.push('[');
    let joined = join_chars(&elems, ',');
    append_chars(&mut r, &joined);
    r.push(']');
    proof {
        assert(r@ =~= seq!['['] + joined@ + seq![']']);
    }
    r
}

/// Renders members, in their order, as `{"k":v,...}`.
pub fn render_members(members: &Vec<(Vec<char>, Vec<char>)>) -> (r: Vec<char>)
    ensures
        r@ == render_object(member_views(members@)),
{
    let mut parts: Vec<Vec<char>> = Vec::new();
    let mut i: usize = 0;
    while i < members.len()
        invariant
            i <= members@.len(),
            parts@.len() == i,
            forall|k: int|
                0 <= k < i ==> #[trigger] parts@[k]@ == member_text(member_views(members@)[k]),
        decreases members@.len() - i,
    {
        let mut p: Vec<char> = Vec::new();
        p.push('"');
        append_chars(&mut p, &members[i].0);
        p.push('"');
        p.push(':');
        append_chars(&mut p, &members[i].1);
        proof {
            assert(p@ =~= member_text(member_views(members@)[i as int]));
        }
        parts.push(p);
        i = i + 1;
    }
    proof {
        assert(texts(parts@) =~= member_views(members@).map_values(
            |kv: (Seq<char>, Seq<char>)| member_text(kv),
        ));
    }
    let mut r: Vec<char> = Vec::new();
    r.push('{');
    let joined = join_chars(&parts, ',');
    append_chars(&mut r, &joined);
    r.push('}');
    proof {
        assert(r@ =~= seq!['{'] + joined@ + seq!['}']);
    }
    r
}

/// Canonical form of a stripped object: members in ascending key order when
/// it parses as JSON, else the text unchanged.
fn normalize_object(content: &Vec<char>) -> (r: Vec<char>)
    ensures
        r@ == (match json_members(content@) {
            Some(m) => render_object(m),
            None => content@,
        }),
{
    match parse_json_object(content) {
        Some(members) => render_members(&members),
        None => slice_vec(content, 0, content.len()),
    }
}

/// The canonical form of a structure's text.
pub fn normalize_chars(content: &Vec<char>, can_sort_array: bool) -> (r: Vec<char>)
    ensures
        r@ == canonical(content@, can_sort_array),
{
    let stripped = strip_chars(content);
    if stripped.len() > 0 && stripped[0] == '[' && can_sort_array && stripped.len() >= 2 {
        normalize_array(&stripped)
    } else if stripped.len() > 0 && stripped[0] == '{' {
        normalize_object(&stripped)
    } else {
        proof {
            assert(stripped@.subrange(0, stripped@.len() as int) =~= stripped@);
        }
        stripped
    }
}

/// Normalizes a structure's text for comparison: whitespace outside strings
/// is removed; an array whose order is insignificant has its elements sorted;
/// an object that parses as JSON has its keys sorted; anything else stays as
/// stripped.
pub fn normalize(content: &str, can_sort_array: bool) -> (r: String)
    ensures
        r@ == canonical(content@, can_sort_array),
{
    let s = chars_of(content);
    let r = normalize_chars(&s, can_sort_array);
    string_of(r.as_slice())
}

/// Two arrays under an order-insensitive field whose top-level elements are
/// the same up to order get the same canonical form.
pub proof fn lemma_order_insensitive(a: Seq<char>, b: Seq<char>)
    requires
        stripped(a).len() >= 2 && stripped(a)[0] == '[',
        stripped(b).len() >= 2 && stripped(b)[0] == '[',
        split_elements(stripped(a).subrange(1, stripped(a).len() - 1)).to_multiset()
            == split_elements(stripped(b).subrange(1, stripped(b).len() - 1)).to_multiset(),
    ensures
        canonical(a, true) == canonical(b, true),
{
    let ia = stripped(a).subrange(1, stripped(a).len() - 1);
    let ib = stripped(b).subrange(1, stripped(b).len() - 1);
    let ea = split_elements(ia);
    let eb = split_elements(ib);
    broadcast use vstd::seq_lib::group_to_multiset_ensures;

    lemma_text_leq_total();
    ea.lemma_sort_by_ensures(text_order());
    eb.lemma_sort_by_ensures(text_order());
    lemma_sorted_unique(ea.sort_by(text_order()), eb.sort_by(text_order()), text_order());
    assert(ea.to_multiset().len() == ea.len());
    assert(eb.to_multiset().len() == eb.len());
    assert(ea.sort_by(text_order()).to_multiset().len() == ea.sort_by(text_order()).len());
    if ia.len() == 0 {
        assert(split_acc(ia) == (Seq::<Seq<char>>::empty(), Seq::<char>::empty()));
        assert(trim_front(Seq::<char>::empty()) == Seq::<char>::empty());
        assert(trim_back(Seq::<char>::empty()) == Seq::<char>::empty());
        assert(ea.len() == 0);
    }
    if ib.len() == 0 {
        assert(split_acc(ib) == (Seq::<Seq<char>>::empty(), Seq::<char>::empty()));
        assert(trim_front(Seq::<char>::empty()) == Seq::<char>::empty());
        assert(trim_back(Seq::<char>::empty()) == Seq::<char>::empty());
        assert(eb.len() == 0);
    }
    if ia.len() == 0 || ib.len() == 0 {
        assert(sorted_texts(ea).len() == 0);
        assert(join_with(sorted_texts(ea), ',').len() == 0);
        assert(seq!['['] + join_with(sorted_texts(ea), ',') + seq![']'] =~= seq!['[', ']']);
    }
}

} // verus!
