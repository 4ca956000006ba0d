//! Text checks used by the tree builder: which bare identifiers a literal
//! structure may hold, where the leading import header of a file ends, and
//! which field name stands right before a structure.
use vstd::prelude::*;
use crate::normalize::{is_active, quote_state};
use crate::text::{
    is_digit, is_hex, is_hex_digit, is_whitespace, is_word, is_word_char, is_ws, same_text,
    trim_bounds, trimmed,
};

verus! {

/// Every character of `s` from `from` on satisfies `is_hex`.
pub open spec fn hex_from(s: Seq<char>, from: int) -> bool {
    forall|k: int| from <= k < s.len() ==> is_hex(#[trigger] s[k])
}

/// A bare identifier that a literal structure may hold: a reference
/// (`x_` and at least two hex digits, or `_` and eight hex digits), `null`,
/// `true`, `false`, or a run of digits.
pub open spec fn valid_ident(id: Seq<char>) -> bool {
    if id.len() >= 4 && id[0] == 'x' && id[1] == '_' {
        hex_from(id, 2)
    } else if id.len() == 9 && id[0] == '_' {
        hex_from(id, 1)
    } else {
        id == seq!['n', 'u', 'l', 'l'] || id == seq!['t', 'r', 'u', 'e'] || id == seq![
            'f',
            'a',
            'l',
            's',
            'e',
        ] || forall|k: int| 0 <= k < id.len() ==> is_digit(#[trigger] id[k])
    }
}

/// Scan of a structure's interior: whether every identifier finished so far
/// is valid, and the identifier being read.
pub open spec fn ident_scan(s: Seq<char>) -> (bool, Seq<char>)
    decreases s.len(),
{
    if s.len() == 0 {
        (true, Seq::empty())
    } else {
        let (ok, id) = ident_scan(s.drop_last());
        let c = s.last();
        if !ok || !is_active(quote_state(s.drop_last()), c) {
            (ok, id)
        } else if is_word(c) {
            (true, id.push(c))
        } else if id.len() > 0 {
            if valid_ident(id) {
                (true, Seq::empty())
            } else {
                (false, id)
            }
        } else {
            (true, id)
        }
    }
}

/// Whether a structure's text may be canonicalized: its trimmed interior is
/// not blank and holds no bare identifier but the valid ones.
pub open spec fn valid_leaf_text(content: Seq<char>) -> bool {
    let t = trimmed(content.subrange(1, content.len() - 1));
    content.len() >= 2 && t.len() > 0 && ident_scan(t).0 && (ident_scan(t).1.len() == 0
        || valid_ident(ident_scan(t).1))
}

/// Shortest text that is canonicalized.
pub const MIN_LEAF_LEN: usize = 15;

/// The eligibility test shared by the tree builder and by parents whose children are all
/// extracted.
pub open spec fn eligible_text(content: Seq<char>) -> bool {
    content.len() >= MIN_LEAF_LEN && valid_leaf_text(content)
}

fn all_hex_from(id: &Vec<char>, from: usize) -> (r: bool)
    ensures
        r == hex_from(id@, from as int),
{
    let mut k: usize = from;
    while k < id.len()
        invariant
            from <= k,
            forall|j: int| from <= j < k ==> is_hex(#[trigger] id@[j]),
        decreases id@.len() - k,
    {
        if !is_hex_digit(id[k]) {
            return false;
        }
        k = k + 1;
    }
    true
}

fn all_digits(id: &Vec<char>) -> (r: bool)
    ensures
        r == forall|k: int| 0 <= k < id@.len() ==> is_digit(#[trigger] id@[k]),
{
    let mut k: usize = 0;
    while k < id.len()
        invariant
            forall|j: int| 0 <= j < k ==> is_digit(#[trigger] id@[j]),
        decreases id@.len() - k,
    {
        if !('0' <= id[k] && id[k] <= '9') {
            return false;
        }
        k = k + 1;
    }
    true
}

fn is_word_literal(id: &Vec<char>, w: &str) -> (r: bool)
    ensures
        r == (id@ == w@),
{
    let wv = crate::text::chars_of(w);
    same_text(id, &wv)
}

/// Whether a bare identifier may stand in a canonicalized structure.
pub fn is_valid_identifier(id: &Vec<char>) -> (r: bool)
    ensures
        r == valid_ident(id@),
{
    let n = id.len();
    if n >= 4 && id[0] == 'x' && id[1] == '_' {
        return all_hex_from(id, 2);
    }
    if n == 9 && id[0] == '_' {
        return all_hex_from(id, 1);
    }
    proof {
        reveal_strlit("null");
        reveal_strlit("true");
        reveal_strlit("false");
        assert("null"@ =~= seq!['n', 'u', 'l', 'l']);
        assert("true"@ =~= seq!['t', 'r', 'u', 'e']);
        assert("false"@ =~= seq!['f', 'a', 'l', 's', 'e']);
    }
    is_word_literal(id, "null") || is_word_literal(id, "true") || is_word_literal(id, "false")
        || all_digits(id)
}

/// Whether `content` (a whole structure, brackets included) holds only
/// string literals, punctuation and valid bare identifiers.
pub fn is_valid_leaf_content(content: &Vec<char>) -> (r: bool)
    requires
        content@.len() >= 2,
    ensures
        r == valid_leaf_text(content@),
{
    let (a, b) = trim_bounds(content, 1, content.len() - 1);
    if a == b {
        return false;
    }
    let ghost t = content@.subrange(a as int, b as int);
    let mut in_string = false;
    let mut escape = false;
    let mut ident: Vec<char> = Vec::new();
    let mut i: usize = a;
    while i < b
        invariant
            a <= i <= b <= content@.len(),
            t == content@.subrange(a as int, b as int),
            t == trimmed(content@.subrange(1, content@.len() - 1)),
            content@.len() >= 2,
            (in_string, escape) == quote_state(t.take(i - a)),
            ident_scan(t.take(i - a)) == (true, ident@),
        decreases b - i,
    {
        let c = content[i];
        proof {
            assert(t.take(i - a + 1).drop_last() =~= t.take(i - a));
            assert(t.take(i - a + 1).last() == c);
        }
        if escape {
            escape = false;
        } else if c == '\\' {
            escape = true;
        } else if c == '"' {
            in_string = !in_string;
        } else if in_string {
        } else if is_word_char(c) {
            ident.push(c);
        } else if ident.len() > 0 {
            if !is_valid_identifier(&ident) {
                proof {
                    assert(!ident_scan(t.take(i - a + 1)).0);
                    lemma_ident_scan_fails(t, i - a + 1);
                }
                return false;
            }
            ident = Vec::new();
            proof {
                assert(ident@ =~= Seq::<char>::empty());
            }
        }
        i = i + 1;
    }
    proof {
        assert(t.take(b - a) =~= t);
    }
    ident.len() == 0 || is_valid_identifier(&ident)
}

/// Once an identifier is found invalid, the scan stays failed.
proof fn lemma_ident_scan_fails(t: Seq<char>, k: int)
    requires
        0 <= k <= t.len(),
        !ident_scan(t.take(k)).0,
    ensures
        !ident_scan(t).0,
    decreases t.len() - k,
{
    if k < t.len() {
        assert(t.take(k + 1).drop_last() =~= t.take(k));
        lemma_ident_scan_fails(t, k + 1);
    } else {
        assert(t.take(k) =~= t);
    }
}

/// Whether a trimmed header line is blank, a comment line or an import.
pub open spec fn header_line(t: Seq<char>) -> bool {
    t.len() == 0 || (t.len() >= 2 && t[0] == '/' && (t[1] == '/' || t[1] == '*')) || t[0] == '*'
        || (t.len() >= 7 && t.subrange(0, 7) == seq!['i', 'm', 'p', 'o', 'r', 't', ' '])
}

/// Index of the first `\n` at or after `p`, or the length of `s`.
pub open spec fn line_break(s: Seq<char>, p: int) -> int
    decreases s.len() - p,
{
    if p < 0 || p >= s.len() {
        s.len() as int
    } else if s[p] == '\n' {
        p
    } else {
        line_break(s, p + 1)
    }
}

/// The line that starts at `p` and ends at `e`, without a `\r` that stands
/// right before its `\n`.
pub open spec fn line_text(s: Seq<char>, p: int, e: int) -> Seq<char> {
    if e < s.len() && e > p && s[e - 1] == '\r' {
        s.subrange(p, e - 1)
    } else {
        s.subrange(p, e)
    }
}

/// Walks the header lines from the line that starts at `p`, each past its
/// whole line ending, and stops at the start of the first other line (or at
/// the end of the text).
pub open spec fn header_scan(s: Seq<char>, p: int) -> int
    decreases s.len() - p,
{
    if p < 0 || p >= s.len() {
        p
    } else {
        let e = line_break(s, p);
        let line = line_text(s, p, e);
        if header_line(trimmed(line)) {
            if p <= e < s.len() {
                header_scan(s, e + 1)
            } else {
                s.len() as int
            }
        } else {
            p
        }
    }
}

/// Where the file's leading run of blank, comment and import lines ends.
pub open spec fn import_end(s: Seq<char>) -> int {
    header_scan(s, 0)
}

pub proof fn lemma_line_break(s: Seq<char>, p: int)
    requires
        0 <= p,
    ensures
        p <= line_break(s, p) <= s.len() || p > s.len(),
        line_break(s, p) < s.len() ==> s[line_break(s, p)] == '\n',
        forall|k: int| p <= k < line_break(s, p) ==> s[k] != '\n',
    decreases s.len() - p,
{
    if p < s.len() && s[p] != '\n' {
        lemma_line_break(s, p + 1);
    }
}

fn starts_with_import(s: &Vec<char>, a: usize, b: usize) -> (r: bool)
    requires
        a <= b <= s@.len(),
    ensures
        r == (b - a >= 7 && s@.subrange(a as int, a + 7) == seq![
            'i',
            'm',
            'p',
            'o',
            'r',
            't',
            ' ',
        ]),
{
    if b - a < 7 {
        return false;
    }
    let r = s[a] == 'i' && s[a + 1] == 'm' && s[a + 2] == 'p' && s[a + 3] == 'o' && s[a + 4] == 'r'
        && s[a + 5] == 't' && s[a + 6] == ' ';
    proof {
        if r {
            assert(s@.subrange(a as int, a + 7) =~= seq!['i', 'm', 'p', 'o', 'r', 't', ' ']);
        } else {
            if s@.subrange(a as int, a + 7) == seq!['i', 'm', 'p', 'o', 'r', 't', ' '] {
                assert(s@.subrange(a as int, a + 7)[0] == s@[a as int]);
                assert(s@.subrange(a as int, a + 7)[1] == s@[a + 1]);
                assert(s@.subrange(a as int, a + 7)[2] == s@[a + 2]);
                assert(s@.subrange(a as int, a + 7)[3] == s@[a + 3]);
                assert(s@.subrange(a as int, a + 7)[4] == s@[a + 4]);
                assert(s@.subrange(a as int, a + 7)[5] == s@[a + 5]);
                assert(s@.subrange(a as int, a + 7)[6] == s@[a + 6]);
            }
        }
    }
    r
}

/// Position where the leading header of blank lines, comment lines and
/// imports ends.
pub fn find_import_end(s: &Vec<char>) -> (r: usize)
    requires
        s@.len() < usize::MAX,
    ensures
        r == import_end(s@),
{
    let mut p: usize = 0;
    while p < s.len()
        invariant
            p <= s@.len() < usize::MAX,
            header_scan(s@, 0) == header_scan(s@, p as int),
        decreases s@.len() - p,
    {
        let mut e: usize = p;
        while e < s.len() && s[e] != '\n'
            invariant
                p <= e <= s@.len(),
                line_break(s@, p as int) == line_break(s@, e as int),
            decreases s@.len() - e,
        {
            e = e + 1;
        }
        let line_end: usize = if e < s.len() && e > p && s[e - 1] == '\r' {
            e - 1
        } else {
            e
        };
        let (a, b) = trim_bounds(s, p, line_end);
        let ghost t = trimmed(s@.subrange(p as int, line_end as int));
        let header = a == b || (b - a >= 2 && s[a] == '/' && (s[a + 1] == '/' || s[a + 1] == '*'))
            || s[a] == '*' || starts_with_import(s, a, b);
        proof {
            assert(line_text(s@, p as int, e as int) == s@.subrange(p as int, line_end as int));
            assert(t == s@.subrange(a as int, b as int));
            if b - a >= 2 {
                assert(t[0] == s@[a as int]);
                assert(t[1] == s@[a + 1]);
            }
            if a < b {
                assert(t[0] == s@[a as int]);
            }
            if b - a >= 7 {
                assert(t.subrange(0, 7) =~= s@.subrange(a as int, a + 7));
            }
            assert(header == header_line(t));
        }
        if !header {
            return p;
        }
        proof {
            lemma_line_break(s@, p as int);
        }
        if e >= s.len() {
            return s.len();
        }
        p = e + 1;
    }
    p
}

/// Index reached by stepping back over ASCII whitespace from `i`, stopping
/// at index zero.
pub open spec fn is_ascii_ws(c: char) -> bool {
    c == ' ' || c == '\t' || c == '\n' || c == '\x0C' || c == '\r'
}

pub open spec fn back_over_ws(s: Seq<char>, i: int) -> int
    decreases i,
{
    if i > 0 && i < s.len() && is_ascii_ws(s[i]) {
        back_over_ws(s, i - 1)
    } else {
        i
    }
}

/// Index reached by stepping back from `i` to a `"`, stopping at index zero.
pub open spec fn back_to_quote(s: Seq<char>, i: int) -> int
    decreases i,
{
    if i > 0 && i < s.len() && s[i] != '"' {
        back_to_quote(s, i - 1)
    } else {
        i
    }
}

/// The field name of a `"name":` that stands right before position `pos`
/// (whitespace allowed around the colon); none when no such quoted name is
/// there.
pub open spec fn field_before(s: Seq<char>, pos: int) -> Option<Seq<char>> {
    let i1 = back_over_ws(s, if pos > 0 { pos - 1 } else { 0 });
    if i1 == 0 || s[i1] != ':' {
        None
    } else {
        let i2 = back_over_ws(s, i1 - 1);
        if i2 == 0 || s[i2] != '"' {
            None
        } else {
            let j = back_to_quote(s, i2 - 1);
            if s[j] == '"' {
                Some(s.subrange(j + 1, i2))
            } else {
                None
            }
        }
    }
}

/// Whether the structure at `pos` is the value of a field named in `fields`.
pub open spec fn order_insensitive_at(s: Seq<char>, pos: int, fields: Seq<Seq<char>>) -> bool {
    match field_before(s, pos) {
        Some(name) => fields.contains(name),
        None => false,
    }
}

fn ascii_ws(c: char) -> (r: bool)
    ensures
        r == is_ascii_ws(c),
{
    c == ' ' || c == '\t' || c == '\n' || c == '\x0C' || c == '\r'
}

fn skip_ws_back(s: &Vec<char>, i: usize) -> (r: usize)
    requires
        i < s@.len(),
    ensures
        r == back_over_ws(s@, i as int),
        r <= i,
{
    let mut k: usize = i;
    while k > 0 && ascii_ws(s[k])
        invariant
            k <= i < s@.len(),
            back_over_ws(s@, i as int) == back_over_ws(s@, k as int),
        decreases k,
    {
        k = k - 1;
    }
    k
}

/// Whether `names` holds `name`.
pub fn contains_name(names: &Vec<Vec<char>>, name: &Vec<char>) -> (r: bool)
    ensures
        r == crate::text::texts(names@).contains(name@),
{
    let ghost all = crate::text::texts(names@);
    let mut k: usize = 0;
    while k < names.len()
        invariant
            k <= names@.len(),
            all == crate::text::texts(names@),
            forall|j: int| 0 <= j < k ==> all[j] != name@,
        decreases names@.len() - k,
    {
        if same_text(&names[k], name) {
            proof {
                assert(all[k as int] == name@);
            }
            return true;
        }
        k = k + 1;
    }
    false
}

/// Whether the structure starting at `pos` is the value of an
/// order-insensitive field.
pub fn is_order_insensitive(s: &Vec<char>, pos: usize, fields: &Vec<Vec<char>>) -> (r: bool)
    requires
        pos <= s@.len(),
    ensures
        r == order_insensitive_at(s@, pos as int, crate::text::texts(fields@)),
{
    if s.len() == 0 {
        return false;
    }
    let i1 = skip_ws_back(s, if pos > 0 { pos - 1 } else { 0 });
    if i1 == 0 || s[i1] != ':' {
        return false;
    }
    let i2 = skip_ws_back(s, i1 - 1);
    if i2 == 0 || s[i2] != '"' {
        return false;
    }
    let mut j: usize = i2 - 1;
    while j > 0 && s[j] != '"'
        invariant
            j < i2 < s@.len(),
            back_to_quote(s@, i2 - 1) == back_to_quote(s@, j as int),
        decreases j,
    {
        j = j - 1;
    }
    if s[j] != '"' {
        return false;
    }
    let name = crate::text::slice_vec(s, j + 1, i2);
    contains_name(fields, &name)
}

} // verus!
