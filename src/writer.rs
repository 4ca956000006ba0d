//! Rewriting of each file's import of the shared module, and rendering of the
//! shared module itself in dependency order.
use vstd::prelude::*;
use crate::normalize::join_with;
use crate::scan::line_break;
use crate::ExtractedEntry;
use crate::text::{
    append_chars, append_range, chars_of, has_at, is_hex, is_hex_digit, matches_at, same_text,
    sort_texts, sorted_texts, string_of, texts,
};

verus! {

pub open spec fn kw_import() -> Seq<char> {
    seq!['i', 'm', 'p', 'o', 'r', 't', ' ']
}

pub open spec fn kw_export() -> Seq<char> {
    seq!['e', 'x', 'p', 'o', 'r', 't', ' ']
}

pub open spec fn kw_const() -> Seq<char> {
    seq!['c', 'o', 'n', 's', 't', ' ']
}

pub open spec fn starts_with(l: Seq<char>, p: Seq<char>) -> bool {
    has_at(l, 0, p)
}

/// `s` with every trailing `.ts` removed (as `str::trim_end_matches(".ts")`).
pub open spec fn strip_ts(s: Seq<char>) -> Seq<char>
    decreases s.len(),
{
    if s.len() >= 3 && s.subrange(s.len() - 3, s.len() as int) == seq!['.', 't', 's'] {
        strip_ts(s.subrange(0, s.len() - 3))
    } else {
        s
    }
}

/// The module path that files import the shared declarations from.
pub open spec fn import_source(module: Seq<char>) -> Seq<char> {
    seq!['.', '/'] + strip_ts(module)
}

/// The text that marks an import of the shared module: `from "<source>"`.
pub open spec fn import_marker(src: Seq<char>) -> Seq<char> {
    seq!['f', 'r', 'o', 'm', ' ', '"'] + src + seq!['"']
}

/// The lines of `s` from position `p`, as `str::lines` yields them.
pub open spec fn lines_from(s: Seq<char>, p: int) -> Seq<Seq<char>>
    decreases s.len() - p,
{
    if p < 0 || p >= s.len() {
        Seq::empty()
    } else {
        let e = line_break(s, p);
        if p <= e < s.len() {
            seq![crate::scan::line_text(s, p, e)] + lines_from(s, e + 1)
        } else {
            seq![s.subrange(p, s.len() as int)]
        }
    }
}

/// The line ending of each line from position `p`: `\n`, `\r\n`, or
/// nothing for a last line without one.
pub open spec fn ends_from(s: Seq<char>, p: int) -> Seq<Seq<char>>
    decreases s.len() - p,
{
    if p < 0 || p >= s.len() {
        Seq::empty()
    } else {
        let e = line_break(s, p);
        if p <= e < s.len() {
            seq![s.subrange(p + crate::scan::line_text(s, p, e).len(), e + 1)] + ends_from(s, e + 1)
        } else {
            seq![Seq::<char>::empty()]
        }
    }
}

/// Line endings of the lines that do not hold `marker`.
pub open spec fn kept_ends(ls: Seq<Seq<char>>, es: Seq<Seq<char>>, marker: Seq<char>) -> Seq<Seq<char>>
    decreases ls.len(),
{
    if ls.len() == 0 || es.len() == 0 {
        Seq::empty()
    } else if contains_text(ls.last(), marker) {
        kept_ends(ls.drop_last(), es.drop_last(), marker)
    } else {
        kept_ends(ls.drop_last(), es.drop_last(), marker).push(es.last())
    }
}

/// Lines `lo..hi`, each followed by its ending.
pub open spec fn concat_range(b: Seq<Seq<char>>, e: Seq<Seq<char>>, lo: int, hi: int) -> Seq<char>
    decreases hi - lo,
{
    if hi <= lo {
        Seq::empty()
    } else {
        concat_range(b, e, lo, hi - 1) + b[hi - 1] + e[hi - 1]
    }
}

pub open spec fn contains_text(l: Seq<char>, p: Seq<char>) -> bool {
    exists|k: int| #[trigger] has_at(l, k, p)
}

/// The lines that do not hold `marker`.
pub open spec fn kept_lines(ls: Seq<Seq<char>>, marker: Seq<char>) -> Seq<Seq<char>>
    decreases ls.len(),
{
    if ls.len() == 0 {
        Seq::empty()
    } else if contains_text(ls.last(), marker) {
        kept_lines(ls.drop_last(), marker)
    } else {
        kept_lines(ls.drop_last(), marker).push(ls.last())
    }
}

/// End of the run of hex digits that starts at `j`.
pub open spec fn hex_end(s: Seq<char>, j: int) -> int
    decreases s.len() - j,
{
    if 0 <= j < s.len() && is_hex(s[j]) {
        hex_end(s, j + 1)
    } else {
        j
    }
}

/// The references (`x_` and at least two hex digits) that a line holds,
/// scanning from `i` while at least four characters remain.
pub open spec fn line_refs(l: Seq<char>, i: int) -> Seq<Seq<char>>
    decreases l.len() - i,
{
    if i < 0 || i + 3 >= l.len() {
        Seq::empty()
    } else if l[i] == 'x' && l[i + 1] == '_' {
        let j = hex_end(l, i + 2);
        let found: Seq<Seq<char>> = if j - i >= 4 {
            seq![l.subrange(i, j)]
        } else {
            Seq::empty()
        };
        if i < j <= l.len() {
            found + line_refs(l, j)
        } else {
            found
        }
    } else {
        line_refs(l, i + 1)
    }
}

/// The references of every line that is not an import.
pub open spec fn refs_of_lines(ls: Seq<Seq<char>>) -> Seq<Seq<char>>
    decreases ls.len(),
{
    if ls.len() == 0 {
        Seq::empty()
    } else if starts_with(ls.last(), kw_import()) {
        refs_of_lines(ls.drop_last())
    } else {
        refs_of_lines(ls.drop_last()) + line_refs(ls.last(), 0)
    }
}

/// `v` without elements equal to their predecessor.
pub open spec fn dedup_adj(v: Seq<Seq<char>>) -> Seq<Seq<char>>
    decreases v.len(),
{
    if v.len() <= 1 {
        v
    } else if v.last() == v[v.len() - 2] {
        dedup_adj(v.drop_last())
    } else {
        dedup_adj(v.drop_last()).push(v.last())
    }
}

/// The texts of `v` joined with `sep` between neighbours.
pub open spec fn join_by(v: Seq<Seq<char>>, sep: Seq<char>) -> Seq<char>
    decreases v.len(),
{
    if v.len() == 0 {
        Seq::empty()
    } else if v.len() == 1 {
        v[0]
    } else {
        join_by(v.drop_last(), sep) + sep + v.last()
    }
}

/// `import { a, b } from "<src>";`
pub open spec fn import_line(names: Seq<Seq<char>>, src: Seq<char>) -> Seq<char> {
    seq!['i', 'm', 'p', 'o', 'r', 't', ' ', '{', ' '] + join_by(names, seq![',', ' ']) + seq![
        ' ',
        '}',
        ' ',
    ] + import_marker(src) + seq![';']
}

/// Where the import goes: after the last import line that comes before the
/// first `export` or `const` line.
pub open spec fn insert_pos(ls: Seq<Seq<char>>, i: int, acc: int) -> int
    decreases ls.len() - i,
{
    if i < 0 || i >= ls.len() {
        acc
    } else if starts_with(ls[i], kw_import()) {
        insert_pos(ls, i + 1, i + 1)
    } else if starts_with(ls[i], kw_export()) || starts_with(ls[i], kw_const()) {
        acc
    } else {
        insert_pos(ls, i + 1, acc)
    }
}

/// The inserted import line with its line break: after the line, or before
/// it when it follows a last line that has no ending.
pub open spec fn inserted(kept_e: Seq<Seq<char>>, pos: int, line: Seq<char>) -> Seq<char> {
    if pos > 0 && kept_e[pos - 1].len() == 0 {
        seq!['\n'] + line
    } else {
        line + seq!['\n']
    }
}

/// A file's text after rewriting its import of the shared module `module`:
/// lines importing it are removed; when the remaining lines use references,
/// one import of all of them, sorted and distinct, goes after the leading
/// imports. Every other line keeps its bytes and its line ending.
pub open spec fn imports_updated(content: Seq<char>, module: Seq<char>) -> Seq<char> {
    let src = import_source(module);
    let kb = kept_lines(lines_from(content, 0), import_marker(src));
    let ke = kept_ends(lines_from(content, 0), ends_from(content, 0), import_marker(src));
    let names = dedup_adj(sorted_texts(refs_of_lines(kb)));
    let pos = insert_pos(kb, 0, 0);
    if names.len() == 0 {
        concat_range(kb, ke, 0, kb.len() as int)
    } else {
        concat_range(kb, ke, 0, pos) + inserted(ke, pos, import_line(names, src)) + concat_range(
            kb,
            ke,
            pos,
            kb.len() as int,
        )
    }
}

proof fn lemma_concat_front(b: Seq<Seq<char>>, e: Seq<Seq<char>>, hi: int)
    requires
        1 <= hi <= b.len(),
        hi <= e.len(),
    ensures
        concat_range(b, e, 0, hi) == b[0] + e[0] + concat_range(b.drop_first(), e.drop_first(), 0, hi - 1),
    decreases hi,
{
    if hi > 1 {
        lemma_concat_front(b, e, hi - 1);
        assert(b.drop_first()[hi - 2] == b[hi - 1]);
        assert(e.drop_first()[hi - 2] == e[hi - 1]);
    } else {
        assert(concat_range(b.drop_first(), e.drop_first(), 0, 0) == Seq::<char>::empty());
        assert(concat_range(b, e, 0, 0) == Seq::<char>::empty());
    }
}

proof fn lemma_lines_cover(s: Seq<char>, p: int)
    requires
        0 <= p <= s.len(),
    ensures
        lines_from(s, p).len() == ends_from(s, p).len(),
        concat_range(lines_from(s, p), ends_from(s, p), 0, lines_from(s, p).len() as int)
            =~= s.subrange(p, s.len() as int),
    decreases s.len() - p,
{
    if p < s.len() {
        crate::scan::lemma_line_break(s, p);
        let e = line_break(s, p);
        if e < s.len() {
            lemma_lines_cover(s, e + 1);
            let b = lines_from(s, p);
            let en = ends_from(s, p);
            assert(b.len() == en.len());
            lemma_concat_front(b, en, b.len() as int);
            assert(b.drop_first() =~= lines_from(s, e + 1));
            assert(en.drop_first() =~= ends_from(s, e + 1));
            let lt = crate::scan::line_text(s, p, e);
            assert(lt + s.subrange(p + lt.len(), e + 1) =~= s.subrange(p, e + 1));
            assert(s.subrange(p, e + 1) + s.subrange(e + 1, s.len() as int) =~= s.subrange(p, s.len() as int));
        } else {
            let b = lines_from(s, p);
            let en = ends_from(s, p);
            assert(concat_range(b, en, 0, 0) == Seq::<char>::empty());
        }
    }
}

proof fn lemma_kept_all(ls: Seq<Seq<char>>, es: Seq<Seq<char>>, marker: Seq<char>)
    requires
        ls.len() == es.len(),
        forall|i: int| 0 <= i < ls.len() ==> !contains_text(#[trigger] ls[i], marker),
    ensures
        kept_lines(ls, marker) == ls,
        kept_ends(ls, es, marker) == es,
    decreases ls.len(),
{
    if ls.len() > 0 {
        lemma_kept_all(ls.drop_last(), es.drop_last(), marker);
        assert(!contains_text(ls[ls.len() - 1], marker));
        assert(ls.drop_last().push(ls.last()) =~= ls);
        assert(es.drop_last().push(es.last()) =~= es);
    }
}

/// A file with no import of the shared module and no reference outside its
/// import lines comes back unchanged, byte for byte.
pub proof fn lemma_imports_unchanged(content: Seq<char>, module: Seq<char>)
    requires
        forall|i: int|
            0 <= i < lines_from(content, 0).len() ==> !contains_text(
                #[trigger] lines_from(content, 0)[i],
                import_marker(import_source(module)),
            ),
        refs_of_lines(lines_from(content, 0)).len() == 0,
    ensures
        imports_updated(content, module) == content,
{
    lemma_lines_cover(content, 0);
    lemma_kept_all(lines_from(content, 0), ends_from(content, 0), import_marker(import_source(module)));
    let kb = lines_from(content, 0);
    assert(sorted_texts(refs_of_lines(kb)).len() == 0) by {
        broadcast use vstd::seq_lib::group_to_multiset_ensures;

        crate::text::lemma_text_leq_total();
        refs_of_lines(kb).lemma_sort_by_ensures(crate::text::text_order());
        assert(refs_of_lines(kb).to_multiset().len() == 0);
        assert(sorted_texts(refs_of_lines(kb)).to_multiset().len() == 0);
    }
    assert(content.subrange(0, content.len() as int) =~= content);
}

fn lit(s: &str) -> (r: Vec<char>)
    ensures
        r@ == s@,
{
    chars_of(s)
}

#[verifier::spinoff_prover]
fn strip_ts_suffix(s: &Vec<char>) -> (r: Vec<char>)
    ensures
        r@ == strip_ts(s@),
{
    let mut n: usize = s.len();
    proof {
        assert(s@.subrange(0, n as int) =~= s@);
    }
    while n >= 3 && s[n - 3] == '.' && s[n - 2] == 't' && s[n - 1] == 's'
        invariant
            n <= s@.len(),
            strip_ts(s@) == strip_ts(s@.subrange(0, n as int)),
        decreases n,
    {
        proof {
            let t = s@.subrange(0, n as int);
            assert(t.subrange(t.len() - 3, t.len() as int) =~= seq!['.', 't', 's']);
            assert(t.subrange(0, t.len() - 3) =~= s@.subrange(0, n - 3));
        }
        n = n - 3;
    }
    proof {
        let t = s@.subrange(0, n as int);
        if t.len() >= 3 && t.subrange(t.len() - 3, t.len() as int) == seq!['.', 't', 's'] {
            assert(t.subrange(t.len() - 3, t.len() as int)[0] == s@[n - 3]);
            assert(t.subrange(t.len() - 3, t.len() as int)[1] == s@[n - 2]);
            assert(t.subrange(t.len() - 3, t.len() as int)[2] == s@[n - 1]);
        }
    }
    crate::text::slice_vec(s, 0, n)
}

/// Splits a text into lines as `str::lines` does, with each line's ending.
fn split_lines(s: &Vec<char>) -> (r: (Vec<Vec<char>>, Vec<Vec<char>>))
    ensures
        texts(r.0@) == lines_from(s@, 0),
        texts(r.1@) == ends_from(s@, 0),
{
    let mut r: Vec<Vec<char>> = Vec::new();
    let mut ends: Vec<Vec<char>> = Vec::new();
    let mut p: usize = 0;
    while p < s.len()
        invariant
            p <= s@.len(),
            lines_from(s@, 0) == texts(r@) + lines_from(s@, p as int),
            ends_from(s@, 0) == texts(ends@) + ends_from(s@, p as int),
        decreases s@.len() - p,
    {
        let mut e: usize = p;
        while e < s.len() && s[e] != '\n'
            invariant
                p <= e <= s@.len(),
                line_break(s@, p as int) == line_break(s@, e as int),
            decreases s@.len() - e,
        {
            e = e + 1;
        }
        let ghost before = texts(r@);
        let ghost ebefore = texts(ends@);
        if e < s.len() {
            let line_end: usize = if e > p && s[e - 1] == '\r' {
                e - 1
            } else {
                e
            };
            r.push(crate::text::slice_vec(s, p, line_end));
            ends.push(crate::text::slice_vec(s, line_end, e + 1));
            proof {
                let lt = crate::scan::line_text(s@, p as int, e as int);
                assert(lt == s@.subrange(p as int, line_end as int));
                assert(texts(r@) =~= before.push(lt));
                assert(texts(ends@) =~= ebefore.push(s@.subrange(p + lt.len(), e + 1)));
                assert(lines_from(s@, p as int) =~= seq![lt] + lines_from(s@, e + 1));
                assert(ends_from(s@, p as int) =~= seq![s@.subrange(p + lt.len(), e + 1)] + ends_from(s@, e + 1));
                assert(before + lines_from(s@, p as int) =~= texts(r@) + lines_from(s@, e + 1));
                assert(ebefore + ends_from(s@, p as int) =~= texts(ends@) + ends_from(s@, e + 1));
            }
            p = e + 1;
        } else {
            r.push(crate::text::slice_vec(s, p, s.len()));
            ends.push(Vec::new());
            proof {
                assert(texts(r@) =~= before.push(s@.subrange(p as int, s@.len() as int)));
                assert(texts(ends@) =~= ebefore.push(Seq::<char>::empty()));
                assert(lines_from(s@, s@.len() as int) =~= Seq::<Seq<char>>::empty());
                assert(ends_from(s@, s@.len() as int) =~= Seq::<Seq<char>>::empty());
                assert(before + lines_from(s@, p as int) =~= texts(r@) + lines_from(s@, s@.len() as int));
                assert(ebefore + ends_from(s@, p as int) =~= texts(ends@) + ends_from(s@, s@.len() as int));
            }
            p = s.len();
        }
    }
    proof {
        assert(lines_from(s@, p as int) =~= Seq::<Seq<char>>::empty());
        assert(ends_from(s@, p as int) =~= Seq::<Seq<char>>::empty());
        assert(texts(r@) + Seq::<Seq<char>>::empty() =~= texts(r@));
        assert(texts(ends@) + Seq::<Seq<char>>::empty() =~= texts(ends@));
    }
    (r, ends)
}

/// Appends lines `lo..hi`, each followed by its ending.
fn append_lines(out: &mut Vec<char>, b: &Vec<Vec<char>>, e: &Vec<Vec<char>>, lo: usize, hi: usize)
    requires
        lo <= hi <= b@.len(),
        b@.len() == e@.len(),
    ensures
        final(out)@ == old(out)@ + concat_range(texts(b@), texts(e@), lo as int, hi as int),
{
    let ghost o0 = out@;
    let mut i: usize = lo;
    while i < hi
        invariant
            lo <= i <= hi <= b@.len(),
            b@.len() == e@.len(),
            out@ == o0 + concat_range(texts(b@), texts(e@), lo as int, i as int),
        decreases hi - i,
    {
        append_chars(out, &b[i]);
        append_chars(out, &e[i]);
        proof {
            assert(out@ =~= o0 + concat_range(texts(b@), texts(e@), lo as int, i + 1));
        }
        i = i + 1;
    }
}

fn contains_chars(l: &Vec<char>, p: &Vec<char>) -> (r: bool)
    ensures
        r == contains_text(l@, p@),
{
    let mut k: usize = 0;
    while k < l.len()
        invariant
            k <= l@.len(),
            forall|j: int| 0 <= j < k ==> !#[trigger] has_at(l@, j, p@),
        decreases l@.len() - k,
    {
        if matches_at(l, k, p) {
            return true;
        }
        k = k + 1;
    }
    let last = matches_at(l, k, p);
    proof {
        if !last {
            assert forall|j: int| !#[trigger] has_at(l@, j, p@) by {
                if 0 <= j && j < k {
                }
            }
        }
    }
    last
}

fn hex_run_end(l: &Vec<char>, j0: usize) -> (r: usize)
    requires
        j0 <= l@.len(),
    ensures
        r == hex_end(l@, j0 as int),
        j0 <= r <= l@.len(),
{
    let mut j: usize = j0;
    while j < l.len() && is_hex_digit(l[j])
        invariant
            j0 <= j <= l@.len(),
            hex_end(l@, j0 as int) == hex_end(l@, j as int),
        decreases l@.len() - j,
    {
        j = j + 1;
    }
    j
}

/// Appends the references that line `l` holds.
fn collect_line_refs(l: &Vec<char>, out: &mut Vec<Vec<char>>)
    ensures
        texts(final(out)@) == texts(old(out)@) + line_refs(l@, 0),
{
    let mut i: usize = 0;
    while i < l.len() && l.len() - i > 3
        invariant
            i <= l@.len(),
            texts(out@) + line_refs(l@, i as int) == texts(old(out)@) + line_refs(l@, 0),
        decreases l@.len() - i,
    {
        if l[i] == 'x' && l[i + 1] == '_' {
            let j = hex_run_end(l, i + 2);
            let ghost before = texts(out@);
            if j - i >= 4 {
                out.push(crate::text::slice_vec(l, i, j));
                proof {
                    assert(texts(out@) =~= before.push(l@.subrange(i as int, j as int)));
                    assert(before + line_refs(l@, i as int) =~= texts(out@) + line_refs(l@, j as int));
                }
            } else {
                proof {
                    assert(line_refs(l@, i as int) =~= line_refs(l@, j as int));
                }
            }
            i = j;
        } else {
            i = i + 1;
        }
    }
    proof {
        assert(line_refs(l@, i as int) =~= Seq::<Seq<char>>::empty());
        assert(texts(out@) + Seq::<Seq<char>>::empty() =~= texts(out@));
    }
}

fn dedup_sorted(v: &Vec<Vec<char>>) -> (r: Vec<Vec<char>>)
    ensures
        texts(r@) == dedup_adj(texts(v@)),
{
    let mut r: Vec<Vec<char>> = Vec::new();
    let mut i: usize = 0;
    while i < v.len()
        invariant
            i <= v@.len(),
            texts(r@) == dedup_adj(texts(v@).take(i as int)),
            i > 0 ==> r@.len() > 0 && r@.last()@ == v@[i - 1]@,
        decreases v@.len() - i,
    {
        let ghost t = texts(v@).take(i + 1);
        proof {
            assert(t.drop_last() =~= texts(v@).take(i as int));
        }
        if i == 0 || !same_text(&r[r.len() - 1], &v[i]) {
            let x = v[i].clone();
            r.push(x);
            proof {
                assert(texts(r@) =~= dedup_adj(texts(v@).take(i as int)).push(v@[i as int]@));
                if i == 0 {
                    assert(t =~= seq![v@[0]@]);
                }
            }
        }
        i = i + 1;
    }
    proof {
        assert(texts(v@).take(v@.len() as int) =~= texts(v@));
    }
    r
}

/// Joins texts with `sep` between neighbours.
fn join_sep(v: &Vec<Vec<char>>, sep: &Vec<char>) -> (r: Vec<char>)
    ensures
        r@ == join_by(texts(v@), sep@),
{
    let mut r: Vec<char> = Vec::new();
    let mut i: usize = 0;
    while i < v.len()
        invariant
            i <= v@.len(),
            r@ == join_by(texts(v@).take(i as int), sep@),
        decreases v@.len() - i,
    {
        proof {
            assert(texts(v@).take(i + 1).drop_last() =~= texts(v@).take(i as int));
        }
        if i > 0 {
            append_chars(&mut r, sep);
        }
        append_chars(&mut r, &v[i]);
        proof {
            if i == 0 {
                assert(r@ =~= texts(v@).take(1)[0]);
            }
        }
        i = i + 1;
    }
    proof {
        assert(texts(v@).take(v@.len() as int) =~= texts(v@));
    }
    r
}

/// Rewrites the import of the shared module in a file's text: existing
/// imports of it are removed; when the text uses references, one import of
/// all of them, sorted and distinct, goes after the leading imports.
pub fn update_imports_chars(content: &Vec<char>, module: &Vec<char>) -> (r: Vec<char>)
    ensures
        r@ == imports_updated(content@, module@),
{
    proof {
        reveal_strlit("./");
        reveal_strlit("from \"");
        reveal_strlit("\"");
        reveal_strlit("import ");
        reveal_strlit("export ");
        reveal_strlit("const ");
        reveal_strlit("import { ");
        reveal_strlit(" } ");
        reveal_strlit(";");
        reveal_strlit(", ");
    }
    let mut src = lit("./");
    let base = strip_ts_suffix(module);
    append_chars(&mut src, &base);
    let mut marker = lit("from \"");
    append_chars(&mut marker, &src);
    let quote = lit("\"");
    append_chars(&mut marker, &quote);
    proof {
        assert(src@ =~= import_source(module@));
        assert(marker@ =~= import_marker(src@));
    }
    let (lines, ends) = split_lines(content);
    proof {
        lemma_lines_cover(content@, 0);
    }
    let mut kept: Vec<Vec<char>> = Vec::new();
    let mut kends: Vec<Vec<char>> = Vec::new();
    let mut i: usize = 0;
    while i < lines.len()
        invariant
            i <= lines@.len(),
            lines@.len() == ends@.len(),
            kept@.len() == kends@.len(),
            texts(kept@) == kept_lines(texts(lines@).take(i as int), marker@),
            texts(kends@) == kept_ends(texts(lines@).take(i as int), texts(ends@).take(i as int), marker@),
        decreases lines@.len() - i,
    {
        proof {
            assert(texts(lines@).take(i + 1).drop_last() =~= texts(lines@).take(i as int));
            assert(texts(ends@).take(i + 1).drop_last() =~= texts(ends@).take(i as int));
        }
        if !contains_chars(&lines[i], &marker) {
            kept.push(lines[i].clone());
            kends.push(ends[i].clone());
            proof {
                assert(texts(kept@) =~= kept_lines(texts(lines@).take(i as int), marker@).push(
                    lines@[i as int]@,
                ));
                assert(texts(kends@) =~= kept_ends(texts(lines@).take(i as int), texts(ends@).take(i as int), marker@).push(
                    ends@[i as int]@,
                ));
            }
        }
        i = i + 1;
    }
    proof {
        assert(texts(lines@).take(lines@.len() as int) =~= texts(lines@));
        assert(texts(ends@).take(ends@.len() as int) =~= texts(ends@));
    }
    let kw_imp = lit("import ");
    let mut refs: Vec<Vec<char>> = Vec::new();
    let mut i: usize = 0;
    while i < kept.len()
        invariant
            i <= kept@.len(),
            kw_imp@ == kw_import(),
            texts(refs@) == refs_of_lines(texts(kept@).take(i as int)),
        decreases kept@.len() - i,
    {
        proof {
            assert(texts(kept@).take(i + 1).drop_last() =~= texts(kept@).take(i as int));
            assert(kw_imp@ =~= kw_import());
        }
        if !matches_at(&kept[i], 0, &kw_imp) {
            collect_line_refs(&kept[i], &mut refs);
        }
        i = i + 1;
    }
    proof {
        assert(texts(kept@).take(kept@.len() as int) =~= texts(kept@));
    }
    let names = dedup_sorted(&sort_texts(refs));
    if names.len() == 0 {
        let mut r: Vec<char> = Vec::new();
        append_lines(&mut r, &kept, &kends, 0, kept.len());
        return r;
    }
    let mut line = lit("import { ");
    let sep = lit(", ");
    let listed = join_sep(&names, &sep);
    append_chars(&mut line, &listed);
    let close = lit(" } ");
    append_chars(&mut line, &close);
    append_chars(&mut line, &marker);
    let semi = lit(";");
    append_chars(&mut line, &semi);
    proof {
        assert(sep@ =~= seq![',', ' ']);
        assert(line@ =~= import_line(texts(names@), src@));
    }
    let kw_exp = lit("export ");
    let kw_con = lit("const ");
    let mut pos: usize = 0;
    let mut k: usize = 0;
    let mut stop = false;
    while k < kept.len() && !stop
        invariant
            k <= kept@.len(),
            pos <= k,
            stop ==> insert_pos(texts(kept@), 0, 0) == pos,
            kw_imp@ == kw_import(),
            kw_exp@ == kw_export(),
            kw_con@ == kw_const(),
            !stop ==> insert_pos(texts(kept@), 0, 0) == insert_pos(
                texts(kept@),
                k as int,
                pos as int,
            ),
        decreases kept@.len() - k + (if stop {
            0int
        } else {
            1int
        }),
    {
        proof {
            assert(kw_exp@ =~= kw_export());
            assert(kw_con@ =~= kw_const());
        }
        if matches_at(&kept[k], 0, &kw_imp) {
            pos = k + 1;
            k = k + 1;
        } else if matches_at(&kept[k], 0, &kw_exp) || matches_at(&kept[k], 0, &kw_con) {
            stop = true;
        } else {
            k = k + 1;
        }
    }
    let mut r: Vec<char> = Vec::new();
    append_lines(&mut r, &kept, &kends, 0, pos);
    if pos > 0 && kends[pos - 1].len() == 0 {
        r.push('\n');
        append_chars(&mut r, &line);
    } else {
        append_chars(&mut r, &line);
        r.push('\n');
    }
    proof {
        assert(r@ =~= concat_range(texts(kept@), texts(kends@), 0, pos as int) + inserted(
            texts(kends@),
            pos as int,
            line@,
        ));
    }
    append_lines(&mut r, &kept, &kends, pos, kept.len());
    r
}

/// Rewrites the import of the shared module `shared_module_name` in a file.
pub fn update_imports(content: &str, shared_module_name: &str) -> (r: String)
    ensures
        r@ == imports_updated(content@, shared_module_name@),
        (forall|i: int|
            0 <= i < lines_from(content@, 0).len() ==> !contains_text(
                #[trigger] lines_from(content@, 0)[i],
                import_marker(import_source(shared_module_name@)),
            )) && refs_of_lines(lines_from(content@, 0)).len() == 0 ==> r@ == content@,
{
    proof {
        if (forall|i: int|
            0 <= i < lines_from(content@, 0).len() ==> !contains_text(
                #[trigger] lines_from(content@, 0)[i],
                import_marker(import_source(shared_module_name@)),
            )) && refs_of_lines(lines_from(content@, 0)).len() == 0 {
            lemma_imports_unchanged(content@, shared_module_name@);
        }
    }
    let c = chars_of(content);
    let m = chars_of(shared_module_name);
    let r = update_imports_chars(&c, &m);
    string_of(r.as_slice())
}

/// The references that a canonical text holds: `x_` and at least two hex
/// digits, scanning from `i`.
pub open spec fn deps_from(s: Seq<char>, i: int) -> Seq<Seq<char>>
    decreases s.len() - i,
{
    if i < 0 || i >= s.len() {
        Seq::empty()
    } else if s[i] == 'x' && i + 1 < s.len() && s[i + 1] == '_' {
        let j = hex_end(s, i + 2);
        let found: Seq<Seq<char>> = if j - i >= 4 {
            seq![s.subrange(i, j)]
        } else {
            Seq::empty()
        };
        if i < j <= s.len() {
            found + deps_from(s, j)
        } else {
            found
        }
    } else {
        deps_from(s, i + 1)
    }
}

/// The references a canonical text holds, in order.
pub fn deps_chars(s: &Vec<char>) -> (r: Vec<Vec<char>>)
    ensures
        texts(r@) == deps_from(s@, 0),
{
    let mut r: Vec<Vec<char>> = Vec::new();
    let mut i: usize = 0;
    while i < s.len()
        invariant
            i <= s@.len(),
            texts(r@) + deps_from(s@, i as int) == deps_from(s@, 0),
        decreases s@.len() - i,
    {
        if s[i] == 'x' && i + 1 < s.len() && s[i + 1] == '_' {
            let j = hex_run_end(s, i + 2);
            let ghost before = texts(r@);
            if j - i >= 4 {
                r.push(crate::text::slice_vec(s, i, j));
                proof {
                    assert(texts(r@) =~= before.push(s@.subrange(i as int, j as int)));
                    assert(before + deps_from(s@, i as int) =~= texts(r@) + deps_from(s@, j as int));
                }
            } else {
                proof {
                    assert(deps_from(s@, i as int) =~= deps_from(s@, j as int));
                }
            }
            i = j;
        } else {
            i = i + 1;
        }
    }
    proof {
        assert(deps_from(s@, i as int) =~= Seq::<Seq<char>>::empty());
        assert(texts(r@) + Seq::<Seq<char>>::empty() =~= texts(r@));
    }
    r
}

/// The references (`x_` and at least two hex digits) that a canonical text
/// holds, in order of appearance.
pub fn get_deps(normalized: &str) -> (r: Vec<String>)
    ensures
        r@.map_values(|x: String| x@) == deps_from(normalized@, 0),
{
    let s = chars_of(normalized);
    let d = deps_chars(&s);
    let mut r: Vec<String> = Vec::new();
    let mut i: usize = 0;
    while i < d.len()
        invariant
            i <= d@.len(),
            r@.len() == i,
            forall|k: int| 0 <= k < i ==> #[trigger] r@[k]@ == d@[k]@,
        decreases d@.len() - i,
    {
        r.push(string_of(d[i].as_slice()));
        i = i + 1;
    }
    proof {
        assert(r@.map_values(|x: String| x@) =~= texts(d@));
    }
    r
}

/// Number of `false` entries.
pub open spec fn count_false(v: Seq<bool>) -> nat
    decreases v.len(),
{
    if v.len() == 0 {
        0
    } else {
        count_false(v.drop_last()) + if v.last() {
            0nat
        } else {
            1nat
        }
    }
}

proof fn lemma_count_false_mono(a: Seq<bool>, b: Seq<bool>)
    requires
        a.len() == b.len(),
        forall|i: int| 0 <= i < a.len() ==> a[i] ==> b[i],
    ensures
        count_false(b) <= count_false(a),
    decreases a.len(),
{
    if a.len() > 0 {
        lemma_count_false_mono(a.drop_last(), b.drop_last());
    }
}

proof fn lemma_count_false_set(a: Seq<bool>, i: int)
    requires
        0 <= i < a.len(),
        !a[i],
    ensures
        count_false(a.update(i, true)) + 1 == count_false(a),
    decreases a.len(),
{
    if i < a.len() - 1 {
        assert(a.update(i, true).drop_last() =~= a.drop_last().update(i, true));
        lemma_count_false_set(a.drop_last(), i);
    } else {
        assert(a.update(i, true).drop_last() =~= a.drop_last());
    }
}

/// Index of the first entry named `name`.
pub(crate) fn find_name(names: &Vec<Vec<char>>, name: &Vec<char>) -> (r: Option<usize>)
    ensures
        r matches Some(i) ==> i < names@.len() && names@[i as int]@ == name@ && forall|j: int|
            0 <= j < i ==> names@[j]@ != name@,
        r is None ==> forall|i: int| 0 <= i < names@.len() ==> names@[i]@ != name@,
{
    let mut i: usize = 0;
    while i < names.len()
        invariant
            i <= names@.len(),
            forall|k: int| 0 <= k < i ==> names@[k]@ != name@,
        decreases names@.len() - i,
    {
        if same_text(&names[i], name) {
            return Some(i);
        }
        i = i + 1;
    }
    None
}

/// Entry `j` is the entry that reference `d` names: the first entry with
/// that name.
pub open spec fn resolves(v: Seq<(Seq<char>, Seq<char>)>, d: Seq<char>, j: int) -> bool {
    0 <= j < v.len() && v[j].1 == d && first_of_name(v, j)
}

/// Entry `i`'s canonical text references entry `j`.
pub open spec fn depends_on(v: Seq<(Seq<char>, Seq<char>)>, i: int, j: int) -> bool {
    0 <= i < v.len() && exists|q: int|
        0 <= q < deps_from(v[i].0, 0).len() && #[trigger] resolves(v, deps_from(v[i].0, 0)[q], j)
}

/// Every reference names an entry created before the referencing one.
pub open spec fn refs_point_back(v: Seq<(Seq<char>, Seq<char>)>) -> bool {
    forall|i: int, j: int| #[trigger] depends_on(v, i, j) ==> j < i
}

/// Every entry that the entry at position `k` of `o` references comes
/// earlier in `o`.
pub open spec fn deps_first(v: Seq<(Seq<char>, Seq<char>)>, o: Seq<usize>, k: int) -> bool {
    forall|j: int| #[trigger] depends_on(v, o[k] as int, j) ==> exists|k2: int| 0 <= k2 < k && o[k2] == j
}

proof fn lemma_deps_first_prefix(v: Seq<(Seq<char>, Seq<char>)>, o: Seq<usize>, o2: Seq<usize>, k: int)
    requires
        0 <= k < o.len(),
        o.is_prefix_of(o2),
        deps_first(v, o, k),
    ensures
        deps_first(v, o2, k),
{
    assert forall|j: int| #[trigger] depends_on(v, o2[k] as int, j) implies exists|k2: int|
        0 <= k2 < k && o2[k2] == j by {
        assert(o2[k] == o[k]);
        let k2 = choose|k2: int| 0 <= k2 < k && o[k2] == j;
        assert(o2[k2] == o[k2]);
    }
}

proof fn lemma_first_of_name_unique(v: Seq<(Seq<char>, Seq<char>)>, d: Seq<char>, a: int, b: int)
    requires
        resolves(v, d, a),
        resolves(v, d, b),
    ensures
        a == b,
{
    if a < b {
        assert(v[a].1 != v[b].1);
    } else if b < a {
        assert(v[b].1 != v[a].1);
    }
}

/// The entry a reference names, if any: the first entry with that name.
pub open spec fn lookup(v: Seq<(Seq<char>, Seq<char>)>, d: Seq<char>) -> Option<int> {
    if exists|j: int| resolves(v, d, j) {
        Some(choose|j: int| resolves(v, d, j))
    } else {
        None
    }
}

/// Depth-first visit of entry `idx` from visited flags `vis` and emitted
/// entries `ord`: unless visited, the entry is flagged, the entries its
/// text references are visited in order, and then it is emitted.
pub open spec fn dfs(v: Seq<(Seq<char>, Seq<char>)>, idx: int, vis: Seq<bool>, ord: Seq<usize>) -> (
    Seq<bool>,
    Seq<usize>,
)
    decreases count_false(vis), 2int, 0int,
{
    if !(0 <= idx < vis.len()) || vis[idx] {
        (vis, ord)
    } else {
        let r = dfs_deps(
            v,
            deps_from(v[idx].0, 0),
            0,
            vis.update(idx, true),
            ord,
            count_false(vis),
        );
        (r.0, r.1.push(idx as usize))
    }
}

/// Visits the entries referenced by `ds[q..]` in order; `bound` caps the
/// unvisited count.
pub open spec fn dfs_deps(
    v: Seq<(Seq<char>, Seq<char>)>,
    ds: Seq<Seq<char>>,
    q: int,
    vis: Seq<bool>,
    ord: Seq<usize>,
    bound: nat,
) -> (Seq<bool>, Seq<usize>)
    decreases bound, 1int, ds.len() - q,
{
    if q < 0 || q >= ds.len() || count_false(vis) >= bound {
        (vis, ord)
    } else {
        let r = match lookup(v, ds[q]) {
            Some(d) => dfs(v, d, vis, ord),
            None => (vis, ord),
        };
        dfs_deps(v, ds, q + 1, r.0, r.1, bound)
    }
}

/// The depth-first visits started from the entries named by `ns[0..k)`.
pub open spec fn dfs_all(v: Seq<(Seq<char>, Seq<char>)>, ns: Seq<Seq<char>>, k: int) -> (
    Seq<bool>,
    Seq<usize>,
)
    decreases k,
{
    if k <= 0 {
        (Seq::new(v.len(), |i: int| false), Seq::empty())
    } else {
        let r = dfs_all(v, ns, k - 1);
        match lookup(v, ns[k - 1]) {
            Some(i) => dfs(v, i, r.0, r.1),
            None => r,
        }
    }
}

/// The emission order: depth-first visits from every distinct name in
/// ascending order.
pub open spec fn emission(v: Seq<(Seq<char>, Seq<char>)>) -> Seq<usize> {
    let ns = dedup_adj(sorted_texts(v.map_values(|e: (Seq<char>, Seq<char>)| e.1)));
    dfs_all(v, ns, ns.len() as int).1
}

proof fn lemma_lookup(v: Seq<(Seq<char>, Seq<char>)>, d: Seq<char>, j: int)
    requires
        resolves(v, d, j),
    ensures
        lookup(v, d) == Some(j),
{
    let c = choose|c: int| resolves(v, d, c);
    lemma_first_of_name_unique(v, d, c, j);
}

/// Depth-first visit of entry `idx`: its dependencies are emitted first,
/// then the entry itself.
fn visit(
    idx: usize,
    names: &Vec<Vec<char>>,
    canon: &Vec<Vec<char>>,
    visited: &mut Vec<bool>,
    order: &mut Vec<usize>,
    Ghost(v): Ghost<Seq<(Seq<char>, Seq<char>)>>,
)
    requires
        idx < names@.len(),
        canon@.len() == names@.len(),
        old(visited)@.len() == names@.len(),
        forall|k: int| 0 <= k < old(order)@.len() ==> #[trigger] old(order)@[k] < names@.len(),
        v.len() == names@.len(),
        forall|k: int| 0 <= k < v.len() ==> #[trigger] v[k] == (canon@[k]@, names@[k]@),
        forall|k: int| 0 <= k < old(order)@.len() ==> old(visited)@[#[trigger] old(order)@[k] as int],
        refs_point_back(v) ==> forall|x: int|
            0 <= x < names@.len() && old(visited)@[x] && !old(order)@.contains(x as usize) ==> x > idx,
    ensures
        (final(visited)@, final(order)@) == dfs(v, idx as int, old(visited)@, old(order)@),
        forall|k: int| 0 <= k < final(order)@.len() ==> final(visited)@[#[trigger] final(order)@[k] as int],
        refs_point_back(v) ==> final(order)@.contains(idx),
        refs_point_back(v) ==> forall|x: int|
            0 <= x < names@.len() && final(visited)@[x] && !final(order)@.contains(x as usize)
                ==> old(visited)@[x] && !old(order)@.contains(x as usize),
        refs_point_back(v) ==> forall|k: int|
            old(order)@.len() <= k < final(order)@.len() ==> #[trigger] deps_first(v, final(order)@, k),
        final(visited)@.len() == old(visited)@.len(),
        forall|i: int| 0 <= i < old(visited)@.len() ==> old(visited)@[i] ==> final(visited)@[i],
        final(visited)@[idx as int],
        old(order)@.is_prefix_of(final(order)@),
        forall|k: int|
            old(order)@.len() <= k < final(order)@.len() ==> {
                let x = #[trigger] final(order)@[k];
                &&& x < names@.len()
                &&& !old(visited)@[x as int]
                &&& final(visited)@[x as int]
                &&& forall|k2: int| old(order)@.len() <= k2 < k ==> final(order)@[k2] != x
            },
        forall|x: int|
            0 <= x < names@.len() && final(visited)@[x] && !old(visited)@[x] ==> exists|k: int|
                old(order)@.len() <= k < final(order)@.len() && #[trigger] final(order)@[k] == x,
    decreases count_false(old(visited)@),
{
    if visited[idx] {
        return;
    }
    let ghost v0 = visited@;
    let ghost o0 = order@;
    proof {
        if o0.contains(idx) {
            let q = choose|q: int| 0 <= q < o0.len() && o0[q] == idx;
            assert(v0[o0[q] as int]);
        }
    }
    proof {
        lemma_count_false_set(visited@, idx as int);
    }
    visited.set(idx, true);
    let deps = deps_chars(&canon[idx]);
    let mut k: usize = 0;
    while k < deps.len()
        invariant
            idx < names@.len(),
            canon@.len() == names@.len(),
            visited@.len() == names@.len(),
            v0.len() == names@.len(),
            v0 == old(visited)@,
            o0 == old(order)@,
            count_false(visited@) < count_false(v0),
            !v0[idx as int],
            visited@[idx as int],
            forall|i: int| 0 <= i < v0.len() ==> v0[i] ==> visited@[i],
            o0.is_prefix_of(order@),
            forall|j: int|
                o0.len() <= j < order@.len() ==> {
                    let x = #[trigger] order@[j];
                    &&& x < names@.len()
                    &&& !v0[x as int]
                    &&& visited@[x as int]
                    &&& x != idx
                    &&& forall|j2: int| o0.len() <= j2 < j ==> order@[j2] != x
                },
            forall|x: int|
                0 <= x < names@.len() && visited@[x] && !v0[x] && x != idx ==> exists|j: int|
                    o0.len() <= j < order@.len() && #[trigger] order@[j] == x,
            forall|j: int| 0 <= j < order@.len() ==> #[trigger] order@[j] < names@.len(),
            v.len() == names@.len(),
            forall|q: int| 0 <= q < v.len() ==> #[trigger] v[q] == (canon@[q]@, names@[q]@),
            texts(deps@) == deps_from(v[idx as int].0, 0),
            k <= deps@.len(),
            !o0.contains(idx),
            forall|j: int| 0 <= j < order@.len() ==> visited@[#[trigger] order@[j] as int],
            refs_point_back(v) ==> forall|x: int|
                0 <= x < v0.len() && v0[x] && !o0.contains(x as usize) ==> x > idx,
            refs_point_back(v) ==> forall|q: int, j: int|
                0 <= q < k && #[trigger] resolves(v, texts(deps@)[q], j) ==> order@.contains(j as usize),
            refs_point_back(v) ==> forall|x: int|
                0 <= x < names@.len() && visited@[x] && !order@.contains(x as usize) ==> x == idx || (v0[x]
                    && !o0.contains(x as usize)),
            refs_point_back(v) ==> forall|k2: int|
                o0.len() <= k2 < order@.len() ==> #[trigger] deps_first(v, order@, k2),
            dfs_deps(v, texts(deps@), 0, v0.update(idx as int, true), o0, count_false(v0)) == dfs_deps(
                v,
                texts(deps@),
                k as int,
                visited@,
                order@,
                count_false(v0),
            ),
        decreases deps@.len() - k,
    {
        let ghost o_before = order@;
        let ghost vis_before = visited@;
        proof {
            assert(texts(deps@)[k as int] == deps@[k as int]@);
        }
        match find_name(names, &deps[k]) {
            Some(d) => {
                let ghost v1 = visited@;
                let ghost o1 = order@;
                proof {
                    lemma_count_false_mono(v0.update(idx as int, true), v1);
                    assert forall|i: int| 0 <= i < v0.len() implies v0.update(idx as int, true)[i]
                        ==> v1[i] by {}
                }
                proof {
                    if refs_point_back(v) {
                        assert(resolves(v, texts(deps@)[k as int], d as int)) by {
                            assert(texts(deps@)[k as int] == deps@[k as int]@);
                            assert forall|y: int| 0 <= y < d implies v[y].1 != v[d as int].1 by {
                                assert(names@[y]@ != deps@[k as int]@);
                            }
                        }
                        assert(depends_on(v, idx as int, d as int));
                        assert(d < idx);
                        assert forall|x: int|
                            0 <= x < names@.len() && visited@[x] && !order@.contains(x as usize) implies x > d by {
                            if x != idx {
                                assert(v0[x] && !o0.contains(x as usize));
                            }
                        }
                    }
                }
                proof {
                    assert(resolves(v, texts(deps@)[k as int], d as int)) by {
                        assert forall|y: int| 0 <= y < d implies v[y].1 != v[d as int].1 by {
                            assert(names@[y]@ != deps@[k as int]@);
                        }
                    }
                    lemma_lookup(v, texts(deps@)[k as int], d as int);
                }
                visit(d, names, canon, visited, order, Ghost(v));
                proof {
                    assert(dfs_deps(v, texts(deps@), k as int, vis_before, o_before, count_false(v0))
                        == dfs_deps(v, texts(deps@), k + 1, visited@, order@, count_false(v0)));
                    if refs_point_back(v) {
                        assert forall|q: int, j: int|
                            0 <= q < k + 1 && #[trigger] resolves(v, texts(deps@)[q], j) implies order@.contains(j as usize) by {
                            if q < k {
                                assert(o_before.contains(j as usize));
                                let p = choose|p: int| 0 <= p < o_before.len() && o_before[p] == j as usize;
                                assert(order@[p] == o_before[p]);
                            } else {
                                assert(resolves(v, texts(deps@)[k as int], d as int)) by {
                                    assert(texts(deps@)[k as int] == deps@[k as int]@);
                                    assert forall|y: int| 0 <= y < d implies v[y].1 != v[d as int].1 by {
                                        assert(names@[y]@ != deps@[k as int]@);
                                    }
                                }
                                lemma_first_of_name_unique(v, texts(deps@)[q], j, d as int);
                            }
                        }
                        assert forall|x: int|
                            0 <= x < names@.len() && visited@[x] && !order@.contains(x as usize) implies x == idx || (v0[x]
                                && !o0.contains(x as usize)) by {
                            if vis_before[x] && !o_before.contains(x as usize) {
                            } else if !vis_before[x] {
                            } else {
                                let p = choose|p: int| 0 <= p < o_before.len() && o_before[p] == x as usize;
                                assert(order@[p] == o_before[p]);
                            }
                        }
                        assert forall|k2: int| o0.len() <= k2 < order@.len() implies #[trigger] deps_first(v, order@, k2) by {
                            if k2 < o_before.len() {
                                lemma_deps_first_prefix(v, o_before, order@, k2);
                            }
                        }
                    }
                    assert forall|j: int| 0 <= j < order@.len() implies visited@[#[trigger] order@[j] as int] by {
                        if j < o_before.len() {
                            assert(order@[j] == o_before[j]);
                            assert(vis_before[o_before[j] as int]);
                        }
                    }
                    assert(!o0.contains(idx)) ;
                    assert forall|j: int| o0.len() <= j < order@.len() implies {
                        let x = #[trigger] order@[j];
                        &&& x < names@.len()
                        &&& !v0[x as int]
                        &&& visited@[x as int]
                        &&& x != idx
                        &&& forall|j2: int| o0.len() <= j2 < j ==> order@[j2] != x
                    } by {
                        if j < o1.len() {
                            assert(order@[j] == o1[j]);
                            assert forall|j2: int| o0.len() <= j2 < j implies order@[j2] != order@[j] by {
                                assert(order@[j2] == o1[j2]);
                            }
                        } else {
                            let x = order@[j];
                            assert(!v1[x as int]);
                            assert forall|j2: int| o0.len() <= j2 < j implies order@[j2] != x by {
                                if j2 < o1.len() {
                                    assert(order@[j2] == o1[j2]);
                                    assert(v1[o1[j2] as int]);
                                }
                            }
                        }
                    }
                    assert forall|x: int|
                        0 <= x < names@.len() && visited@[x] && !v0[x] && x != idx implies exists|j: int|
                            o0.len() <= j < order@.len() && #[trigger] order@[j] == x by {
                        if v1[x] {
                            let j = choose|j: int| o0.len() <= j < o1.len() && #[trigger] o1[j] == x;
                            assert(order@[j] == o1[j]);
                        }
                    }
                    assert forall|j: int| 0 <= j < order@.len() implies #[trigger] order@[j] < names@.len() by {
                        if j < o1.len() {
                            assert(order@[j] == o1[j]);
                        }
                    }
                    assert(o0.is_prefix_of(order@)) by {
                        assert forall|j: int| 0 <= j < o0.len() implies o0[j] == order@[j] by {
                            assert(o1[j] == o0[j]);
                        }
                    }
                    lemma_count_false_mono(v1, visited@);
                }
            },
            None => {
                proof {
                    if exists|j: int| resolves(v, texts(deps@)[k as int], j) {
                        let j = choose|j: int| resolves(v, texts(deps@)[k as int], j);
                        assert(names@[j]@ != deps@[k as int]@);
                    }
                    assert(lookup(v, texts(deps@)[k as int]) is None);
                    assert(dfs_deps(v, texts(deps@), k as int, vis_before, o_before, count_false(v0))
                        == dfs_deps(v, texts(deps@), k + 1, visited@, order@, count_false(v0)));
                    if refs_point_back(v) {
                        assert forall|q: int, j: int|
                            0 <= q < k + 1 && #[trigger] resolves(v, texts(deps@)[q], j) implies order@.contains(j as usize) by {
                            if q == k {
                                assert(texts(deps@)[k as int] == deps@[k as int]@);
                                assert(names@[j]@ != deps@[k as int]@);
                            }
                        }
                    }
                }
            },
        }
        k = k + 1;
    }
    let ghost o2 = order@;
    proof {
        assert(dfs_deps(v, texts(deps@), deps@.len() as int, visited@, order@, count_false(v0)) == (
        visited@, order@));
    }
    order.push(idx);
    proof {
        assert(order@[o2.len() as int] == idx);
        assert(order@.contains(idx));
        assert forall|j: int| 0 <= j < order@.len() implies visited@[#[trigger] order@[j] as int] by {
            if j < o2.len() {
                assert(order@[j] == o2[j]);
            }
        }
        if refs_point_back(v) {
            assert forall|x: int|
                0 <= x < names@.len() && visited@[x] && !order@.contains(x as usize) implies v0[x] && !o0.contains(x as usize) by {
                if !(v0[x] && !o0.contains(x as usize)) {
                    if x != idx {
                        assert(o2.contains(x as usize) ==> order@.contains(x as usize)) by {
                            if o2.contains(x as usize) {
                                let p = choose|p: int| 0 <= p < o2.len() && o2[p] == x as usize;
                                assert(order@[p] == o2[p]);
                            }
                        }
                    }
                }
            }
            assert forall|k2: int| o0.len() <= k2 < order@.len() implies #[trigger] deps_first(v, order@, k2) by {
                if k2 < o2.len() {
                    assert(o2.is_prefix_of(order@));
                    lemma_deps_first_prefix(v, o2, order@, k2);
                } else {
                    assert forall|j: int| #[trigger] depends_on(v, order@[k2] as int, j) implies exists|k3: int|
                        0 <= k3 < k2 && order@[k3] == j by {
                        let q = choose|q: int|
                            0 <= q < deps_from(v[idx as int].0, 0).len() && #[trigger] resolves(v, deps_from(v[idx as int].0, 0)[q], j);
                        assert(o2.contains(j as usize));
                        let p = choose|p: int| 0 <= p < o2.len() && o2[p] == j as usize;
                        assert(order@[p] == o2[p]);
                    }
                }
            }
        }
    }
    proof {
        assert forall|x: int|
            0 <= x < names@.len() && visited@[x] && !v0[x] implies exists|j: int|
                o0.len() <= j < order@.len() && #[trigger] order@[j] == x by {
            if x == idx {
                assert(order@[o2.len() as int] == x);
            } else {
                let j = choose|j: int| o0.len() <= j < o2.len() && #[trigger] o2[j] == x;
                assert(order@[j] == o2[j]);
            }
        }
        assert forall|j: int| o0.len() <= j < order@.len() implies {
            let x = #[trigger] order@[j];
            &&& x < names@.len()
            &&& !v0[x as int]
            &&& visited@[x as int]
            &&& forall|j2: int| o0.len() <= j2 < j ==> order@[j2] != x
        } by {
            if j < o2.len() {
                assert(order@[j] == o2[j]);
                assert forall|j2: int| o0.len() <= j2 < j implies order@[j2] != order@[j] by {
                    assert(order@[j2] == o2[j2]);
                }
            } else {
                assert forall|j2: int| o0.len() <= j2 < j implies order@[j2] != order@[j] by {
                    assert(order@[j2] == o2[j2]);
                }
            }
        }
        assert(o0.is_prefix_of(order@)) by {
            assert forall|j: int| 0 <= j < o0.len() implies o0[j] == order@[j] by {
                assert(o2[j] == o0[j]);
            }
        }
    }
}

/// Canonical text and name of each entry.
pub open spec fn entry_views(v: Seq<(String, ExtractedEntry)>) -> Seq<(Seq<char>, Seq<char>)> {
    v.map_values(|e: (String, ExtractedEntry)| (e.0@, e.1.name@))
}

/// No earlier entry has the name of entry `i`.
pub open spec fn first_of_name(v: Seq<(Seq<char>, Seq<char>)>, i: int) -> bool {
    forall|j: int| 0 <= j < i ==> v[j].1 != v[i].1
}

/// `o` lists entries of `v`, none twice, and every entry whose name no
/// earlier entry has.
pub open spec fn emission_order(v: Seq<(Seq<char>, Seq<char>)>, o: Seq<usize>) -> bool {
    &&& forall|k: int| 0 <= k < o.len() ==> #[trigger] o[k] < v.len()
    &&& forall|k1: int, k2: int| 0 <= k1 < k2 < o.len() ==> o[k1] != o[k2]
    &&& forall|i: int| 0 <= i < v.len() && #[trigger] first_of_name(v, i) ==> o.contains(i as usize)
}

/// The emission order of the entries: depth first, in ascending name order,
/// dependencies before the entries that reference them. Every entry whose
/// name is the first of its kind appears exactly once.
pub fn topo_order(entries: &Vec<(String, ExtractedEntry)>) -> (r: Vec<usize>)
    ensures
        emission_order(entry_views(entries@), r@),
        r@ == emission(entry_views(entries@)),
        refs_point_back(entry_views(entries@)) ==> forall|k: int|
            0 <= k < r@.len() ==> #[trigger] deps_first(entry_views(entries@), r@, k),
{
    let mut names: Vec<Vec<char>> = Vec::new();
    let mut name_list: Vec<Vec<char>> = Vec::new();
    let mut canon: Vec<Vec<char>> = Vec::new();
    let mut visited: Vec<bool> = Vec::new();
    let mut i: usize = 0;
    while i < entries.len()
        invariant
            i <= entries@.len(),
            names@.len() == i,
            name_list@.len() == i,
            canon@.len() == i,
            forall|k: int| 0 <= k < i ==> #[trigger] name_list@[k]@ == entries@[k].1.name@,
            forall|k: int| 0 <= k < i ==> #[trigger] canon@[k]@ == entries@[k].0@,
            visited@.len() == i,
            forall|k: int| 0 <= k < i ==> #[trigger] names@[k]@ == entries@[k].1.name@,
            forall|k: int| 0 <= k < i ==> !#[trigger] visited@[k],
        decreases entries@.len() - i,
    {
        names.push(chars_of(entries[i].1.name.as_str()));
        name_list.push(chars_of(entries[i].1.name.as_str()));
        canon.push(chars_of(entries[i].0.as_str()));
        visited.push(false);
        i = i + 1;
    }
    proof {
        assert(texts(name_list@) =~= texts(names@));
    }
    let sorted = dedup_sorted(&sort_texts(name_list));
    let ghost v = entry_views(entries@);
    let ghost ns = dedup_adj(sorted_texts(v.map_values(|e: (Seq<char>, Seq<char>)| e.1)));
    proof {
        assert forall|q: int| 0 <= q < v.len() implies #[trigger] v[q] == (canon@[q]@, names@[q]@) by {}
        assert(v.map_values(|e: (Seq<char>, Seq<char>)| e.1) =~= texts(names@));
        assert(texts(sorted@) == ns);
        assert(visited@ =~= Seq::new(v.len(), |i: int| false));
    }
    let mut order: Vec<usize> = Vec::new();
    proof {
        assert(order@ =~= Seq::<usize>::empty());
    }
    let mut k: usize = 0;
    while k < sorted.len()
        invariant
            v == entry_views(entries@),
            ns == texts(sorted@),
            (visited@, order@) == dfs_all(v, ns, k as int),
            forall|q: int| 0 <= q < v.len() ==> #[trigger] v[q] == (canon@[q]@, names@[q]@),
            refs_point_back(v) ==> forall|q: int| 0 <= q < order@.len() ==> #[trigger] deps_first(v, order@, q),
            names@.len() == entries@.len(),
            canon@.len() == entries@.len(),
            visited@.len() == entries@.len(),
            forall|j: int| 0 <= j < entries@.len() ==> #[trigger] names@[j]@ == entries@[j].1.name@,
            forall|j: int| 0 <= j < order@.len() ==> #[trigger] order@[j] < entries@.len(),
            forall|j1: int, j2: int| 0 <= j1 < j2 < order@.len() ==> order@[j1] != order@[j2],
            forall|x: int|
                0 <= x < entries@.len() ==> (visited@[x] <==> exists|j: int|
                    0 <= j < order@.len() && #[trigger] order@[j] == x),
            k <= sorted@.len(),
            forall|x: int, j: int|
                #![trigger sorted@[j], visited@[x]]
                0 <= x < entries@.len() && 0 <= j < k && sorted@[j]@ == names@[x]@ && (forall|y: int|
                    0 <= y < x ==> names@[y]@ != names@[x]@) ==> visited@[x],
        decreases sorted@.len() - k,
    {
        proof {
            assert(ns[k as int] == sorted@[k as int]@);
        }
        match find_name(&names, &sorted[k]) {
            Some(idx) => {
                let ghost v1 = visited@;
                let ghost o1 = order@;
                proof {
                    assert(resolves(v, ns[k as int], idx as int)) by {
                        assert forall|y: int| 0 <= y < idx implies v[y].1 != v[idx as int].1 by {
                            assert(names@[y]@ != sorted@[k as int]@);
                        }
                    }
                    lemma_lookup(v, ns[k as int], idx as int);
                }
                proof {
                    assert forall|q: int| 0 <= q < order@.len() implies visited@[#[trigger] order@[q] as int] by {
                        let x = order@[q] as int;
                        assert(0 <= x < entries@.len());
                        assert(order@[q] as int == x);
                        assert(exists|j: int| 0 <= j < order@.len() && #[trigger] order@[j] == x);
                    }
                    if refs_point_back(v) {
                        assert forall|x: int|
                            0 <= x < names@.len() && visited@[x] && !order@.contains(x as usize) implies x > idx by {
                            let j = choose|j: int| 0 <= j < order@.len() && #[trigger] order@[j] == x;
                            assert(order@[j] == x as usize);
                        }
                    }
                }
                visit(idx, &names, &canon, &mut visited, &mut order, Ghost(v));
                proof {
                    if refs_point_back(v) {
                        assert forall|q: int| 0 <= q < order@.len() implies #[trigger] deps_first(v, order@, q) by {
                            if q < o1.len() {
                                lemma_deps_first_prefix(v, o1, order@, q);
                            }
                        }
                    }
                    assert forall|j: int| 0 <= j < order@.len() implies #[trigger] order@[j] < entries@.len() by {
                        if j < o1.len() {
                            assert(order@[j] == o1[j]);
                        }
                    }
                    assert forall|x: int, j: int|
                        #![trigger sorted@[j], visited@[x]]
                        0 <= x < entries@.len() && 0 <= j < k + 1 && sorted@[j]@ == names@[x]@ && (
                        forall|y: int| 0 <= y < x ==> names@[y]@ != names@[x]@) implies visited@[x] by {
                        if j < k {
                            assert(v1[x]);
                        } else {
                            if x < idx {
                            } else if idx < x {
                                assert(names@[idx as int]@ == names@[x]@);
                            }
                        }
                    }
                    assert forall|j1: int, j2: int| 0 <= j1 < j2 < order@.len() implies order@[j1] != order@[j2] by {
                        if j2 < o1.len() {
                            assert(order@[j1] == o1[j1] && order@[j2] == o1[j2]);
                        } else if j1 < o1.len() {
                            assert(order@[j1] == o1[j1]);
                            assert(v1[o1[j1] as int]);
                        }
                    }
                    assert forall|x: int| 0 <= x < entries@.len() implies (visited@[x] <==> exists|j: int|
                        0 <= j < order@.len() && #[trigger] order@[j] == x) by {
                        if visited@[x] && v1[x] {
                            let j = choose|j: int| 0 <= j < o1.len() && #[trigger] o1[j] == x;
                            assert(order@[j] == o1[j]);
                        }
                        if exists|j: int| 0 <= j < order@.len() && #[trigger] order@[j] == x {
                            let j = choose|j: int| 0 <= j < order@.len() && #[trigger] order@[j] == x;
                            if j < o1.len() {
                                assert(order@[j] == o1[j]);
                            }
                        }
                    }
                }
            },
            None => {
                proof {
                    if exists|j: int| resolves(v, ns[k as int], j) {
                        let j = choose|j: int| resolves(v, ns[k as int], j);
                        assert(names@[j]@ != sorted@[k as int]@);
                    }
                }
            },
        }
        k = k + 1;
    }
    proof {
        assert forall|i: int|
            0 <= i < entries@.len() && #[trigger] first_of_name(entry_views(entries@), i)
                implies order@.contains(i as usize) by {
            assert(texts(names@)[i] == names@[i]@);
            assert(texts(names@).contains(names@[i]@));
            lemma_sorted_dedup_contains(texts(names@), names@[i]@);
            let j = choose|j: int| 0 <= j < texts(sorted@).len() && texts(sorted@)[j] == names@[i]@;
            assert(sorted@[j]@ == names@[i]@);
            assert forall|y: int| 0 <= y < i implies names@[y]@ != names@[i]@ by {
                assert(entry_views(entries@)[y].1 != entry_views(entries@)[i].1);
            }
            assert(visited@[i]);
            let k = choose|k: int| 0 <= k < order@.len() && #[trigger] order@[k] == i;
            assert(order@[k] == i as usize);
        }
    }
    order
}

proof fn lemma_dedup_contains(v: Seq<Seq<char>>, x: Seq<char>)
    requires
        v.contains(x),
    ensures
        dedup_adj(v).contains(x),
    decreases v.len(),
{
    if v.len() > 1 {
        let w = v.drop_last();
        if v.last() == x {
            if v.last() == v[v.len() - 2] {
                assert(w[w.len() - 1] == x);
                lemma_dedup_contains(w, x);
            } else {
                assert(dedup_adj(v).last() == x);
            }
        } else {
            let i = choose|i: int| 0 <= i < v.len() && v[i] == x;
            assert(w[i] == x);
            lemma_dedup_contains(w, x);
            let d = dedup_adj(w);
            let i2 = choose|i2: int| 0 <= i2 < d.len() && d[i2] == x;
            if v.last() != v[v.len() - 2] {
                assert(dedup_adj(v)[i2] == x);
            }
        }
    }
}

proof fn lemma_sorted_dedup_contains(v: Seq<Seq<char>>, x: Seq<char>)
    requires
        v.contains(x),
    ensures
        dedup_adj(sorted_texts(v)).contains(x),
{
    broadcast use vstd::seq_lib::group_to_multiset_ensures;

    crate::text::lemma_text_leq_total();
    v.lemma_sort_by_ensures(crate::text::text_order());
    assert(v.to_multiset().count(x) > 0);
    assert(sorted_texts(v).to_multiset().count(x) > 0);
    lemma_dedup_contains(sorted_texts(v), x);
}

/// Copies an entry.
fn copy_entry(e: &(String, ExtractedEntry)) -> (r: (String, ExtractedEntry))
    ensures
        r.0@ == e.0@,
        r.1.name@ == e.1.name@,
        r.1.hash@ == e.1.hash@,
        r.1.count == e.1.count,
{
    (e.0.clone(), ExtractedEntry { name: e.1.name.clone(), hash: e.1.hash.clone(), count: e.1.count })
}

/// The entries in emission order: depth first in ascending name order,
/// dependencies before the entries that reference them.
pub fn topo_sort(extracted: &Vec<(String, ExtractedEntry)>) -> (r: Vec<(String, ExtractedEntry)>)
    ensures
        entry_views(r@) == emission(entry_views(extracted@)).map_values(
            |i: usize| entry_views(extracted@)[i as int],
        ),
        emission_order(entry_views(extracted@), emission(entry_views(extracted@))),
        refs_point_back(entry_views(extracted@)) ==> forall|k: int|
            0 <= k < emission(entry_views(extracted@)).len() ==> #[trigger] deps_first(
                entry_views(extracted@),
                emission(entry_views(extracted@)),
                k,
            ),
{
    let order = topo_order(extracted);
    let mut r: Vec<(String, ExtractedEntry)> = Vec::new();
    let mut k: usize = 0;
    while k < order.len()
        invariant
            k <= order@.len(),
            r@.len() == k,
            forall|j: int| 0 <= j < order@.len() ==> #[trigger] order@[j] < extracted@.len(),
            forall|j: int| 0 <= j < k ==> #[trigger] entry_views(r@)[j] == entry_views(extracted@)[order@[j] as int],
        decreases order@.len() - k,
    {
        let e = copy_entry(&extracted[order[k]]);
        let ghost r0 = r@;
        r.push(e);
        proof {
            assert forall|j: int| 0 <= j < k + 1 implies #[trigger] entry_views(r@)[j] == entry_views(extracted@)[order@[j] as int] by {
                if j < k {
                    assert(r@[j] == r0[j]);
                    assert(entry_views(r0)[j] == entry_views(extracted@)[order@[j] as int]);
                }
            }
        }
        k = k + 1;
    }
    proof {
        assert(entry_views(r@) =~= order@.map_values(|i: usize| entry_views(extracted@)[i as int]));
    }
    r
}

/// The fixed opening lines of the shared module.
pub open spec fn module_header() -> Seq<Seq<char>> {
    seq![
        "/**"@,
        " * @generated - Do not edit manually"@,
        " * Shared Relay structures"@,
        " */"@,
        "// eslint-disable-next-line @typescript-eslint/no-explicit-any"@,
        "type RelayNode = any;"@,
        Seq::<char>::empty(),
    ]
}

/// `export const <name>: RelayNode = <canonical>;`
pub open spec fn decl_line(e: (Seq<char>, Seq<char>)) -> Seq<char> {
    "export const "@ + e.1 + ": RelayNode = "@ + e.0 + ";"@
}

/// The lines of the shared module: the header, one declaration per entry in
/// the order `o`, and a final empty line.
pub open spec fn module_lines(v: Seq<(Seq<char>, Seq<char>)>, o: Seq<usize>) -> Seq<Seq<char>> {
    module_header() + o.map_values(|i: usize| decl_line(v[i as int])) + seq![Seq::<char>::empty()]
}

/// The shared module: its lines joined by line breaks.
pub open spec fn module_text(v: Seq<(Seq<char>, Seq<char>)>, o: Seq<usize>) -> Seq<char> {
    join_with(module_lines(v, o), '\n')
}

/// Dependency order of the shared module: when entry `i` references entry
/// `j` and every reference names an earlier entry, the declaration of `j`
/// stands on a line before the declaration of `i`.
pub proof fn lemma_declaration_after_dependencies(
    v: Seq<(Seq<char>, Seq<char>)>,
    o: Seq<usize>,
    k: int,
    j: int,
)
    requires
        emission_order(v, o),
        refs_point_back(v),
        forall|q: int| 0 <= q < o.len() ==> #[trigger] deps_first(v, o, q),
        0 <= k < o.len(),
        depends_on(v, o[k] as int, j),
    ensures
        exists|line_d: int|
            0 <= line_d < module_header().len() + k && #[trigger] module_lines(v, o)[line_d] == decl_line(v[j]),
        module_lines(v, o)[module_header().len() + k] == decl_line(v[o[k] as int]),
{
    assert(deps_first(v, o, k));
    let k2 = choose|k2: int| 0 <= k2 < k && o[k2] == j;
    let h = module_header().len() as int;
    assert(module_lines(v, o)[h + k2] == decl_line(v[j]));
    assert(module_lines(v, o)[h + k] == decl_line(v[o[k] as int]));
}

/// Renders the shared module of all extracted entries, in emission order.
pub fn shared_module_chars(extracted: &Vec<(String, ExtractedEntry)>) -> (r: Vec<char>)
    ensures
        r@ == module_text(entry_views(extracted@), emission(entry_views(extracted@))),
        emission_order(entry_views(extracted@), emission(entry_views(extracted@))),
        refs_point_back(entry_views(extracted@)) ==> forall|k: int|
            0 <= k < emission(entry_views(extracted@)).len() ==> #[trigger] deps_first(
                entry_views(extracted@),
                emission(entry_views(extracted@)),
                k,
            ),
{
    let order = topo_order(extracted);
    let mut lines: Vec<Vec<char>> = Vec::new();
    lines.push(lit("/**"));
    lines.push(lit(" * @generated - Do not edit manually"));
    lines.push(lit(" * Shared Relay structures"));
    lines.push(lit(" */"));
    lines.push(lit("// eslint-disable-next-line @typescript-eslint/no-explicit-any"));
    lines.push(lit("type RelayNode = any;"));
    lines.push(Vec::new());
    proof {
        assert(texts(lines@) =~= module_header());
    }
    let ghost views = entry_views(extracted@);
    let mut k: usize = 0;
    while k < order.len()
        invariant
            k <= order@.len(),
            views == entry_views(extracted@),
            forall|j: int| 0 <= j < order@.len() ==> #[trigger] order@[j] < extracted@.len(),
            texts(lines@) == module_header() + order@.take(k as int).map_values(
                |i: usize| decl_line(views[i as int]),
            ),
        decreases order@.len() - k,
    {
        let e = &extracted[order[k]];
        let mut line = lit("export const ");
        let name = chars_of(e.1.name.as_str());
        append_chars(&mut line, &name);
        let mid = lit(": RelayNode = ");
        append_chars(&mut line, &mid);
        let canon = chars_of(e.0.as_str());
        append_chars(&mut line, &canon);
        let semi = lit(";");
        append_chars(&mut line, &semi);
        proof {
            assert(line@ =~= decl_line(views[order@[k as int] as int]));
        }
        let ghost before = texts(lines@);
        lines.push(line);
        proof {
            assert(texts(lines@) =~= before.push(line@));
            assert(order@.take(k + 1).map_values(|i: usize| decl_line(views[i as int])) =~= order@.take(
                k as int,
            ).map_values(|i: usize| decl_line(views[i as int])).push(decl_line(views[order@[k as int] as int])));
            assert(texts(lines@) =~= module_header() + order@.take(k + 1).map_values(
                |i: usize| decl_line(views[i as int]),
            ));
        }
        k = k + 1;
    }
    let ghost before = texts(lines@);
    lines.push(Vec::new());
    proof {
        assert(order@.take(order@.len() as int) =~= order@);
        assert(texts(lines@) =~= before.push(Seq::<char>::empty()));
        assert(texts(lines@) =~= module_header() + order@.map_values(|i: usize| decl_line(views[i as int]))
            + seq![Seq::<char>::empty()]);
        assert(texts(lines@) == module_lines(views, order@));
    }
    crate::normalize::join_chars(&lines, '\n')
}

/// Renders the shared module: a generated-file header, then one exported
/// declaration per entry in dependency order, then an empty line.
pub fn generate_shared_module_content(extracted: &Vec<(String, ExtractedEntry)>) -> (r: String)
    ensures
        r@ == module_text(entry_views(extracted@), emission(entry_views(extracted@))),
        emission_order(entry_views(extracted@), emission(entry_views(extracted@))),
        refs_point_back(entry_views(extracted@)) ==> forall|k: int|
            0 <= k < emission(entry_views(extracted@)).len() ==> #[trigger] deps_first(
                entry_views(extracted@),
                emission(entry_views(extracted@)),
                k,
            ),
{
    let v = shared_module_chars(extracted);
    string_of(v.as_slice())
}

} // verus!
