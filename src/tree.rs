//! One file as an arena of bracket-delimited nodes, built in one scan and
//! then mutated pass after pass as structures are extracted.
use vstd::prelude::*;
use crate::normalize::{canonical, is_active, normalize_chars, quote_state};
use crate::scan::{
    eligible_text, find_import_end, import_end, is_order_insensitive, is_valid_leaf_content,
    order_insensitive_at, MIN_LEAF_LEN,
};
use crate::text::{append_chars, append_range, chars_of, slice_vec, string_of, texts};

verus! {

/// A node: one `{...}` or `[...]` structure of the file.
pub struct Node {
    /// Index of the opening bracket.
    pub start: usize,
    /// One past the closing bracket; zero while the node is unclosed.
    pub end: usize,
    pub is_array: bool,
    pub parent: Option<usize>,
    /// Child nodes, in order of appearance.
    pub children: Vec<usize>,
    /// The identifier this node was extracted as; set at most once.
    pub extracted_as: Option<Vec<char>>,
    /// Cached canonical form, present while the node is a leaf candidate.
    pub normalized: Option<Vec<char>>,
}

/// What a node holds, over mathematical values.
pub struct NodeModel {
    pub start: usize,
    pub end: usize,
    pub is_array: bool,
    pub parent: Option<usize>,
    pub children: Seq<usize>,
    pub extracted: Option<Seq<char>>,
    pub normalized: Option<Seq<char>>,
}

pub open spec fn opt_text(o: Option<Vec<char>>) -> Option<Seq<char>> {
    match o {
        Some(v) => Some(v@),
        None => None,
    }
}

impl View for Node {
    type V = NodeModel;

    open spec fn view(&self) -> NodeModel {
        NodeModel {
            start: self.start,
            end: self.end,
            is_array: self.is_array,
            parent: self.parent,
            children: self.children@,
            extracted: opt_text(self.extracted_as),
            normalized: opt_text(self.normalized),
        }
    }
}

pub open spec fn model(nodes: Seq<Node>) -> Seq<NodeModel> {
    nodes.map_values(|n: Node| n@)
}

/// Index facts every node of a tree keeps: spans inside the text, parents
/// before children, children inside the arena.
pub open spec fn node_ok(s_len: int, m: Seq<NodeModel>, i: int) -> bool {
    let n = m[i];
    &&& n.start < s_len
    &&& (n.end == 0 || n.start < n.end <= s_len)
    &&& (n.parent matches Some(p) ==> p < i)
    &&& forall|k: int| 0 <= k < n.children.len() ==> i < #[trigger] n.children[k] < m.len()
}

pub open spec fn arena_ok(s_len: int, m: Seq<NodeModel>) -> bool {
    forall|i: int| 0 <= i < m.len() ==> #[trigger] node_ok(s_len, m, i)
}

/// The text of a node's span.
pub open spec fn node_text(s: Seq<char>, n: NodeModel) -> Seq<char> {
    s.subrange(n.start as int, n.end as int)
}

/// The canonical form a node gets when the tree is built: only childless,
/// closed nodes whose text is eligible have one.
pub open spec fn initial_form(s: Seq<char>, n: NodeModel, fields: Seq<Seq<char>>) -> Option<
    Seq<char>,
> {
    if n.children.len() == 0 && n.end != 0 && eligible_text(node_text(s, n)) {
        Some(
            canonical(
                node_text(s, n),
                n.is_array && order_insensitive_at(s, n.start as int, fields),
            ),
        )
    } else {
        None
    }
}

pub open spec fn all_children_extracted(m: Seq<NodeModel>, p: int) -> bool {
    forall|k: int|
        0 <= k < m[p].children.len() ==> (#[trigger] m[m[p].children[k] as int]).extracted is Some
}

/// Splices the extracted children `kids[0..k)` into the text from `lo`:
/// the output so far and where the text resumes.
pub open spec fn kids_splice(
    s: Seq<char>,
    m: Seq<NodeModel>,
    kids: Seq<usize>,
    hi: int,
    lo: int,
    k: int,
) -> (Seq<char>, int)
    decreases k,
{
    if k <= 0 {
        (Seq::empty(), lo)
    } else {
        let (out, last) = kids_splice(s, m, kids, hi, lo, k - 1);
        let c = kids[k - 1] as int;
        if 0 <= c < m.len() && m[c].extracted is Some && last <= m[c].start && m[c].start
            < m[c].end <= hi {
            (out + s.subrange(last, m[c].start as int) + m[c].extracted->0, m[c].end as int)
        } else {
            (out, last)
        }
    }
}

/// A node's text with each extracted child replaced by its identifier.
pub open spec fn current_text(s: Seq<char>, m: Seq<NodeModel>, p: int) -> Seq<char> {
    let n = m[p];
    let (out, last) = kids_splice(s, m, n.children, n.end as int, n.start as int, n.children.len() as int);
    out + s.subrange(last, n.end as int)
}

/// A node after one of its children was extracted: when it is not extracted,
/// is closed, has all children extracted and its rebuilt text meets the
/// eligibility test, it gets the canonical form of that text.
pub open spec fn refreshed(s: Seq<char>, m: Seq<NodeModel>, p: int, fields: Seq<Seq<char>>) -> NodeModel {
    let n = m[p];
    if n.extracted is None && n.end != 0 && all_children_extracted(m, p) && eligible_text(
        current_text(s, m, p),
    ) {
        NodeModel {
            normalized: Some(
                canonical(
                    current_text(s, m, p),
                    n.is_array && order_insensitive_at(s, n.start as int, fields),
                ),
            ),
            ..n
        }
    } else {
        n
    }
}

/// The nodes after marking node `idx` as extracted under `name`. A node
/// already extracted keeps its identifier.
#[verifier::opaque]
pub open spec fn after_mark(
    s: Seq<char>,
    m: Seq<NodeModel>,
    idx: int,
    name: Seq<char>,
    fields: Seq<Seq<char>>,
) -> Seq<NodeModel> {
    if m[idx].extracted is Some {
        m
    } else {
        let m1 = m.update(idx, NodeModel { extracted: Some(name), ..m[idx] });
        match m[idx].parent {
            Some(p) => m1.update(p as int, refreshed(s, m1, p as int, fields)),
            None => m1,
        }
    }
}

/// A leaf candidate: not extracted, with a canonical form, all children
/// extracted.
pub open spec fn is_leaf(m: Seq<NodeModel>, i: int) -> bool {
    m[i].extracted is None && m[i].normalized is Some && all_children_extracted(m, i)
}

/// The leaf candidates among the first `n` nodes, with their canonical forms.
pub open spec fn leaves_upto(m: Seq<NodeModel>, n: int) -> Seq<(usize, Seq<char>)>
    decreases n,
{
    if n <= 0 {
        Seq::empty()
    } else if is_leaf(m, n - 1) {
        leaves_upto(m, n - 1).push(((n - 1) as usize, m[n - 1].normalized->0))
    } else {
        leaves_upto(m, n - 1)
    }
}

pub open spec fn leaf_views(v: Seq<(usize, Vec<char>)>) -> Seq<(usize, Seq<char>)> {
    v.map_values(|p: (usize, Vec<char>)| (p.0, p.1@))
}

/// Whether node `i` or one of its ancestors is extracted.
pub open spec fn hidden(m: Seq<NodeModel>, i: int) -> bool
    decreases i,
{
    if !(0 <= i < m.len()) {
        false
    } else if m[i].extracted is Some {
        true
    } else {
        match m[i].parent {
            Some(p) => p < i && hidden(m, p as int),
            None => false,
        }
    }
}

/// An extracted node with no extracted ancestor.
pub open spec fn outermost(m: Seq<NodeModel>, i: int) -> bool {
    m[i].extracted is Some && !(m[i].parent matches Some(p) && p < i && hidden(m, p as int))
}

/// Output so far and resume position after splicing the outermost extracted
/// nodes among the first `k`, in order.
pub open spec fn splice_state(s: Seq<char>, m: Seq<NodeModel>, k: int) -> (Seq<char>, int)
    decreases k,
{
    if k <= 0 {
        (Seq::empty(), 0)
    } else {
        let (out, last) = splice_state(s, m, k - 1);
        let n = m[k - 1];
        if outermost(m, k - 1) && last <= n.start && n.start < n.end <= s.len() {
            (out + s.subrange(last, n.start as int) + n.extracted->0, n.end as int)
        } else {
            (out, last)
        }
    }
}

/// The file text with every outermost extracted node replaced by its
/// identifier.
pub open spec fn serialized(s: Seq<char>, m: Seq<NodeModel>) -> Seq<char> {
    let (out, last) = splice_state(s, m, m.len() as int);
    out + s.subrange(last, s.len() as int)
}

/// Positions in `s[from..i)` of the structural opening brackets: `{` or
/// `[` outside string literals and not escaped, the scan starting at `from`.
pub open spec fn openings(s: Seq<char>, from: int, i: int) -> Seq<usize>
    decreases i - from,
{
    if i <= from || i > s.len() {
        Seq::empty()
    } else {
        let prev = openings(s, from, i - 1);
        let c = s[i - 1];
        if is_active(quote_state(s.subrange(from, i - 1)), c) && (c == '{' || c == '[') {
            prev.push((i - 1) as usize)
        } else {
            prev
        }
    }
}

pub open spec fn starts(m: Seq<NodeModel>) -> Seq<usize> {
    m.map_values(|n: NodeModel| n.start)
}

/// Scan state: the nodes so far, the open nodes (innermost last), and the
/// top-level nodes.
pub type ScanState = (Seq<NodeModel>, Seq<usize>, Seq<usize>);

/// An opening bracket at `pos`: a new node, child of the innermost open
/// node or else top-level, becomes the innermost open node.
pub open spec fn open_node(st: ScanState, c: char, pos: int) -> ScanState {
    let (m, stack, roots) = st;
    let idx = m.len() as usize;
    let parent: Option<usize> = if stack.len() > 0 {
        Some(stack.last())
    } else {
        None
    };
    let m1 = m.push(
        NodeModel {
            start: pos as usize,
            end: 0,
            is_array: c == '[',
            parent,
            children: Seq::empty(),
            extracted: None,
            normalized: None,
        },
    );
    match parent {
        Some(p) => (
            m1.update(p as int, NodeModel { children: m1[p as int].children.push(idx), ..m1[p as int] }),
            stack.push(idx),
            roots,
        ),
        None => (m1, stack.push(idx), roots.push(idx)),
    }
}

/// A closing bracket at `pos` closes the innermost open node, if any.
pub open spec fn close_node(st: ScanState, pos: int) -> ScanState {
    let (m, stack, roots) = st;
    if stack.len() > 0 {
        let k = stack.last();
        (m.update(k as int, NodeModel { end: (pos + 1) as usize, ..m[k as int] }), stack.drop_last(), roots)
    } else {
        st
    }
}

/// One character of the scan; `active` says whether it is structural.
pub open spec fn scan_step(st: ScanState, c: char, active: bool, pos: int) -> ScanState {
    if active && (c == '{' || c == '[') {
        open_node(st, c, pos)
    } else if active && (c == '}' || c == ']') {
        close_node(st, pos)
    } else {
        st
    }
}

/// The scan of `s[from..i)`.
pub open spec fn build(s: Seq<char>, from: int, i: int) -> ScanState
    decreases i - from,
{
    if i <= from || i > s.len() {
        (Seq::empty(), Seq::empty(), Seq::empty())
    } else {
        scan_step(
            build(s, from, i - 1),
            s[i - 1],
            is_active(quote_state(s.subrange(from, i - 1)), s[i - 1]),
            i - 1,
        )
    }
}

/// What the scan has established of a node by position `i`.
pub open spec fn built_ok(s: Seq<char>, n: NodeModel, from: int, i: int) -> bool {
    &&& from <= n.start < i
    &&& (s[n.start as int] == '{' || s[n.start as int] == '[')
    &&& n.is_array == (s[n.start as int] == '[')
    &&& (n.end != 0 ==> n.end <= i && (s[n.end - 1] == '}' || s[n.end - 1] == ']'))
    &&& n.extracted is None
    &&& n.normalized is None
}

/// The tree of one file.
pub struct FileTree {
    pub original: Vec<char>,
    pub nodes: Vec<Node>,
    /// Top-level nodes, in order.
    pub root_nodes: Vec<usize>,
    /// Last serialization, dropped on every mutation.
    pub serialized_cache: Option<Vec<char>>,
}

impl FileTree {
    pub open spec fn text(&self) -> Seq<char> {
        self.original@
    }

    pub open spec fn nodes_model(&self) -> Seq<NodeModel> {
        model(self.nodes@)
    }

    pub open spec fn cache_ok(&self) -> bool {
        self.serialized_cache matches Some(c) ==> c@ == serialized(self.text(), self.nodes_model())
    }

    pub open spec fn wf(&self) -> bool {
        &&& self.text().len() < usize::MAX
        &&& arena_ok(self.text().len() as int, self.nodes_model())
        &&& forall|k: int|
            0 <= k < self.root_nodes@.len() ==> #[trigger] self.root_nodes@[k]
                < self.nodes@.len()
        &&& self.cache_ok()
    }

    /// Builds the tree of a file's text in one scan; `fields` names the
    /// fields whose arrays are order-insensitive.
    pub fn from_chars(content: Vec<char>, fields: &Vec<Vec<char>>) -> (r: Self)
        requires
            content@.len() < usize::MAX,
        ensures
            r.wf(),
            r.text() == content@,
            r.root_nodes@ == build(content@, import_end(content@), content@.len() as int).2,
            r.nodes_model().len() == build(content@, import_end(content@), content@.len() as int).0.len(),
            forall|k: int|
                0 <= k < r.nodes_model().len() ==> {
                    let b = build(content@, import_end(content@), content@.len() as int).0[k];
                    #[trigger] r.nodes_model()[k] == NodeModel {
                        normalized: initial_form(content@, b, texts(fields@)),
                        ..b
                    }
                },
            starts(r.nodes_model()) == openings(content@, import_end(content@), content@.len() as int),
            forall|k: int|
                0 <= k < r.nodes@.len() ==> {
                    let n = #[trigger] r.nodes_model()[k];
                    &&& n.start >= import_end(content@)
                    &&& (content@[n.start as int] == '{' || content@[n.start as int] == '[')
                    &&& n.is_array == (content@[n.start as int] == '[')
                    &&& (n.end != 0 ==> (content@[n.end - 1] == '}' || content@[n.end - 1]
                        == ']'))
                    &&& n.extracted is None
                    &&& n.normalized == initial_form(content@, n, texts(fields@))
                },
    {
        let import_end = find_import_end(&content);
        let mut nodes: Vec<Node> = Vec::new();
        let mut stack: Vec<usize> = Vec::new();
        let mut roots: Vec<usize> = Vec::new();
        let mut in_string = false;
        let mut escape = false;
        let mut i: usize = import_end;
        let ghost s = content@;
        while i < content.len()
            invariant
                s == content@,
                s.len() < usize::MAX,
                import_end <= i,
                i <= s.len() || i == import_end,
                import_end == crate::scan::import_end(s),
                i <= s.len() ==> (in_string, escape) == quote_state(s.subrange(import_end as int, i as int)),
                starts(model(nodes@)) == openings(s, import_end as int, i as int),
                build(s, import_end as int, i as int) == (model(nodes@), stack@, roots@),
                arena_ok(s.len() as int, model(nodes@)),
                forall|k: int|
                    0 <= k < nodes@.len() ==> built_ok(
                        s,
                        #[trigger] model(nodes@)[k],
                        import_end as int,
                        i as int,
                    ),
                forall|k: int| 0 <= k < stack@.len() ==> #[trigger] stack@[k] < nodes@.len(),
                forall|k: int| 0 <= k < roots@.len() ==> #[trigger] roots@[k] < nodes@.len(),
            decreases s.len() - i,
        {
            let c = content[i];
            let ghost m_before = model(nodes@);
            let ghost pre = (in_string, escape);
            let ghost st_before = (model(nodes@), stack@, roots@);
            let ghost mut pushed = false;
            proof {
                assert(s.subrange(import_end as int, i + 1).drop_last() =~= s.subrange(import_end as int, i as int));
                assert(s.subrange(import_end as int, i + 1).last() == c);
                assert forall|k: int| 0 <= k < m_before.len() implies built_ok(
                    s,
                    m_before[k],
                    import_end as int,
                    i + 1,
                ) by {
                    assert(built_ok(s, m_before[k], import_end as int, i as int));
                }
            }
            if escape {
                escape = false;
            } else if c == '\\' {
                escape = true;
            } else if c == '"' {
                in_string = !in_string;
            } else if in_string {
            } else if c == '{' || c == '[' {
                let idx = nodes.len();
                let parent: Option<usize> = if stack.len() > 0 {
                    Some(stack[stack.len() - 1])
                } else {
                    None
                };
                let ghost m0 = model(nodes@);
                nodes.push(
                    Node {
                        start: i,
                        end: 0,
                        is_array: c == '[',
                        parent,
                        children: Vec::new(),
                        extracted_as: None,
                        normalized: None,
                    },
                );
                proof {
                    assert(model(nodes@) =~= m0.push(nodes@[idx as int]@));
                    assert forall|k: int| 0 <= k < model(nodes@).len() implies #[trigger] node_ok(
                        s.len() as int,
                        model(nodes@),
                        k,
                    ) by {
                        if k < idx {
                            assert(node_ok(s.len() as int, m0, k));
                        }
                    }
                }
                match parent {
                    Some(p) => {
                        let ghost m1 = model(nodes@);
                        nodes[p].children.push(idx);
                        proof {
                            assert(model(nodes@) =~= m1.update(p as int, nodes@[p as int]@));
                            assert forall|k: int|
                                0 <= k < model(nodes@).len() implies #[trigger] node_ok(
                                s.len() as int,
                                model(nodes@),
                                k,
                            ) by {
                                assert(node_ok(s.len() as int, m1, k));
                                if k == p {
                                    let ch = model(nodes@)[k].children;
                                    assert(ch =~= m1[k].children.push(idx));
                                }
                            }
                        }
                    },
                    None => {
                        roots.push(idx);
                    },
                }
                stack.push(idx);
                proof {
                    let opened = open_node(st_before, c, i as int);
                    match parent {
                        Some(p) => {
                            assert(nodes@[p as int]@ == NodeModel { children: m0.push(nodes@[idx as int]@)[p as int].children.push(idx), ..m0.push(nodes@[idx as int]@)[p as int] });
                        },
                        None => {},
                    }
                    assert(model(nodes@) =~= opened.0);
                    assert(stack@ =~= opened.1);
                    assert(roots@ =~= opened.2);
                    pushed = true;
                    assert(model(nodes@).len() == m_before.len() + 1);
                    assert forall|q: int| 0 <= q < model(nodes@).len() implies #[trigger] starts(model(nodes@))[q] == starts(m_before).push(i as usize)[q] by {
                        if q < m_before.len() {
                            assert(model(nodes@)[q].start == m_before[q].start);
                        } else {
                            assert(model(nodes@)[q].start == i);
                        }
                    }
                    assert(starts(model(nodes@)) =~= starts(m_before).push(i as usize));
                    assert forall|j: int| 0 <= j < nodes@.len() implies built_ok(
                        s,
                        #[trigger] model(nodes@)[j],
                        import_end as int,
                        i + 1,
                    ) by {
                        let a = model(nodes@)[j];
                        if j < m_before.len() {
                            let b = m_before[j];
                            assert(built_ok(s, b, import_end as int, i + 1));
                            assert(a.start == b.start && a.end == b.end && a.is_array == b.is_array
                                && a.extracted == b.extracted && a.normalized == b.normalized);
                        } else {
                            assert(j == idx);
                            assert(a.start == i && a.end == 0);
                            assert(s[i as int] == c);
                            assert(a.is_array == (c == '['));
                            assert(a.extracted is None && a.normalized is None);
                            assert(import_end <= i);
                        }
                    }
                }
            } else if c == '}' || c == ']' {
                if stack.len() > 0 {
                    let k = stack.pop().unwrap();
                    let ghost m1 = model(nodes@);
                    proof {
                        assert(built_ok(s, m1[k as int], import_end as int, i as int));
                    }
                    nodes[k].end = i + 1;
                    proof {
                        assert(model(nodes@) =~= close_node(st_before, i as int).0);
                        assert(stack@ =~= close_node(st_before, i as int).1);
                        assert(model(nodes@) =~= m1.update(k as int, nodes@[k as int]@));
                        assert forall|j: int|
                            0 <= j < model(nodes@).len() implies #[trigger] node_ok(
                            s.len() as int,
                            model(nodes@),
                            j,
                        ) by {
                            assert(node_ok(s.len() as int, m1, j));
                            if j == k as int {
                                assert(model(nodes@)[j].children =~= m1[j].children);
                                assert(m1[j].start < i);
                            }
                        }
                        assert forall|j: int| 0 <= j < nodes@.len() implies built_ok(
                            s,
                            #[trigger] model(nodes@)[j],
                            import_end as int,
                            i + 1,
                        ) by {
                            assert(built_ok(s, m1[j], import_end as int, i + 1));
                        }
                    }
                }
            }
            i = i + 1;
            proof {
                let st = starts(model(nodes@));
                let sb = starts(m_before);
                assert(s.subrange(import_end as int, i - 1) =~= s.subrange(import_end as int, (i - 1) as int));
                if pushed {
                    assert(is_active(pre, c) && (c == '{' || c == '['));
                    assert(st == sb.push((i - 1) as usize));
                    assert(build(s, import_end as int, i as int) == open_node(st_before, c, i - 1));
                } else {
                    assert(build(s, import_end as int, i as int) == scan_step(st_before, c, is_active(pre, c), i - 1));
                    assert(!(is_active(pre, c) && (c == '{' || c == '[')));
                    assert(model(nodes@).len() == m_before.len());
                    assert forall|q: int| 0 <= q < st.len() implies st[q] == sb[q] by {
                        assert(model(nodes@)[q].start == m_before[q].start);
                    }
                    assert(st =~= sb);
                }
                assert forall|k: int| 0 <= k < nodes@.len() implies built_ok(
                    s,
                    #[trigger] model(nodes@)[k],
                    import_end as int,
                    i as int,
                ) by {
                    if k < m_before.len() {
                        assert(built_ok(s, m_before[k], import_end as int, i as int));
                    }
                }
            }
        }
        proof {
            if import_end > s.len() {
                assert(build(s, import_end as int, i as int) == build(s, import_end as int, s.len() as int));
            }
        }
        let mut tree = FileTree {
            original: content,
            nodes,
            root_nodes: roots,
            serialized_cache: None,
        };
        tree.compute_normalized_forms(fields);
        tree
    }

    /// Builds the tree of a file's text: one node per structural bracket
    /// pair after the import header (see `build`), and a canonical form for
    /// each childless, closed node whose text is eligible.
    pub fn new(content: String, order_insensitive_fields: &Vec<String>) -> (r: Self)
        requires
            content@.len() < usize::MAX,
        ensures
            r.wf(),
            r.text() == content@,
            r.root_nodes@ == build(content@, import_end(content@), content@.len() as int).2,
            r.nodes_model().len() == build(content@, import_end(content@), content@.len() as int).0.len(),
            forall|k: int|
                0 <= k < r.nodes_model().len() ==> {
                    let b = build(content@, import_end(content@), content@.len() as int).0[k];
                    #[trigger] r.nodes_model()[k] == NodeModel {
                        normalized: initial_form(
                            content@,
                            b,
                            order_insensitive_fields@.map_values(|f: String| f@),
                        ),
                        ..b
                    }
                },
            starts(r.nodes_model()) == openings(content@, import_end(content@), content@.len() as int),
            forall|k: int|
                0 <= k < r.nodes@.len() ==> {
                    let n = #[trigger] r.nodes_model()[k];
                    &&& n.start >= import_end(content@)
                    &&& (content@[n.start as int] == '{' || content@[n.start as int] == '[')
                    &&& n.is_array == (content@[n.start as int] == '[')
                    &&& (n.end != 0 ==> (content@[n.end - 1] == '}' || content@[n.end - 1]
                        == ']'))
                    &&& n.extracted is None
                    &&& n.normalized == initial_form(
                        content@,
                        n,
                        order_insensitive_fields@.map_values(|f: String| f@),
                    )
                },
    {
        let s = chars_of(content.as_str());
        let fields = crate::text::char_lists(order_insensitive_fields);
        Self::from_chars(s, &fields)
    }

    /// Computes the canonical form of every childless, closed node whose
    /// text is eligible.
    fn compute_normalized_forms(&mut self, fields: &Vec<Vec<char>>)
        requires
            old(self).wf(),
            old(self).serialized_cache is None,
            forall|k: int|
                0 <= k < old(self).nodes@.len() ==> (#[trigger] old(self).nodes_model()[k]).normalized
                    is None,
        ensures
            final(self).wf(),
            final(self).text() == old(self).text(),
            final(self).root_nodes@ == old(self).root_nodes@,
            final(self).nodes@.len() == old(self).nodes@.len(),
            forall|k: int|
                0 <= k < final(self).nodes@.len() ==> {
                    let n = #[trigger] final(self).nodes_model()[k];
                    let o = old(self).nodes_model()[k];
                    &&& n == NodeModel { normalized: initial_form(old(self).text(), o, texts(fields@)), ..o }
                },
    {
        let ghost s = self.text();
        let ghost m0 = self.nodes_model();
        let mut i: usize = 0;
        while i < self.nodes.len()
            invariant
                self.wf(),
                self.text() == s,
                self.root_nodes@ == old(self).root_nodes@,
                self.nodes@.len() == m0.len(),
                i <= m0.len(),
                forall|k: int|
                    0 <= k < m0.len() ==> {
                        let n = #[trigger] self.nodes_model()[k];
                        let o = m0[k];
                        &&& k < i ==> n == NodeModel { normalized: initial_form(s, o, texts(fields@)), ..o }
                        &&& k >= i ==> n == o
                    },
                m0 == old(self).nodes_model(),
                self.serialized_cache is None,
                forall|k: int| 0 <= k < m0.len() ==> (#[trigger] m0[k]).normalized is None,
            decreases m0.len() - i,
        {
            proof {
                assert(node_ok(s.len() as int, self.nodes_model(), i as int));
            }
            if self.nodes[i].children.len() == 0 && self.nodes[i].end != 0 {
                let content = slice_vec(&self.original, self.nodes[i].start, self.nodes[i].end);
                if content.len() >= MIN_LEAF_LEN && is_valid_leaf_content(&content) {
                    let can_sort = self.nodes[i].is_array && is_order_insensitive(
                        &self.original,
                        self.nodes[i].start,
                        fields,
                    );
                    let form = normalize_chars(&content, can_sort);
                    let ghost m1 = self.nodes_model();
                    self.nodes[i].normalized = Some(form);
                    proof {
                        assert(self.nodes_model() =~= m1.update(i as int, self.nodes@[i as int]@));
                        assert forall|j: int| 0 <= j < self.nodes_model().len() implies #[trigger] node_ok(
                            s.len() as int,
                            self.nodes_model(),
                            j,
                        ) by {
                            assert(node_ok(s.len() as int, m1, j));
                        }
                    }
                }
            }
            i = i + 1;
        }
    }

    /// The leaf candidates: nodes not extracted, with a canonical form, whose
    /// children are all extracted; in node order, with their canonical forms.
    pub fn find_leaves(&self) -> (r: Vec<(usize, Vec<char>)>)
        requires
            self.wf(),
        ensures
            leaf_views(r@) == leaves_upto(self.nodes_model(), self.nodes@.len() as int),
    {
        let ghost m = self.nodes_model();
        let mut r: Vec<(usize, Vec<char>)> = Vec::new();
        let mut i: usize = 0;
        while i < self.nodes.len()
            invariant
                m == self.nodes_model(),
                self.wf(),
                i <= self.nodes@.len(),
                leaf_views(r@) == leaves_upto(m, i as int),
            decreases self.nodes@.len() - i,
        {
            proof {
                assert(node_ok(self.text().len() as int, m, i as int));
            }
            if self.nodes[i].extracted_as.is_none() {
                match &self.nodes[i].normalized {
                    Some(form) => {
                        if self.children_extracted(i) {
                            let f = form.clone();
                            r.push((i, f));
                            proof {
                                assert(leaf_views(r@) =~= leaves_upto(m, i as int).push((i, m[i as int].normalized->0)));
                            }
                        }
                    },
                    None => {},
                }
            }
            i = i + 1;
        }
        r
    }

    fn children_extracted(&self, p: usize) -> (r: bool)
        requires
            self.wf(),
            p < self.nodes@.len(),
        ensures
            r == all_children_extracted(self.nodes_model(), p as int),
    {
        let ghost m = self.nodes_model();
        proof {
            assert(node_ok(self.text().len() as int, m, p as int));
        }
        let mut k: usize = 0;
        while k < self.nodes[p].children.len()
            invariant
                m == self.nodes_model(),
                self.wf(),
                p < m.len(),
                node_ok(self.text().len() as int, m, p as int),
                k <= m[p as int].children.len(),
                forall|j: int| 0 <= j < k ==> (#[trigger] m[m[p as int].children[j] as int]).extracted is Some,
            decreases m[p as int].children.len() - k,
        {
            let c = self.nodes[p].children[k];
            if self.nodes[c].extracted_as.is_none() {
                proof {
                    assert(m[m[p as int].children[k as int] as int].extracted is None);
                }
                return false;
            }
            k = k + 1;
        }
        true
    }

    /// Marks node `node_idx` as extracted under `ref_name`; its parent may
    /// become a leaf candidate. A node already extracted is left as it is.
    pub fn mark_extracted(&mut self, node_idx: usize, ref_name: Vec<char>, fields: &Vec<Vec<char>>)
        requires
            old(self).wf(),
            node_idx < old(self).nodes@.len(),
        ensures
            final(self).wf(),
            final(self).text() == old(self).text(),
            final(self).root_nodes@ == old(self).root_nodes@,
            final(self).nodes_model() == after_mark(
                old(self).text(),
                old(self).nodes_model(),
                node_idx as int,
                ref_name@,
                texts(fields@),
            ),
    {
        proof {
            reveal(after_mark);
        }
        if self.nodes[node_idx].extracted_as.is_some() {
            return;
        }
        let ghost s = self.text();
        let ghost m0 = self.nodes_model();
        proof {
            assert(node_ok(s.len() as int, m0, node_idx as int));
        }
        self.nodes[node_idx].extracted_as = Some(ref_name);
        self.serialized_cache = None;
        proof {
            assert(self.nodes_model() =~= m0.update(node_idx as int, self.nodes@[node_idx as int]@));
            assert forall|j: int| 0 <= j < self.nodes_model().len() implies #[trigger] node_ok(
                s.len() as int,
                self.nodes_model(),
                j,
            ) by {
                assert(node_ok(s.len() as int, m0, j));
            }
        }
        self.update_parent_normalized(node_idx, fields);
    }

    /// After a child was extracted, gives its parent a canonical form when
    /// the parent has become a leaf candidate.
    fn update_parent_normalized(&mut self, child_idx: usize, fields: &Vec<Vec<char>>)
        requires
            old(self).wf(),
            child_idx < old(self).nodes@.len(),
        ensures
            final(self).wf(),
            final(self).text() == old(self).text(),
            final(self).root_nodes@ == old(self).root_nodes@,
            final(self).nodes_model() == (match old(self).nodes_model()[child_idx as int].parent {
                Some(p) => old(self).nodes_model().update(
                    p as int,
                    refreshed(old(self).text(), old(self).nodes_model(), p as int, texts(fields@)),
                ),
                None => old(self).nodes_model(),
            }),
    {
        let ghost s = self.text();
        let ghost m0 = self.nodes_model();
        proof {
            assert(node_ok(s.len() as int, m0, child_idx as int));
        }
        let p = match self.nodes[child_idx].parent {
            Some(p) => p,
            None => {
                return;
            },
        };
        proof {
            assert(node_ok(s.len() as int, m0, p as int));
        }
        if self.nodes[p].extracted_as.is_some() || self.nodes[p].end == 0 {
            proof {
                assert(m0.update(p as int, m0[p as int]) =~= m0);
            }
            return;
        }
        if !self.children_extracted(p) {
            proof {
                assert(m0.update(p as int, m0[p as int]) =~= m0);
            }
            return;
        }
        let content = self.get_current_content(p);
        if content.len() >= MIN_LEAF_LEN && is_valid_leaf_content(&content) {
            let can_sort = self.nodes[p].is_array && is_order_insensitive(
                &self.original,
                self.nodes[p].start,
                fields,
            );
            let form = normalize_chars(&content, can_sort);
            self.nodes[p].normalized = Some(form);
            self.serialized_cache = None;
            proof {
                assert(self.nodes_model() =~= m0.update(p as int, self.nodes@[p as int]@));
                assert forall|j: int| 0 <= j < self.nodes_model().len() implies #[trigger] node_ok(
                    s.len() as int,
                    self.nodes_model(),
                    j,
                ) by {
                    assert(node_ok(s.len() as int, m0, j));
                }
            }
        } else {
            proof {
                assert(m0.update(p as int, m0[p as int]) =~= m0);
            }
        }
    }

    /// The text of closed node `p` with each extracted child replaced by its
    /// identifier.
    fn get_current_content(&self, p: usize) -> (r: Vec<char>)
        requires
            self.wf(),
            p < self.nodes@.len(),
            self.nodes@[p as int].end != 0,
        ensures
            r@ == current_text(self.text(), self.nodes_model(), p as int),
    {
        let ghost s = self.text();
        let ghost m = self.nodes_model();
        proof {
            assert(node_ok(s.len() as int, m, p as int));
        }
        let start = self.nodes[p].start;
        let end = self.nodes[p].end;
        let mut out: Vec<char> = Vec::new();
        let mut last: usize = start;
        let mut k: usize = 0;
        while k < self.nodes[p].children.len()
            invariant
                s == self.text(),
                m == self.nodes_model(),
                self.wf(),
                p < m.len(),
                node_ok(s.len() as int, m, p as int),
                start == m[p as int].start,
                end == m[p as int].end,
                start < end <= s.len(),
                k <= m[p as int].children.len(),
                start <= last <= end,
                (out@, last as int) == kids_splice(s, m, m[p as int].children, end as int, start as int, k as int),
            decreases m[p as int].children.len() - k,
        {
            let c = self.nodes[p].children[k];
            let cs = self.nodes[c].start;
            let ce = self.nodes[c].end;
            match &self.nodes[c].extracted_as {
                Some(name) => {
                    if last <= cs && cs < ce && ce <= end {
                        append_range(&mut out, &self.original, last, cs);
                        append_chars(&mut out, name);
                        last = ce;
                    }
                },
                None => {},
            }
            k = k + 1;
        }
        append_range(&mut out, &self.original, last, end);
        out
    }

    /// Serializes the tree back to text, reusing the cached result.
    pub fn serialize_chars(&mut self) -> (r: Vec<char>)
        requires
            old(self).wf(),
        ensures
            final(self).wf(),
            final(self).text() == old(self).text(),
            final(self).nodes_model() == old(self).nodes_model(),
            final(self).root_nodes@ == old(self).root_nodes@,
            r@ == serialized(old(self).text(), old(self).nodes_model()),
    {
        match &self.serialized_cache {
            Some(c) => {
                return c.clone();
            },
            None => {},
        }
        let r = self.serialize_uncached();
        self.serialized_cache = Some(r.clone());
        r
    }

    /// Serializes the tree back to text: the original text with every
    /// outermost extracted node replaced by its identifier.
    pub fn serialize(&mut self) -> (r: String)
        requires
            old(self).wf(),
        ensures
            final(self).wf(),
            final(self).text() == old(self).text(),
            final(self).nodes_model() == old(self).nodes_model(),
            final(self).root_nodes@ == old(self).root_nodes@,
            r@ == serialized(old(self).text(), old(self).nodes_model()),
    {
        let v = self.serialize_chars();
        string_of(v.as_slice())
    }

    fn serialize_uncached(&self) -> (r: Vec<char>)
        requires
            self.wf(),
        ensures
            r@ == serialized(self.text(), self.nodes_model()),
    {
        let ghost s = self.text();
        let ghost m = self.nodes_model();
        let n = self.original.len();
        let mut hid: Vec<bool> = Vec::new();
        let mut out: Vec<char> = Vec::new();
        let mut last: usize = 0;
        let mut k: usize = 0;
        while k < self.nodes.len()
            invariant
                s == self.text(),
                m == self.nodes_model(),
                self.wf(),
                n == s.len(),
                k <= m.len(),
                last <= n,
                hid@.len() == k,
                forall|j: int| 0 <= j < k ==> #[trigger] hid@[j] == hidden(m, j),
                (out@, last as int) == splice_state(s, m, k as int),
            decreases m.len() - k,
        {
            proof {
                assert(node_ok(s.len() as int, m, k as int));
            }
            let parent_hidden = match self.nodes[k].parent {
                Some(p) => p < k && hid[p],
                None => false,
            };
            let is_ext = self.nodes[k].extracted_as.is_some();
            hid.push(is_ext || parent_hidden);
            let st = self.nodes[k].start;
            let en = self.nodes[k].end;
            match &self.nodes[k].extracted_as {
                Some(name) => {
                    if !parent_hidden && last <= st && st < en && en <= n {
                        append_range(&mut out, &self.original, last, st);
                        append_chars(&mut out, name);
                        last = en;
                    }
                },
                None => {},
            }
            k = k + 1;
        }
        append_range(&mut out, &self.original, last, n);
        out
    }
}

} // verus!
