//! Deduplication of machine-generated artifact files: literal structures
//! repeated across files are factored into one shared module and referenced
//! there by short identifiers.
pub mod naming;
pub mod normalize;
pub mod scan;
pub mod text;
pub mod tree;
pub mod writer;

use vstd::prelude::*;
use vstd::relations::sorted_by;
use crate::naming::NameGenerator;
use crate::scan::contains_name;
use crate::text::{chars_of, same_text, sort_texts, sorted_texts, string_of, text_order, texts};
use crate::tree::{leaf_views, leaves_upto, serialized, FileTree};
use crate::writer::imports_updated;

verus! {

/// One extracted structure: its identifier, the fingerprint of its canonical
/// text, and how many leaf candidates had that text when it was extracted.
pub struct ExtractedEntry {
    pub name: String,
    pub hash: String,
    pub count: usize,
}

/// Options of a deduplication run. Where the files come from and go to is
/// the caller's business.
pub struct Config {
    /// File name of the shared module (`__shared.ts` by default).
    pub shared_module_name: String,
    /// Fewest occurrences across files for a structure to be extracted.
    pub min_occurrences: usize,
    /// Fields whose arrays do not depend on element order.
    pub order_insensitive_fields: Vec<String>,
    /// Compute everything but hand back nothing to write.
    pub dry_run: bool,
    /// Whether the caller reports progress in detail.
    pub verbose: bool,
    /// Most passes to run.
    pub max_passes: usize,
    /// Whether to estimate compressed sizes.
    pub compute_gzip: bool,
}

impl Default for Config {
    fn default() -> (r: Self)
        ensures
            r.shared_module_name@ == "__shared.ts"@,
            r.min_occurrences == 2,
            r.order_insensitive_fields@.map_values(|f: String| f@) == seq![
                "selections"@,
                "args"@,
                "argumentDefinitions"@,
            ],
            !r.dry_run,
            !r.verbose,
            r.max_passes == 50,
            !r.compute_gzip,
    {
        let mut fields: Vec<String> = Vec::new();
        fields.push("selections".to_owned());
        fields.push("args".to_owned());
        fields.push("argumentDefinitions".to_owned());
        proof {
            assert(fields@.map_values(|f: String| f@) =~= seq![
                "selections"@,
                "args"@,
                "argumentDefinitions"@,
            ]);
        }
        Config {
            shared_module_name: "__shared.ts".to_owned(),
            min_occurrences: 2,
            order_insensitive_fields: fields,
            dry_run: false,
            verbose: false,
            max_passes: 50,
            compute_gzip: false,
        }
    }
}

/// Sizes before and after, and counts, of one run.
pub struct Stats {
    pub raw_before: u64,
    pub raw_after: u64,
    pub gzipped_before: u64,
    pub gzipped_after: u64,
    pub total_extracted: usize,
    pub passes: usize,
}

impl Stats {
    /// Bytes saved (negative when the output grew).
    pub fn raw_savings(&self) -> (r: i64)
        requires
            self.raw_before <= i64::MAX,
            self.raw_after <= i64::MAX,
        ensures
            r == self.raw_before - self.raw_after,
    {
        self.raw_before as i64 - self.raw_after as i64
    }

    /// Compressed bytes saved (negative when the output grew).
    pub fn gzipped_savings(&self) -> (r: i64)
        requires
            self.gzipped_before <= i64::MAX,
            self.gzipped_after <= i64::MAX,
        ensures
            r == self.gzipped_before - self.gzipped_after,
    {
        self.gzipped_before as i64 - self.gzipped_after as i64
    }
}

/// What a run hands back: its statistics, the rewritten files and the shared
/// module to write (none of either on a dry run).
pub struct RunOutcome {
    pub stats: Stats,
    pub files: Vec<(String, String)>,
    pub shared_module: Option<String>,
}

/// MD5 digest of the UTF-8 text `s`, as lowercase hex.
pub uninterp spec fn md5_hex(s: Seq<char>) -> Seq<char>;

/// Relies on md-5's `Md5` through the `Digest` trait: the 16-byte MD5 digest
/// of `s`'s UTF-8 bytes, written by the digest array's `LowerHex` as two
/// lowercase hex digits per byte.
#[verifier::external_body]
fn md5_hex_of(s: &str) -> (r: String)
    ensures
        r@ == md5_hex(s@),
        r@.len() == 32,
{
    let mut h = <md5::Md5 as md5::Digest>::new();
    md5::Digest::update(&mut h, s.as_bytes());
    format!("{:x}", md5::Digest::finalize(h))
}

/// Content fingerprint: the MD5 digest of `s` as 32 lowercase hex digits.
pub fn hash_string(s: &str) -> (r: String)
    ensures
        r@ == md5_hex(s@),
        r@.len() == 32,
{
    md5_hex_of(s)
}

/// Size of the gzip stream of the UTF-8 text `s` at the default level.
pub uninterp spec fn gzip_size(s: Seq<char>) -> nat;

/// Relies on flate2's `read::GzEncoder` with `Compression::default()`: the
/// number of bytes it yields for `s`'s UTF-8 bytes.
#[verifier::external_body]
fn gzip_len(s: &str) -> (r: u64)
    ensures
        r as nat == gzip_size(s@),
{
    let mut enc = flate2::read::GzEncoder::new(s.as_bytes(), flate2::Compression::default());
    let mut out: Vec<u8> = Vec::new();
    let _ = std::io::Read::read_to_end(&mut enc, &mut out);
    out.len() as u64
}

/// How often `f` occurs in `all`.
pub open spec fn occurrences(all: Seq<Seq<char>>, f: Seq<char>) -> nat {
    all.to_multiset().count(f)
}

/// The canonical forms of the leaf candidates of all trees, file by file.
pub open spec fn forms_of(leaves: Seq<Seq<(usize, Seq<char>)>>) -> Seq<Seq<char>>
    decreases leaves.len(),
{
    if leaves.len() == 0 {
        Seq::empty()
    } else {
        forms_of(leaves.drop_last()) + leaves.last().map_values(|p: (usize, Seq<char>)| p.1)
    }
}

/// Counts each distinct text of `all`: the distinct texts and their counts.
#[verifier::spinoff_prover]
fn count_forms(all: &Vec<Vec<char>>) -> (r: (Vec<Vec<char>>, Vec<usize>))
    ensures
        r.0@.len() == r.1@.len(),
        forall|k: int| 0 <= k < r.0@.len() ==> #[trigger] r.1@[k] == occurrences(texts(all@), r.0@[k]@),
        forall|k: int| 0 <= k < r.0@.len() ==> #[trigger] r.1@[k] >= 1,
        forall|k1: int, k2: int| 0 <= k1 < k2 < r.0@.len() ==> r.0@[k1]@ != r.0@[k2]@,
        forall|f: Seq<char>| texts(all@).contains(f) ==> #[trigger] texts(r.0@).contains(f),
{
    broadcast use
        vstd::seq_lib::group_to_multiset_ensures,
        vstd::multiset::group_multiset_axioms,
        vstd::multiset::group_multiset_properties,
    ;

    let mut keys: Vec<Vec<char>> = Vec::new();
    let mut counts: Vec<usize> = Vec::new();
    let mut i: usize = 0;
    while i < all.len()
        invariant
            i <= all@.len(),
            keys@.len() == counts@.len(),
            forall|k: int|
                0 <= k < keys@.len() ==> #[trigger] counts@[k] == occurrences(
                    texts(all@).take(i as int),
                    keys@[k]@,
                ),
            forall|k: int| 0 <= k < keys@.len() ==> counts@[k] <= i,
            forall|k: int| 0 <= k < keys@.len() ==> #[trigger] counts@[k] >= 1,
            forall|k1: int, k2: int| 0 <= k1 < k2 < keys@.len() ==> keys@[k1]@ != keys@[k2]@,
            forall|f: Seq<char>|
                texts(all@).take(i as int).contains(f) ==> #[trigger] texts(keys@).contains(f),
        decreases all@.len() - i,
    {
        let ghost prev = texts(all@).take(i as int);
        let ghost x = all@[i as int]@;
        proof {
            assert(texts(all@).take(i + 1) =~= prev.push(x));
            prev.to_multiset_ensures();
            assert(prev.push(x).to_multiset() =~= prev.to_multiset().insert(x));
        }
        let mut k: usize = 0;
        let mut found = false;
        while k < keys.len() && !found
            invariant
                k <= keys@.len(),
                i < all@.len(),
                keys@.len() == counts@.len(),
                x == all@[i as int]@,
                found ==> k < keys@.len() && keys@[k as int]@ == x,
                !found ==> forall|j: int| 0 <= j < k ==> keys@[j]@ != x,
            decreases keys@.len() - k + (if found {
                0int
            } else {
                1int
            }),
        {
            if same_text(&keys[k], &all[i]) {
                found = true;
            } else {
                k = k + 1;
            }
        }
        if found {
            let ghost c0 = counts@;
            let c = counts[k];
            counts.set(k, c + 1);
            proof {
                assert forall|j: int| 0 <= j < keys@.len() implies #[trigger] counts@[j] == occurrences(
                    texts(all@).take(i + 1),
                    keys@[j]@,
                ) by {
                    assert(c0[j] == occurrences(prev, keys@[j]@));
                    if j != k {
                        assert(keys@[j]@ != x);
                    }
                }
                assert forall|f: Seq<char>| texts(all@).take(i + 1).contains(f) implies #[trigger] texts(
                    keys@,
                ).contains(f) by {
                    if f == x {
                        assert(texts(keys@)[k as int] == x);
                    } else {
                        let t1 = texts(all@).take(i + 1);
                        let j = choose|j: int| 0 <= j < t1.len() && #[trigger] t1[j] == f;
                        assert(prev[j] == f);
                    }
                }
            }
        } else {
            let ghost k0 = keys@;
            let ghost c0 = counts@;
            keys.push(all[i].clone());
            counts.push(1);
            proof {
                assert(!texts(k0).contains(x)) by {
                    if texts(k0).contains(x) {
                        let j = choose|j: int| 0 <= j < k0.len() && #[trigger] texts(k0)[j] == x;
                        assert(k0[j]@ == x);
                    }
                }
                assert(!prev.contains(x));
                assert(prev.to_multiset().count(x) == 0);
                assert forall|j: int| 0 <= j < keys@.len() implies #[trigger] counts@[j] == occurrences(
                    texts(all@).take(i + 1),
                    keys@[j]@,
                ) by {
                    if j < k0.len() {
                        assert(c0[j] == occurrences(prev, k0[j]@));
                        assert(keys@[j] == k0[j]);
                    }
                }
                assert forall|f: Seq<char>| texts(all@).take(i + 1).contains(f) implies #[trigger] texts(
                    keys@,
                ).contains(f) by {
                    if f == x {
                        assert(texts(keys@)[k0.len() as int] == x);
                    } else {
                        let t1 = texts(all@).take(i + 1);
                        let j0 = choose|j: int| 0 <= j < t1.len() && #[trigger] t1[j] == f;
                        assert(prev[j0] == f);
                        assert(texts(k0).contains(f));
                        let j = choose|j: int| 0 <= j < k0.len() && #[trigger] texts(k0)[j] == f;
                        assert(texts(keys@)[j] == f);
                    }
                }
            }
        }
        i = i + 1;
    }
    proof {
        assert(texts(all@).take(all@.len() as int) =~= texts(all@));
    }
    (keys, counts)
}

/// The leaf candidates of each tree, with their canonical forms.
pub open spec fn tree_leaves(trees: Seq<(String, FileTree)>) -> Seq<Seq<(usize, Seq<char>)>> {
    trees.map_values(|p: (String, FileTree)| leaves_upto(p.1.nodes_model(), p.1.nodes@.len() as int))
}

/// The final text of each file: its name, and its serialization with the
/// import of module `module` rewritten.
pub open spec fn outputs_of(trees: Seq<(String, FileTree)>, module: Seq<char>) -> Seq<(Seq<char>, Seq<char>)> {
    trees.map_values(
        |p: (String, FileTree)| (p.0@, imports_updated(serialized(p.1.text(), p.1.nodes_model()), module)),
    )
}

/// Index of the first occurrence of `f` in `v`.
pub open spec fn first_index(v: Seq<Seq<char>>, f: Seq<char>) -> int {
    choose|q: int| 0 <= q < v.len() && v[q] == f && forall|p: int| 0 <= p < q ==> v[p] != f
}

proof fn lemma_first_index(v: Seq<Seq<char>>, f: Seq<char>, q: int)
    requires
        0 <= q < v.len(),
        v[q] == f,
        forall|p: int| 0 <= p < q ==> v[p] != f,
    ensures
        first_index(v, f) == q,
{
    assert(exists|c: int| 0 <= c < v.len() && v[c] == f && forall|p: int| 0 <= p < c ==> v[p] != f);
    let c = first_index(v, f);
    if c < q {
        assert(v[c] != f);
    } else if q < c {
        assert(v[q] != f);
    }
}

/// A tree's nodes after marking, in order, each of the first `k` leaf
/// candidates whose form is among `sel` with the identifier at the same
/// position in `names`.
pub open spec fn marked(
    s: Seq<char>,
    m: Seq<crate::tree::NodeModel>,
    leaves: Seq<(usize, Seq<char>)>,
    sel: Seq<Seq<char>>,
    names: Seq<Seq<char>>,
    fields: Seq<Seq<char>>,
    k: int,
) -> Seq<crate::tree::NodeModel>
    decreases k,
{
    if k <= 0 {
        m
    } else {
        let m0 = marked(s, m, leaves, sel, names, fields, k - 1);
        let idx = leaves[k - 1].0 as int;
        let f = leaves[k - 1].1;
        if sel.contains(f) && idx < m0.len() {
            crate::tree::after_mark(s, m0, idx, names[first_index(sel, f)], fields)
        } else {
            m0
        }
    }
}

pub open spec fn entry_forms(es: Seq<(Seq<char>, Seq<char>, usize)>) -> Seq<Seq<char>> {
    es.map_values(|e: (Seq<char>, Seq<char>, usize)| e.0)
}

pub open spec fn entry_names(es: Seq<(Seq<char>, Seq<char>, usize)>) -> Seq<Seq<char>> {
    es.map_values(|e: (Seq<char>, Seq<char>, usize)| e.1)
}

/// The count of `f` among the distinct texts `keys` with counts `counts`.
fn lookup_count(keys: &Vec<Vec<char>>, counts: &Vec<usize>, f: &Vec<char>) -> (r: usize)
    requires
        keys@.len() == counts@.len(),
        texts(keys@).contains(f@),
    ensures
        exists|k: int| 0 <= k < keys@.len() && keys@[k]@ == f@ && #[trigger] counts@[k] == r,
{
    match crate::writer::find_name(keys, f) {
        Some(k) => counts[k],
        None => {
            proof {
                let j = choose|j: int| 0 <= j < keys@.len() && #[trigger] texts(keys@)[j] == f@;
                assert(keys@[j]@ == f@);
            }
            0
        },
    }
}

/// The nodes of a freshly built tree of text `s` (see `FileTree::new`).
pub open spec fn built_model(s: Seq<char>, fields: Seq<Seq<char>>) -> Seq<crate::tree::NodeModel> {
    crate::tree::build(s, crate::scan::import_end(s), s.len() as int).0.map_values(
        |b: crate::tree::NodeModel| crate::tree::NodeModel {
            normalized: crate::tree::initial_form(s, b, fields),
            ..b
        },
    )
}

/// Name, text and nodes of the tree built for each file (name and text).
pub open spec fn loaded_states(files: Seq<(Seq<char>, Seq<char>)>, fields: Seq<Seq<char>>) -> Seq<
    (Seq<char>, Seq<char>, Seq<crate::tree::NodeModel>),
>
    decreases files.len(),
{
    if files.len() == 0 {
        Seq::empty()
    } else {
        let prev = loaded_states(files.drop_last(), fields);
        let f = files.last();
        if f.1.len() < usize::MAX {
            prev.push((f.0, f.1, built_model(f.1, fields)))
        } else {
            prev
        }
    }
}

/// The deduplication engine: the trees of all files, the entries extracted so
/// far, and the name generator.
pub struct Deduplicator {
    config: Config,
    fields: Vec<Vec<char>>,
    module: Vec<char>,
    extracted: Vec<(String, ExtractedEntry)>,
    keys: Vec<Vec<char>>,
    name_generator: NameGenerator,
    trees: Vec<(String, FileTree)>,
}

impl Deduplicator {
    /// The entries extracted so far, in order of extraction: canonical text,
    /// identifier and count.
    pub closed spec fn entries(&self) -> Seq<(Seq<char>, Seq<char>, usize)> {
        self.extracted@.map_values(|e: (String, ExtractedEntry)| (e.0@, e.1.name@, e.1.count))
    }

    /// The occurrence threshold.
    pub closed spec fn threshold(&self) -> usize {
        self.config.min_occurrences
    }

    /// Whether the run hands back nothing to write.
    pub closed spec fn is_dry_run(&self) -> bool {
        self.config.dry_run
    }

    /// The most passes a run makes.
    pub closed spec fn pass_budget(&self) -> usize {
        self.config.max_passes
    }

    /// The engine's invariant: every tree is well formed, the entries have
    /// distinct canonical texts, every entry met the threshold, and the name
    /// generator has assigned exactly the entries' identifiers.
    pub closed spec fn inv(&self) -> bool {
        &&& forall|t: int| 0 <= t < self.trees@.len() ==> (#[trigger] self.trees@[t]).1.wf()
        &&& self.keys@.len() == self.extracted@.len()
        &&& forall|k: int| 0 <= k < self.keys@.len() ==> #[trigger] self.keys@[k]@ == self.extracted@[k].0@
        &&& forall|k1: int, k2: int| 0 <= k1 < k2 < self.keys@.len() ==> self.keys@[k1]@ != self.keys@[k2]@
        &&& forall|k: int| 0 <= k < self.extracted@.len() ==> (#[trigger] self.extracted@[k]).1.count >= self.config.min_occurrences
        &&& forall|k: int| 0 <= k < self.extracted@.len() ==> (#[trigger] self.extracted@[k]).1.hash@ == md5_hex(self.extracted@[k].0@)
        &&& self.name_generator@ == self.entries().map_values(|e: (Seq<char>, Seq<char>, usize)| e.1)
        &&& texts(self.fields@) == self.config.order_insensitive_fields@.map_values(|f: String| f@)
        &&& self.module@ == self.config.shared_module_name@
    }

    /// An engine with no files and no entries.
    pub fn new(config: Config) -> (r: Self)
        ensures
            r.inv(),
            r.entries() == Seq::<(Seq<char>, Seq<char>, usize)>::empty(),
            r.field_names() == config.order_insensitive_fields@.map_values(|f: String| f@),
            r.module_name() == config.shared_module_name@,
            r.gzip_on() == config.compute_gzip,
            r.threshold() == config.min_occurrences,
            r.is_dry_run() == config.dry_run,
            r.pass_budget() == config.max_passes,
    {
        let fields = crate::text::char_lists(&config.order_insensitive_fields);
        let module = chars_of(config.shared_module_name.as_str());
        let r = Deduplicator {
            config,
            fields,
            module,
            extracted: Vec::new(),
            keys: Vec::new(),
            name_generator: NameGenerator::new(),
            trees: Vec::new(),
        };
        proof {
            assert(r.entries() =~= Seq::<(Seq<char>, Seq<char>, usize)>::empty());
            assert(r.entries().map_values(|e: (Seq<char>, Seq<char>, usize)| e.1) =~= Seq::<Seq<char>>::empty());
        }
        r
    }

    /// Builds the tree of every file, in the given order.
    fn load_files(&mut self, files: &Vec<(String, String)>)
        requires
            old(self).inv(),
        ensures
            final(self).inv(),
            final(self).entries() == old(self).entries(),
            final(self).config == old(self).config,
            final(self).fields == old(self).fields,
            final(self).module == old(self).module,
            tree_states(final(self).trees@) == loaded_states(file_views(files@), texts(old(self).fields@)),
    {
        self.trees = Vec::new();
        let ghost fl = texts(self.fields@);
        proof {
            assert(tree_states(self.trees@) =~= loaded_states(file_views(files@).take(0), fl));
        }
        let mut i: usize = 0;
        while i < files.len()
            invariant
                self.inv(),
                self.entries() == old(self).entries(),
                self.config == old(self).config,
                self.fields == old(self).fields,
                self.module == old(self).module,
                fl == texts(self.fields@),
                i <= files@.len(),
                tree_states(self.trees@) == loaded_states(file_views(files@).take(i as int), fl),
            decreases files@.len() - i,
        {
            let ghost fv = file_views(files@);
            proof {
                assert(fv.take(i + 1).drop_last() =~= fv.take(i as int));
                assert(fv.take(i + 1).last() == fv[i as int]);
            }
            let content = chars_of(files[i].1.as_str());
            if content.len() < usize::MAX {
                let tree = FileTree::from_chars(content, &self.fields);
                let name = files[i].0.clone();
                let ghost t0 = self.trees@;
                self.trees.push((name, tree));
                proof {
                    assert(tree.nodes_model() =~= built_model(content@, fl));
                    assert(tree_states(self.trees@) =~= tree_states(t0).push((name@, content@, tree.nodes_model())));
                    assert forall|u: int| 0 <= u < self.trees@.len() implies (#[trigger] self.trees@[u]).1.wf() by {
                        if u < t0.len() {
                            assert(self.trees@[u] == t0[u]);
                        }
                    }
                }
            }
            i = i + 1;
        }
        proof {
            assert(file_views(files@).take(files@.len() as int) =~= file_views(files@));
        }
    }

    /// The final text of tree `t`: serialized, with its import rewritten.
    fn output_of(&mut self, t: usize) -> (r: String)
        requires
            old(self).inv(),
            t < old(self).trees@.len(),
        ensures
            final(self).inv(),
            final(self).entries() == old(self).entries(),
            final(self).config == old(self).config,
            final(self).trees@.len() == old(self).trees@.len(),
            final(self).outputs() == old(self).outputs(),
            final(self).pass_forms() == old(self).pass_forms(),
            final(self).state() == old(self).state(),
            final(self).fields == old(self).fields,
            final(self).module == old(self).module,
            final(self).extracted == old(self).extracted,
            r@ == old(self).outputs()[t as int].1,
    {
        proof {
            assert(self.trees@[t as int].1.wf());
        }
        let ghost tr0 = self.trees@;
        let content = self.trees[t].1.serialize_chars();
        proof {
            assert forall|u: int| 0 <= u < self.trees@.len() implies (#[trigger] self.trees@[u]).1.wf() by {
                if u != t {
                    assert(self.trees@[u] == tr0[u]);
                }
            }
            assert(tree_leaves(self.trees@) =~= tree_leaves(old(self).trees@)) by {
                assert forall|u: int| 0 <= u < self.trees@.len() implies tree_leaves(self.trees@)[u] == tree_leaves(old(self).trees@)[u] by {
                    if u != t {
                        assert(self.trees@[u] == tr0[u]);
                    } else {
                        assert(self.trees@[u].1.nodes_model().len() == self.trees@[u].1.nodes@.len());
                        assert(tr0[u].1.nodes_model().len() == tr0[u].1.nodes@.len());
                    }
                }
            }
            assert(tree_states(self.trees@) =~= tree_states(old(self).trees@)) by {
                assert forall|u: int| 0 <= u < self.trees@.len() implies tree_states(self.trees@)[u] == tree_states(old(self).trees@)[u] by {
                    if u != t {
                        assert(self.trees@[u] == tr0[u]);
                    }
                }
            }
            assert(self.outputs() =~= old(self).outputs()) by {
                assert forall|u: int| 0 <= u < self.trees@.len() implies #[trigger] self.outputs()[u] == old(self).outputs()[u] by {
                    if u != t {
                        assert(self.trees@[u] == tr0[u]);
                    }
                }
            }
        }
        let r = crate::writer::update_imports_chars(&content, &self.module);
        string_of(r.as_slice())
    }

    /// Sizes of all outputs (rewritten files and, when anything was
    /// extracted, the shared module): raw bytes, and compressed bytes when
    /// asked for.
    #[verifier::spinoff_prover]
    fn calculate_size(&mut self) -> (r: (u64, u64))
        requires
            old(self).inv(),
        ensures
            final(self).inv(),
            final(self).entries() == old(self).entries(),
            final(self).config == old(self).config,
            final(self).outputs() == old(self).outputs(),
            final(self).pass_forms() == old(self).pass_forms(),
            final(self).state() == old(self).state(),
            final(self).fields == old(self).fields,
            final(self).module == old(self).module,
            final(self).extracted == old(self).extracted,
            final(self).trees@.len() == old(self).trees@.len(),
            !old(self).config.compute_gzip ==> r.1 == 0,
            r.0 == state_size(old(self).state(), old(self).module@, false),
            old(self).config.compute_gzip ==> r.1 == state_size(old(self).state(), old(self).module@, true),
    {
        let ghost outs = self.outputs();
        proof {
            assert(outs =~= state_outputs(self.state().1, self.module@));
        }
        let mut raw: u64 = 0;
        let mut gz: u64 = 0;
        let mut t: usize = 0;
        while t < self.trees.len()
            invariant
                self.inv(),
                self.entries() == old(self).entries(),
                self.config == old(self).config,
                self.outputs() == old(self).outputs(),
                self.pass_forms() == old(self).pass_forms(),
                self.state() == old(self).state(),
                self.fields == old(self).fields,
                self.module == old(self).module,
                self.extracted == old(self).extracted,
                self.trees@.len() == old(self).trees@.len(),
                !self.config.compute_gzip ==> gz == 0,
                outs == self.outputs(),
                outs.len() == self.trees@.len(),
                t <= self.trees@.len(),
                raw == size_sum(outs, t as int, false),
                self.config.compute_gzip ==> gz == size_sum(outs, t as int, true),
            decreases self.trees@.len() - t,
        {
            let out = self.output_of(t);
            let n = out.as_str().len();
            raw = raw.saturating_add(n as u64);
            if self.config.compute_gzip {
                gz = gz.saturating_add(gzip_len(out.as_str()));
            }
            t = t + 1;
        }
        if self.extracted.len() > 0 {
            let shared = crate::writer::generate_shared_module_content(&self.extracted);
            proof {
                assert(crate::writer::entry_views(self.extracted@) =~= entry_pairs(self.entries()));
            }
            raw = raw.saturating_add(shared.as_str().len() as u64);
            if self.config.compute_gzip {
                gz = gz.saturating_add(gzip_len(shared.as_str()));
            }
        }
        (raw, gz)
    }
}

/// `a + b`, capped at the largest `u64`.
pub open spec fn sat_add(a: u64, b: int) -> u64 {
    if a + b > u64::MAX {
        u64::MAX
    } else {
        (a + b) as u64
    }
}

/// UTF-8 size of a text in bytes.
pub open spec fn utf8_size(t: Seq<char>) -> int {
    vstd::utf8::encode_utf8(t).len() as usize as int
}

/// Sum of the sizes of the first `k` texts of `outs`: UTF-8 bytes, or
/// compressed bytes when `compressed`.
pub open spec fn size_sum(outs: Seq<(Seq<char>, Seq<char>)>, k: int, compressed: bool) -> u64
    decreases k,
{
    if k <= 0 {
        0
    } else {
        sat_add(
            size_sum(outs, k - 1, compressed),
            if compressed {
                gzip_size(outs[k - 1].1) as int
            } else {
                utf8_size(outs[k - 1].1)
            },
        )
    }
}

/// The shared module of entries `es`.
pub open spec fn shared_text(es: Seq<(Seq<char>, Seq<char>, usize)>) -> Seq<char> {
    crate::writer::module_text(entry_pairs(es), crate::writer::emission(entry_pairs(es)))
}

/// Size of all outputs of an engine state: every file's final text and,
/// when there are entries, the shared module; in raw bytes, or compressed.
pub open spec fn state_size(
    st: (
        Seq<(Seq<char>, Seq<char>, usize)>,
        Seq<(Seq<char>, Seq<char>, Seq<crate::tree::NodeModel>)>,
        Seq<Seq<char>>,
        usize,
    ),
    module: Seq<char>,
    compressed: bool,
) -> u64 {
    let outs = state_outputs(st.1, module);
    let files = size_sum(outs, outs.len() as int, compressed);
    if st.0.len() > 0 {
        sat_add(
            files,
            if compressed {
                gzip_size(shared_text(st.0)) as int
            } else {
                utf8_size(shared_text(st.0))
            },
        )
    } else {
        files
    }
}

/// What a pass does, relating the engine before (`a`) and after (`b`) it
/// to the number `r` of new entries: the entries grow by the forms of the
/// leaf candidates counted at least the threshold and not yet entries, in
/// ascending order and each once, with their counts and identifiers; every
/// tree is marked accordingly; nothing else changes.
#[verifier::opaque]
pub open spec fn pass_post(a: Deduplicator, b: Deduplicator, r: usize) -> bool {
    &&& a.entries().is_prefix_of(b.entries())
    &&& b.entries().len() == a.entries().len() + r
    &&& forall|k: int|
        a.entries().len() <= k < b.entries().len() ==> {
            let e = #[trigger] b.entries()[k];
            &&& e.2 == occurrences(a.pass_forms(), e.0)
            &&& e.2 >= a.threshold()
        }
    &&& forall|f: Seq<char>|
        occurrences(a.pass_forms(), f) >= a.threshold()
            && a.pass_forms().contains(f) ==> exists|k: int|
            0 <= k < b.entries().len() && #[trigger] b.entries()[k].0 == f
    &&& sorted_by(entry_forms(b.entries().skip(a.entries().len() as int)), text_order())
    &&& entry_forms(b.entries().skip(a.entries().len() as int)).no_duplicates()
    &&& forall|k: int|
        a.entries().len() <= k < b.entries().len() ==> {
            let e = #[trigger] b.entries()[k];
            &&& a.pass_forms().contains(e.0)
            &&& !entry_forms(a.entries()).contains(e.0)
            &&& e.1 == crate::naming::next_name(
                entry_names(b.entries().take(k)),
                md5_hex(e.0),
            )
        }
    &&& b.field_names() == a.field_names()
    &&& b.file_trees().len() == a.file_trees().len()
    &&& forall|t: int|
        0 <= t < a.file_trees().len() ==> {
            let x = #[trigger] b.file_trees()[t];
            let y = a.file_trees()[t];
            &&& x.0 == y.0
            &&& x.1.text() == y.1.text()
            &&& x.1.nodes_model() == marked(
                y.1.text(),
                y.1.nodes_model(),
                tree_leaves(a.file_trees())[t],
                entry_forms(b.entries().skip(a.entries().len() as int)),
                entry_names(b.entries().skip(a.entries().len() as int)),
                a.field_names(),
                tree_leaves(a.file_trees())[t].len() as int,
            )
        }
    &&& b.threshold() == a.threshold()
}

/// Marking with no forms selected changes nothing.
proof fn lemma_marked_none(
    s: Seq<char>,
    m: Seq<crate::tree::NodeModel>,
    leaves: Seq<(usize, Seq<char>)>,
    sel: Seq<Seq<char>>,
    names: Seq<Seq<char>>,
    fields: Seq<Seq<char>>,
    k: int,
)
    requires
        sel.len() == 0,
    ensures
        marked(s, m, leaves, sel, names, fields, k) == m,
    decreases k,
{
    if k > 0 {
        lemma_marked_none(s, m, leaves, sel, names, fields, k - 1);
    }
}

impl Deduplicator {
    /// No form of a current leaf candidate reaches the threshold without
    /// already being an entry: a further pass would extract nothing.
    pub open spec fn at_fixpoint(&self) -> bool {
        forall|f: Seq<char>|
            #![trigger self.pass_forms().contains(f)]
            self.pass_forms().contains(f) && occurrences(self.pass_forms(), f) >= self.threshold()
                ==> entry_forms(self.entries()).contains(f)
    }

    /// The canonical forms of all current leaf candidates, file by file.
    pub closed spec fn pass_forms(&self) -> Seq<Seq<char>> {
        forms_of(tree_leaves(self.trees@))
    }

    /// Each file's name and final text.
    pub closed spec fn outputs(&self) -> Seq<(Seq<char>, Seq<char>)> {
        outputs_of(self.trees@, self.module@)
    }

    /// The trees, file by file.
    pub closed spec fn file_trees(&self) -> Seq<(String, FileTree)> {
        self.trees@
    }

    /// The order-insensitive field names.
    pub closed spec fn field_names(&self) -> Seq<Seq<char>> {
        texts(self.fields@)
    }

    /// One pass: counts the canonical forms of all leaf candidates across
    /// files; every form counted at least the threshold and not yet an entry
    /// becomes a new entry, in ascending order of form, named by the name
    /// generator from its fingerprint; then every leaf candidate with such a
    /// form is marked extracted. Returns the number of new entries.
    #[verifier::spinoff_prover]
    fn run_pass(&mut self) -> (r: usize)
        requires
            old(self).inv(),
        ensures
            final(self).inv(),
            final(self).config == old(self).config,
            final(self).fields == old(self).fields,
            final(self).module == old(self).module,
            old(self).entries().is_prefix_of(final(self).entries()),
            final(self).entries().len() == old(self).entries().len() + r,
            pass_post(*old(self), *final(self), r),
    {
        broadcast use vstd::seq_lib::group_to_multiset_ensures;

        let ghost forms = self.pass_forms();
        let ghost all_leaves = tree_leaves(self.trees@);
        let mut leaves_by_file: Vec<Vec<(usize, Vec<char>)>> = Vec::new();
        let mut all: Vec<Vec<char>> = Vec::new();
        let mut t: usize = 0;
        while t < self.trees.len()
            invariant
                self.inv(),
                *self == *old(self),
                all_leaves == tree_leaves(self.trees@),
                t <= self.trees@.len(),
                leaves_by_file@.len() == t,
                forall|j: int| 0 <= j < t ==> leaf_views(#[trigger] leaves_by_file@[j]@) == all_leaves[j],
                texts(all@) == forms_of(all_leaves.take(t as int)),
            decreases self.trees@.len() - t,
        {
            proof {
                assert(self.trees@[t as int].1.wf());
            }
            let l = self.trees[t].1.find_leaves();
            let ghost a0 = texts(all@);
            let mut j: usize = 0;
            while j < l.len()
                invariant
                    j <= l@.len(),
                    texts(all@) == a0 + leaf_views(l@).take(j as int).map_values(|p: (usize, Seq<char>)| p.1),
                decreases l@.len() - j,
            {
                let f = l[j].1.clone();
                let ghost b = texts(all@);
                all.push(f);
                proof {
                    assert(texts(all@) =~= b.push(l@[j as int].1@));
                    assert(leaf_views(l@).take(j + 1).map_values(|p: (usize, Seq<char>)| p.1) =~= leaf_views(
                        l@,
                    ).take(j as int).map_values(|p: (usize, Seq<char>)| p.1).push(l@[j as int].1@));
                }
                j = j + 1;
            }
            proof {
                assert(leaf_views(l@).take(l@.len() as int) =~= leaf_views(l@));
                assert(all_leaves.take(t + 1).drop_last() =~= all_leaves.take(t as int));
                assert(all_leaves.take(t + 1).last() == all_leaves[t as int]);
            }
            proof {
                assert(all_leaves[t as int] == leaf_views(l@));
            }
            let ghost lb0 = leaves_by_file@;
            leaves_by_file.push(l);
            proof {
                assert forall|j: int| 0 <= j < t + 1 implies leaf_views(#[trigger] leaves_by_file@[j]@) == all_leaves[j] by {
                    if j < t {
                        assert(leaves_by_file@[j] == lb0[j]);
                    }
                }
            }
            t = t + 1;
        }
        proof {
            assert(all_leaves.take(all_leaves.len() as int) =~= all_leaves);
        }
        let (keys, counts) = count_forms(&all);
        let mut picked: Vec<Vec<char>> = Vec::new();
        let mut k: usize = 0;
        while k < keys.len()
            invariant
                *self == *old(self),
                self.inv(),
                keys@.len() == counts@.len(),
                k <= keys@.len(),
                texts(all@) == forms,
                forall|i: int| 0 <= i < keys@.len() ==> #[trigger] counts@[i] == occurrences(forms, keys@[i]@),
                forall|i: int| 0 <= i < keys@.len() ==> #[trigger] counts@[i] >= 1,
                forall|i1: int, i2: int| 0 <= i1 < i2 < keys@.len() ==> keys@[i1]@ != keys@[i2]@,
                forall|i: int|
                    0 <= i < picked@.len() ==> {
                        let f = #[trigger] picked@[i]@;
                        &&& occurrences(forms, f) >= self.config.min_occurrences
                        &&& !texts(self.keys@).contains(f)
                        &&& forms.contains(f)
                    },
                picked@.no_duplicates(),
                texts(picked@).no_duplicates(),
                forall|i: int|
                    0 <= i < k && counts@[i] >= self.config.min_occurrences && !texts(self.keys@).contains(
                        keys@[i]@,
                    ) ==> #[trigger] texts(picked@).contains(keys@[i]@),
                forall|i: int| #![trigger picked@[i]] 0 <= i < picked@.len() ==> exists|j: int| 0 <= j < k && #[trigger] keys@[j]@ == picked@[i]@,
            decreases keys@.len() - k,
        {
            if counts[k] >= self.config.min_occurrences && !contains_name(&self.keys, &keys[k]) {
                let f = keys[k].clone();
                let ghost p0 = picked@;
                picked.push(f);
                proof {
                    assert forall|i: int|
                        0 <= i < picked@.len() implies {
                            let f = #[trigger] picked@[i]@;
                            &&& occurrences(forms, f) >= self.config.min_occurrences
                            &&& !texts(self.keys@).contains(f)
                            &&& forms.contains(f)
                        } by {
                        if i < p0.len() {
                            assert(picked@[i] == p0[i]);
                        } else {
                            assert(picked@[i]@ == keys@[k as int]@);
                            forms.to_multiset_ensures();
                            assert(counts@[k as int] >= 1);
                            assert(forms.to_multiset().count(keys@[k as int]@) > 0);
                            assert(forms.contains(keys@[k as int]@));
                        }
                    }
                    assert(counts@[k as int] >= 1);
                    assert(forms.to_multiset().count(keys@[k as int]@) > 0);
                    assert(texts(picked@) =~= texts(p0).push(keys@[k as int]@));
                    assert forall|i: int| #![trigger picked@[i]] 0 <= i < picked@.len() implies exists|j: int| 0 <= j < k + 1 && #[trigger] keys@[j]@ == picked@[i]@ by {
                        if i < p0.len() {
                            let j = choose|j: int| 0 <= j < k && #[trigger] keys@[j]@ == p0[i]@;
                            assert(keys@[j]@ == picked@[i]@);
                        } else {
                            assert(keys@[k as int]@ == picked@[i]@);
                        }
                    }
                    assert(texts(picked@).no_duplicates()) by {
                        assert forall|a: int, b: int| 0 <= a < b < texts(picked@).len() implies texts(picked@)[a] != texts(picked@)[b] by {
                            if b == p0.len() {
                                let j = choose|j: int| 0 <= j < k && #[trigger] keys@[j]@ == p0[a]@;
                                assert(keys@[j]@ != keys@[k as int]@);
                            } else {
                                assert(texts(p0)[a] != texts(p0)[b]);
                            }
                        }
                    }
                    assert(picked@.no_duplicates()) by {
                        assert forall|a: int, b: int| 0 <= a < b < picked@.len() implies picked@[a] != picked@[b] by {
                            assert(texts(picked@)[a] != texts(picked@)[b]);
                        }
                    }
                    assert forall|i: int|
                        0 <= i < k + 1 && counts@[i] >= self.config.min_occurrences && !texts(self.keys@).contains(
                            keys@[i]@,
                        ) implies #[trigger] texts(picked@).contains(keys@[i]@) by {
                        if i < k {
                            assert(texts(p0).contains(keys@[i]@));
                            let q = choose|q: int| 0 <= q < texts(p0).len() && #[trigger] texts(p0)[q] == keys@[i]@;
                            assert(texts(picked@)[q] == texts(p0)[q]);
                            assert(texts(picked@)[q] == keys@[i]@);
                        } else {
                            assert(texts(picked@)[p0.len() as int] == keys@[i]@);
                        }
                    }
                }
            }
            k = k + 1;
        }
        let ghost unsorted = texts(picked@);
        let ghost pv = picked@;
        let selected = sort_texts(picked);
        proof {
            assert forall|i: int|
                0 <= i < unsorted.len() implies {
                    let f = #[trigger] unsorted[i];
                    &&& occurrences(forms, f) >= self.config.min_occurrences
                    &&& !texts(self.keys@).contains(f)
                    &&& forms.contains(f)
                } by {
                assert(unsorted[i] == pv[i]@);
            }
            crate::text::lemma_text_leq_total();
            unsorted.lemma_sort_by_ensures(text_order());
            unsorted.lemma_multiset_has_no_duplicates();
            assert forall|x: Seq<char>| texts(selected@).to_multiset().contains(x) implies texts(selected@).to_multiset().count(x) == 1 by {
                assert(unsorted.to_multiset().count(x) == texts(selected@).to_multiset().count(x));
            }
            texts(selected@).lemma_multiset_has_no_duplicates_conv();
        }
        let ghost e0 = self.entries();
        let ghost old_keys = texts(self.keys@);
        let mut names: Vec<Vec<char>> = Vec::new();
        let mut j: usize = 0;
        while j < selected.len()
            invariant
                self.inv(),
                self.config == old(self).config,
                self.trees == old(self).trees,
                self.fields == old(self).fields,
                self.module == old(self).module,
                e0 == old(self).entries(),
                old_keys == texts(old(self).keys@),
                e0.is_prefix_of(self.entries()),
                self.entries().len() == e0.len() + j,
                texts(self.keys@) == old_keys + texts(selected@).take(j as int),
                j <= selected@.len(),
                names@.len() == j,
                texts(selected@).no_duplicates(),
                forall|x: Seq<char>| #[trigger] texts(selected@).contains(x) ==> unsorted.contains(x),
                forall|i: int|
                    0 <= i < unsorted.len() ==> {
                        let f = #[trigger] unsorted[i];
                        &&& occurrences(forms, f) >= self.config.min_occurrences
                        &&& !old_keys.contains(f)
                        &&& forms.contains(f)
                    },
                texts(all@) == forms,
                forall|x: Seq<char>| texts(all@).contains(x) ==> #[trigger] texts(keys@).contains(x),
                forall|k2: int|
                    e0.len() <= k2 < self.entries().len() ==> {
                        let e = #[trigger] self.entries()[k2];
                        &&& e.0 == selected@[k2 - e0.len()]@
                        &&& e.1 == names@[k2 - e0.len()]@
                        &&& e.2 == occurrences(forms, e.0)
                        &&& e.1 == crate::naming::next_name(entry_names(self.entries().take(k2)), md5_hex(e.0))
                    },
                keys@.len() == counts@.len(),
                forall|i: int| 0 <= i < keys@.len() ==> #[trigger] counts@[i] == occurrences(forms, keys@[i]@),
            decreases selected@.len() - j,
        {
            let f = &selected[j];
            proof {
                assert(texts(selected@)[j as int] == f@);
                assert(texts(selected@).contains(f@));
                assert(unsorted.contains(f@));
                let i = choose|i: int| 0 <= i < unsorted.len() && unsorted[i] == f@;
                assert(occurrences(forms, unsorted[i]) >= self.config.min_occurrences);
                assert(forms.contains(unsorted[i]));
                assert(texts(keys@).contains(f@));
            }
            let count = lookup_count(&keys, &counts, f);
            let fs = string_of(f.as_slice());
            let hash = hash_string(fs.as_str());
            let hc = chars_of(hash.as_str());
            let ghost gen_before = self.name_generator@;
            proof {
                let g = self.entries().map_values(|e: (Seq<char>, Seq<char>, usize)| e.1);
                assert(gen_before == g);
                assert forall|q: int| 0 <= q < g.len() implies g[q] == entry_names(self.entries())[q] by {}
            }
            let name = self.name_generator.next_chars(&hc);
            let ns = string_of(name.as_slice());
            let ghost x0 = self.extracted@;
            let ghost k0 = self.keys@;
            let ghost en0 = self.entries();
            let ghost gen0 = self.name_generator@;
            proof {
                assert(gen_before =~= entry_names(en0));
            }
            self.extracted.push((fs, ExtractedEntry { name: ns, hash, count }));
            let fc = f.clone();
            self.keys.push(fc);
            names.push(name);
            proof {
                let ne = (f@, name@, count);
                assert(self.entries() =~= en0.push(ne));
                assert(self.entries().take(en0.len() as int) =~= en0);
                assert forall|k2: int| e0.len() <= k2 < self.entries().len() implies
                    #[trigger] self.entries()[k2].1 == crate::naming::next_name(entry_names(self.entries().take(k2)), md5_hex(self.entries()[k2].0)) by {
                    if k2 < en0.len() {
                        assert(self.entries()[k2] == en0[k2]);
                        assert(self.entries().take(k2) =~= en0.take(k2));
                    }
                }
                assert(self.entries().map_values(|e: (Seq<char>, Seq<char>, usize)| e.1) =~= en0.map_values(
                    |e: (Seq<char>, Seq<char>, usize)| e.1,
                ).push(name@));
                assert(texts(self.keys@) =~= texts(k0).push(f@));
                assert(texts(selected@).take(j + 1) =~= texts(selected@).take(j as int).push(f@));
                assert(texts(self.keys@) =~= old_keys + texts(selected@).take(j + 1));
                let i = choose|i: int| 0 <= i < unsorted.len() && unsorted[i] == f@;
                assert(!old_keys.contains(f@));
                assert forall|k1: int, k2: int| 0 <= k1 < k2 < self.keys@.len() implies self.keys@[k1]@ != self.keys@[k2]@ by {
                    if k2 == k0.len() {
                        assert(self.keys@[k1]@ == texts(self.keys@)[k1]);
                        if k1 < old_keys.len() {
                            assert(old_keys[k1] == self.keys@[k1]@);
                        } else {
                            assert(texts(selected@)[k1 - old_keys.len()] == self.keys@[k1]@);
                            assert(texts(selected@)[j as int] == f@);
                        }
                    } else {
                        assert(self.keys@[k1] == k0[k1] && self.keys@[k2] == k0[k2]);
                    }
                }
                assert forall|k: int| 0 <= k < self.keys@.len() implies #[trigger] self.keys@[k]@ == self.extracted@[k].0@ by {
                    if k < k0.len() {
                        assert(self.keys@[k] == k0[k] && self.extracted@[k] == x0[k]);
                    }
                }
                assert forall|k: int| 0 <= k < self.extracted@.len() implies (#[trigger] self.extracted@[k]).1.count >= self.config.min_occurrences by {
                    if k < x0.len() {
                        assert(self.extracted@[k] == x0[k]);
                    }
                }
                assert forall|k: int| 0 <= k < self.extracted@.len() implies (#[trigger] self.extracted@[k]).1.hash@ == md5_hex(self.extracted@[k].0@) by {
                    if k < x0.len() {
                        assert(self.extracted@[k] == x0[k]);
                    }
                }
                assert(e0.is_prefix_of(self.entries()));
            }
            j = j + 1;
        }
        proof {
            assert(texts(selected@).take(selected@.len() as int) =~= texts(selected@));
            assert forall|f: Seq<char>|
                occurrences(forms, f) >= old(self).config.min_occurrences && forms.contains(f) implies exists|k: int|
                    0 <= k < self.entries().len() && #[trigger] self.entries()[k].0 == f by {
                assert(texts(all@).contains(f));
                assert(texts(keys@).contains(f));
                let i = choose|i: int| 0 <= i < keys@.len() && #[trigger] texts(keys@)[i] == f;
                assert(keys@[i]@ == f);
                if old_keys.contains(f) {
                    let q = choose|q: int| 0 <= q < old_keys.len() && old_keys[q] == f;
                    assert(old(self).keys@[q]@ == old(self).extracted@[q].0@);
                    assert(e0[q].0 == f);
                    assert(self.entries()[q] == e0[q]);
                } else {
                    assert(unsorted.contains(f));
                    assert(unsorted.to_multiset().count(f) > 0);
                    assert(texts(selected@).to_multiset().count(f) > 0);
                    assert(texts(selected@).contains(f));
                    let q = choose|q: int| 0 <= q < texts(selected@).len() && texts(selected@)[q] == f;
                    assert(self.entries()[e0.len() + q].0 == f);
                }
            }
        }
        proof {
            assert(texts(selected@) =~= entry_forms(self.entries().skip(e0.len() as int)));
            assert(texts(names@) =~= entry_names(self.entries().skip(e0.len() as int)));
            assert forall|j: int| 0 <= j < self.trees@.len() implies leaf_views(#[trigger] leaves_by_file@[j]@) == tree_leaves(self.trees@)[j] by {}
        }
        self.mark_all_trees(&leaves_by_file, &selected, &names);
        proof {
            reveal(pass_post);
            let ne = self.entries();
            assert(entry_forms(e0) =~= old_keys) by {
                assert forall|q: int| 0 <= q < e0.len() implies entry_forms(e0)[q] == old_keys[q] by {
                    assert(old(self).keys@[q]@ == old(self).extracted@[q].0@);
                }
            }
            assert forall|k: int| e0.len() <= k < ne.len() implies {
                let e = #[trigger] ne[k];
                &&& forms.contains(e.0)
                &&& !entry_forms(e0).contains(e.0)
            } by {
                let q = k - e0.len();
                assert(texts(selected@)[q] == ne[k].0);
                assert(texts(selected@).contains(ne[k].0));
                assert(unsorted.contains(ne[k].0));
                let i = choose|i: int| 0 <= i < unsorted.len() && unsorted[i] == ne[k].0;
                assert(forms.contains(unsorted[i]));
            }
        }
        selected.len()
    }
}

impl Deduplicator {
    /// Marks, in tree `t`, every leaf candidate of `leaves` whose form is in
    /// `selected` with the identifier at the same position in `names`.
    #[verifier::rlimit(40)]
    #[verifier::spinoff_prover]
    fn mark_tree(
        &mut self,
        t: usize,
        leaves: &Vec<(usize, Vec<char>)>,
        selected: &Vec<Vec<char>>,
        names: &Vec<Vec<char>>,
    )
        requires
            old(self).inv(),
            t < old(self).trees@.len(),
            names@.len() == selected@.len(),
        ensures
            final(self).inv(),
            final(self).entries() == old(self).entries(),
            final(self).config == old(self).config,
            final(self).fields == old(self).fields,
            final(self).module == old(self).module,
            final(self).trees@.len() == old(self).trees@.len(),
            forall|u: int| 0 <= u < old(self).trees@.len() && u != t ==> #[trigger] final(self).trees@[u] == old(self).trees@[u],
            final(self).trees@[t as int].0 == old(self).trees@[t as int].0,
            final(self).trees@[t as int].1.text() == old(self).trees@[t as int].1.text(),
            final(self).trees@[t as int].1.nodes_model() == marked(
                old(self).trees@[t as int].1.text(),
                old(self).trees@[t as int].1.nodes_model(),
                leaf_views(leaves@),
                texts(selected@),
                texts(names@),
                texts(old(self).fields@),
                leaves@.len() as int,
            ),
    {
        let ghost lv = leaf_views(leaves@);
        let ghost sel = texts(selected@);
        let ghost nms = texts(names@);
        let ghost b = old(self).trees@[t as int];
        let mut i: usize = 0;
        while i < leaves.len()
            invariant
                self.inv(),
                self.entries() == old(self).entries(),
                self.config == old(self).config,
                self.fields == old(self).fields,
                self.module == old(self).module,
                t < self.trees@.len(),
                self.trees@.len() == old(self).trees@.len(),
                forall|u: int| 0 <= u < old(self).trees@.len() && u != t ==> #[trigger] self.trees@[u] == old(self).trees@[u],
                lv == leaf_views(leaves@),
                sel == texts(selected@),
                nms == texts(names@),
                names@.len() == selected@.len(),
                b == old(self).trees@[t as int],
                i <= leaves@.len(),
                self.trees@[t as int].0 == b.0,
                self.trees@[t as int].1.text() == b.1.text(),
                self.trees@[t as int].1.nodes_model() == marked(b.1.text(), b.1.nodes_model(), lv, sel, nms, texts(self.fields@), i as int),
            decreases leaves@.len() - i,
        {
            let idx = leaves[i].0;
            let ghost f = leaves@[i as int].1@;
            proof {
                assert(lv[i as int] == (idx, f));
            }
            let ghost m0 = self.trees@[t as int].1.nodes_model();
            match crate::writer::find_name(selected, &leaves[i].1) {
                Some(q) => {
                    proof {
                        assert(sel[q as int] == f);
                        assert(sel.contains(f));
                        lemma_first_index(sel, f, q as int);
                    }
                    if idx < self.trees[t].1.nodes.len() {
                        proof {
                            assert(self.trees@[t as int].1.wf());
                        }
                        let nm = names[q].clone();
                        let ghost tr0 = self.trees@;
                        self.trees[t].1.mark_extracted(idx, nm, &self.fields);
                        proof {
                            assert(nms[q as int] == nm@);
                            assert forall|u: int| 0 <= u < self.trees@.len() implies (#[trigger] self.trees@[u]).1.wf() by {
                                if u != t {
                                    assert(self.trees@[u] == tr0[u]);
                                }
                            }
                            assert forall|u: int| 0 <= u < old(self).trees@.len() && u != t implies #[trigger] self.trees@[u] == old(self).trees@[u] by {
                                assert(self.trees@[u] == tr0[u]);
                            }
                        }
                    } else {
                        proof {
                            assert(m0.len() == self.trees@[t as int].1.nodes@.len());
                        }
                    }
                },
                None => {
                    proof {
                        if sel.contains(f) {
                            let q = choose|q: int| 0 <= q < sel.len() && sel[q] == f;
                            assert(selected@[q]@ != leaves@[i as int].1@);
                        }
                    }
                },
            }
            i = i + 1;
        }
    }

    /// Marks every tree with `mark_tree`, tree `t` with `leaves_by_file[t]`.
    #[verifier::spinoff_prover]
    fn mark_all_trees(
        &mut self,
        leaves_by_file: &Vec<Vec<(usize, Vec<char>)>>,
        selected: &Vec<Vec<char>>,
        names: &Vec<Vec<char>>,
    )
        requires
            old(self).inv(),
            leaves_by_file@.len() == old(self).trees@.len(),
            names@.len() == selected@.len(),
        ensures
            final(self).inv(),
            final(self).entries() == old(self).entries(),
            final(self).config == old(self).config,
            final(self).fields == old(self).fields,
            final(self).module == old(self).module,
            final(self).trees@.len() == old(self).trees@.len(),
            forall|u: int|
                0 <= u < old(self).trees@.len() ==> {
                    let a = #[trigger] final(self).trees@[u];
                    let bb = old(self).trees@[u];
                    &&& a.0 == bb.0
                    &&& a.1.text() == bb.1.text()
                    &&& a.1.nodes_model() == marked(
                        bb.1.text(),
                        bb.1.nodes_model(),
                        leaf_views(leaves_by_file@[u]@),
                        texts(selected@),
                        texts(names@),
                        texts(old(self).fields@),
                        leaves_by_file@[u]@.len() as int,
                    )
                },
    {
        let mut t: usize = 0;
        while t < self.trees.len()
            invariant
                self.inv(),
                self.entries() == old(self).entries(),
                self.config == old(self).config,
                self.fields == old(self).fields,
                self.module == old(self).module,
                self.trees@.len() == old(self).trees@.len(),
                leaves_by_file@.len() == old(self).trees@.len(),
                names@.len() == selected@.len(),
                t <= self.trees@.len(),
                forall|u: int|
                    0 <= u < old(self).trees@.len() ==> {
                        let a = #[trigger] self.trees@[u];
                        let bb = old(self).trees@[u];
                        &&& a.0 == bb.0
                        &&& a.1.text() == bb.1.text()
                        &&& u < t ==> a.1.nodes_model() == marked(
                            bb.1.text(),
                            bb.1.nodes_model(),
                            leaf_views(leaves_by_file@[u]@),
                            texts(selected@),
                            texts(names@),
                            texts(old(self).fields@),
                            leaves_by_file@[u]@.len() as int,
                        )
                        &&& u >= t ==> a == bb
                    },
            decreases self.trees@.len() - t,
        {
            let ghost tr0 = self.trees@;
            self.mark_tree(t, &leaves_by_file[t], selected, names);
            proof {
                assert forall|u: int| 0 <= u < old(self).trees@.len() implies {
                    let a = #[trigger] self.trees@[u];
                    let bb = old(self).trees@[u];
                    &&& a.0 == bb.0
                    &&& a.1.text() == bb.1.text()
                    &&& u < t + 1 ==> a.1.nodes_model() == marked(
                        bb.1.text(),
                        bb.1.nodes_model(),
                        leaf_views(leaves_by_file@[u]@),
                        texts(selected@),
                        texts(names@),
                        texts(old(self).fields@),
                        leaves_by_file@[u]@.len() as int,
                    )
                    &&& u >= t + 1 ==> a == bb
                } by {
                    if u != t {
                        assert(self.trees@[u] == tr0[u]);
                    }
                }
            }
            t = t + 1;
        }
    }
}

pub open spec fn file_views(v: Seq<(String, String)>) -> Seq<(Seq<char>, Seq<char>)> {
    v.map_values(|p: (String, String)| (p.0@, p.1@))
}

impl Deduplicator {
    /// Runs passes until one adds no entry or the pass budget is spent;
    /// returns the number of passes.
    #[verifier::spinoff_prover]
    fn run_passes(&mut self) -> (passes: usize)
        requires
            old(self).inv(),
        ensures
            final(self).inv(),
            final(self).config == old(self).config,
            final(self).fields == old(self).fields,
            final(self).module == old(self).module,
            old(self).entries().is_prefix_of(final(self).entries()),
            1 <= passes,
            passes <= old(self).config.max_passes || passes == 1,
            passes < old(self).config.max_passes ==> final(self).at_fixpoint(),
            exists|tr: Seq<Deduplicator>, rs: Seq<usize>|
                #[trigger] pass_trace(tr, rs, old(self).config.max_passes) && tr[0] == *old(self)
                    && tr[tr.len() - 1] == *final(self) && passes == rs.len(),
    {
        let ghost mut tr: Seq<Deduplicator> = seq![*self];
        let ghost mut rs: Seq<usize> = Seq::empty();
        let mut passes: usize = 0;
        let mut done = false;
        while !done
            invariant
                self.inv(),
                self.config == old(self).config,
                self.fields == old(self).fields,
                self.module == old(self).module,
                tr.len() == passes + 1,
                rs.len() == passes,
                tr[passes as int] == *self,
                tr[0] == *old(self),
                old(self).entries().is_prefix_of(self.entries()),
                forall|i: int| 0 <= i < passes ==> (#[trigger] tr[i]).inv() && pass_post(tr[i], tr[i + 1], rs[i]),
                forall|i: int| 0 <= i < passes - 1 ==> #[trigger] rs[i] != 0 && i + 1 < self.config.max_passes,
                !done && passes > 0 ==> rs[passes - 1] != 0 && passes < self.config.max_passes,
                done ==> rs[passes - 1] == 0 || passes >= self.config.max_passes,
                passes <= self.config.max_passes || passes == 1,
                done ==> passes >= 1,
                done && passes < self.config.max_passes ==> self.at_fixpoint(),
                !done ==> passes == 0 || passes < self.config.max_passes,
            decreases self.config.max_passes + 1 - passes + (if done {
                0int
            } else {
                1int
            }),
        {
            passes = passes + 1;
            let ghost e1 = self.entries();
            let ghost prev = *self;
            let n = self.run_pass();
            proof {
                tr = tr.push(*self);
                rs = rs.push(n);
                lemma_trace_extend(tr, rs, passes as int, prev, self.config.max_passes);
                if n == 0 {
                    lemma_fixpoint_after_empty_pass(prev, *self);
                }
                assert(old(self).entries().is_prefix_of(self.entries())) by {
                    assert forall|k: int| 0 <= k < old(self).entries().len() implies old(self).entries()[k] == self.entries()[k] by {
                        assert(e1[k] == self.entries()[k]);
                    }
                }
            }
            if n == 0 || passes >= self.config.max_passes {
                done = true;
            }
        }
        proof {
            assert(pass_trace(tr, rs, old(self).config.max_passes));
        }
        passes
    }

    /// Runs the whole deduplication on `files` (name and text of each):
    /// builds one tree per file, runs passes until one extracts nothing or
    /// the pass budget is spent, and hands back the statistics together with
    /// the rewritten files and the shared module to write. On a dry run
    /// nothing is handed back to write.
    #[verifier::spinoff_prover]
    pub fn run(&mut self, files: Vec<(String, String)>) -> (r: RunOutcome)
        requires
            old(self).inv(),
        ensures
            final(self).inv(),
            final(self).threshold() == old(self).threshold(),
            final(self).is_dry_run() == old(self).is_dry_run(),
            final(self).pass_budget() == old(self).pass_budget(),
            old(self).entries().is_prefix_of(final(self).entries()),
            r.stats.total_extracted == final(self).entries().len(),
            1 <= r.stats.passes,
            r.stats.passes <= old(self).pass_budget() || r.stats.passes == 1,
            old(self).is_dry_run() ==> r.files@.len() == 0 && r.shared_module is None,
            !old(self).is_dry_run() ==> file_views(r.files@) == final(self).outputs(),
            !old(self).is_dry_run() ==> (r.shared_module is Some <==> final(self).entries().len()
                > 0),
            r.stats.passes < old(self).pass_budget() ==> final(self).at_fixpoint(),
            run_post(*old(self), files@, *final(self), r),
            r.stats.raw_before == state_size(
                (
                    old(self).entries(),
                    loaded_states(file_views(files@), old(self).field_names()),
                    old(self).field_names(),
                    old(self).threshold(),
                ),
                old(self).module_name(),
                false,
            ),
            r.stats.raw_after == state_size(final(self).state(), old(self).module_name(), false),
            old(self).gzip_on() ==> r.stats.gzipped_before == state_size(
                (
                    old(self).entries(),
                    loaded_states(file_views(files@), old(self).field_names()),
                    old(self).field_names(),
                    old(self).threshold(),
                ),
                old(self).module_name(),
                true,
            ),
            old(self).gzip_on() ==> r.stats.gzipped_after == state_size(final(self).state(), old(self).module_name(), true),
            !old(self).gzip_on() ==> r.stats.gzipped_before == 0 && r.stats.gzipped_after == 0,
    {
        self.load_files(&files);
        let (raw_before, gz_before) = self.calculate_size();
        let ghost start = *self;
        proof {
            assert(start.state() == (
                old(self).entries(),
                loaded_states(file_views(files@), old(self).field_names()),
                old(self).field_names(),
                old(self).threshold(),
            ));
        }
        let passes = self.run_passes();
        let ghost after = *self;
        let total = self.extracted.len();
        let mut out: Vec<(String, String)> = Vec::new();
        let mut shared: Option<String> = None;
        if !self.config.dry_run {
            let mut t: usize = 0;
            while t < self.trees.len()
                invariant
                    self.inv(),
                    self.config == old(self).config,
                    old(self).entries().is_prefix_of(self.entries()),
                    total == self.entries().len(),
                    passes < self.config.max_passes ==> self.at_fixpoint(),
                    self.state() == after.state(),
                    self.fields == old(self).fields,
                    self.module == old(self).module,
                    self.extracted == after.extracted,
                    t <= self.trees@.len(),
                    file_views(out@) == self.outputs().take(t as int),
                decreases self.trees@.len() - t,
            {
                let ghost o0 = self.outputs();
                let name = self.trees[t].0.clone();
                let text = self.output_of(t);
                let ghost f0 = file_views(out@);
                out.push((name, text));
                proof {
                    assert(file_views(out@) =~= f0.push(o0[t as int]));
                    assert(o0.take(t + 1) =~= o0.take(t as int).push(o0[t as int]));
                }
                t = t + 1;
            }
            proof {
                assert(self.outputs().take(self.trees@.len() as int) =~= self.outputs());
            }
            if self.extracted.len() > 0 {
                shared = Some(crate::writer::generate_shared_module_content(&self.extracted));
            }
        }
        let (raw_after, gz_after) = self.calculate_size();
        proof {
            let (tr, rs) = choose|tr: Seq<Deduplicator>, rs: Seq<usize>|
                #[trigger] pass_trace(tr, rs, start.config.max_passes) && tr[0] == start
                    && tr[tr.len() - 1] == after && passes == rs.len();
            assert(tr[0].state() == start.state());
            assert(self.state() == after.state());
            assert(pass_trace(tr, rs, old(self).pass_budget()));
            assert(self.outputs() =~= state_outputs(self.state().1, self.module@));
            assert(self.shared_views() =~= entry_pairs(self.state().0));
        }
        RunOutcome {
            stats: Stats {
                raw_before,
                raw_after,
                gzipped_before: gz_before,
                gzipped_after: gz_after,
                total_extracted: total,
                passes,
            },
            files: out,
            shared_module: shared,
        }
    }
}

impl Deduplicator {
    /// The shared module's file name.
    pub closed spec fn module_name(&self) -> Seq<char> {
        self.module@
    }

    /// Whether compressed sizes are computed.
    pub closed spec fn gzip_on(&self) -> bool {
        self.config.compute_gzip
    }

    /// Canonical text and identifier of each entry, as the shared module
    /// renders them.
    pub closed spec fn shared_views(&self) -> Seq<(Seq<char>, Seq<char>)> {
        crate::writer::entry_views(self.extracted@)
    }
}

/// Canonical text and identifier of each entry.
pub open spec fn entry_pairs(es: Seq<(Seq<char>, Seq<char>, usize)>) -> Seq<(Seq<char>, Seq<char>)> {
    es.map_values(|e: (Seq<char>, Seq<char>, usize)| (e.0, e.1))
}

/// Each file's name and final text, from the name, text and nodes of its
/// tree.
pub open spec fn state_outputs(
    ts: Seq<(Seq<char>, Seq<char>, Seq<crate::tree::NodeModel>)>,
    module: Seq<char>,
) -> Seq<(Seq<char>, Seq<char>)> {
    ts.map_values(
        |t: (Seq<char>, Seq<char>, Seq<crate::tree::NodeModel>)|
            (t.0, imports_updated(serialized(t.1, t.2), module)),
    )
}

/// The passes of a run: `tr[i]` is the engine before pass `i` and
/// `tr[i + 1]` after it, `rs[i]` the number of entries it added. Passes go
/// on while a pass adds entries and the budget allows; the last one adds
/// none or reaches the budget.
pub open spec fn pass_trace(tr: Seq<Deduplicator>, rs: Seq<usize>, budget: usize) -> bool {
    &&& rs.len() >= 1
    &&& tr.len() == rs.len() + 1
    &&& forall|i: int| 0 <= i < rs.len() ==> (#[trigger] tr[i]).inv() && pass_post(tr[i], tr[i + 1], rs[i])
    &&& forall|i: int| 0 <= i < rs.len() - 1 ==> #[trigger] rs[i] != 0 && i + 1 < budget
    &&& rs[rs.len() - 1] == 0 || rs.len() >= budget
}

/// What a run does, relating the engine before (`a`) and after (`b`) it,
/// the files handed in and the outcome: the trees of the files are built,
/// passes run as `pass_trace` says, and, unless on a dry run, the outcome
/// holds every file's final text and, when there are entries, the shared
/// module.
pub open spec fn run_post(a: Deduplicator, files: Seq<(String, String)>, b: Deduplicator, r: RunOutcome) -> bool {
    &&& exists|tr: Seq<Deduplicator>, rs: Seq<usize>|
        #[trigger] pass_trace(tr, rs, a.pass_budget()) && tr[0].state() == (
            a.entries(),
            loaded_states(file_views(files), a.field_names()),
            a.field_names(),
            a.threshold(),
        ) && tr[tr.len() - 1].state() == b.state() && r.stats.passes == rs.len()
    &&& b.module_name() == a.module_name()
    &&& a.is_dry_run() ==> r.files@.len() == 0 && r.shared_module is None
    &&& !a.is_dry_run() ==> file_views(r.files@) == state_outputs(b.state().1, a.module_name())
    &&& !a.is_dry_run() ==> (r.shared_module is Some <==> b.state().0.len() > 0)
    &&& !a.is_dry_run() ==> (r.shared_module matches Some(m) ==> m@ == crate::writer::module_text(
        entry_pairs(b.state().0),
        crate::writer::emission(entry_pairs(b.state().0)),
    ))
    &&& r.stats.total_extracted == b.state().0.len()
    &&& r.stats.raw_before == state_size(
        (a.entries(), loaded_states(file_views(files), a.field_names()), a.field_names(), a.threshold()),
        a.module_name(),
        false,
    )
    &&& r.stats.raw_after == state_size(b.state(), a.module_name(), false)
    &&& a.gzip_on() ==> r.stats.gzipped_before == state_size(
        (a.entries(), loaded_states(file_views(files), a.field_names()), a.field_names(), a.threshold()),
        a.module_name(),
        true,
    )
    &&& a.gzip_on() ==> r.stats.gzipped_after == state_size(b.state(), a.module_name(), true)
    &&& !a.gzip_on() ==> r.stats.gzipped_before == 0 && r.stats.gzipped_after == 0
}

proof fn lemma_trace_extend(tr: Seq<Deduplicator>, rs: Seq<usize>, passes: int, prev: Deduplicator, budget: usize)
    requires
        passes >= 1,
        tr.len() == passes + 1,
        rs.len() == passes,
        tr[passes - 1] == prev,
        prev.inv(),
        pass_post(prev, tr[passes], rs[passes - 1]),
        forall|i: int| 0 <= i < passes - 1 ==> (#[trigger] tr.drop_last()[i]).inv() && pass_post(tr.drop_last()[i], tr.drop_last()[i + 1], rs.drop_last()[i]),
        forall|i: int| 0 <= i < passes - 2 ==> #[trigger] rs.drop_last()[i] != 0 && i + 1 < budget,
        passes - 1 > 0 ==> rs[passes - 2] != 0 && passes - 1 < budget,
    ensures
        forall|i: int| 0 <= i < passes ==> (#[trigger] tr[i]).inv() && pass_post(tr[i], tr[i + 1], rs[i]),
        forall|i: int| 0 <= i < passes - 1 ==> #[trigger] rs[i] != 0 && i + 1 < budget,
{
    assert forall|i: int| 0 <= i < passes implies (#[trigger] tr[i]).inv() && pass_post(tr[i], tr[i + 1], rs[i]) by {
        if i < passes - 1 {
            assert(tr[i] == tr.drop_last()[i]);
            assert(tr[i + 1] == tr.drop_last()[i + 1]);
            assert(rs[i] == rs.drop_last()[i]);
        }
    }
    assert forall|i: int| 0 <= i < passes - 1 implies #[trigger] rs[i] != 0 && i + 1 < budget by {
        if i < passes - 2 {
            assert(rs[i] == rs.drop_last()[i]);
        }
    }
}

/// After a pass that added nothing, the engine is at a fixpoint.
proof fn lemma_fixpoint_after_empty_pass(prev: Deduplicator, cur: Deduplicator)
    requires
        prev.inv(),
        cur.inv(),
        pass_post(prev, cur, 0),
    ensures
        cur.at_fixpoint(),
        cur.pass_forms() == prev.pass_forms(),
{
    reveal(pass_post);
    let e1 = prev.entries();
    assert(cur.entries().skip(e1.len() as int).len() == 0);
    assert(tree_leaves(cur.trees@) =~= tree_leaves(prev.trees@)) by {
        assert forall|u: int| 0 <= u < cur.trees@.len() implies tree_leaves(cur.trees@)[u] == tree_leaves(prev.trees@)[u] by {
            let x = cur.file_trees()[u];
            let y = prev.file_trees()[u];
            lemma_marked_none(
                y.1.text(),
                y.1.nodes_model(),
                tree_leaves(prev.file_trees())[u],
                entry_forms(cur.entries().skip(e1.len() as int)),
                entry_names(cur.entries().skip(e1.len() as int)),
                prev.field_names(),
                tree_leaves(prev.file_trees())[u].len() as int,
            );
            assert(x.1.nodes_model() == y.1.nodes_model());
            assert(x.1.nodes_model().len() == x.1.nodes@.len());
            assert(y.1.nodes_model().len() == y.1.nodes@.len());
        }
    }
    assert(cur.pass_forms() == prev.pass_forms());
    assert forall|f: Seq<char>|
        #![trigger cur.pass_forms().contains(f)]
        cur.pass_forms().contains(f) && occurrences(cur.pass_forms(), f) >= cur.threshold()
            implies entry_forms(cur.entries()).contains(f) by {
        let k = choose|k: int| 0 <= k < cur.entries().len() && #[trigger] cur.entries()[k].0 == f;
        assert(entry_forms(cur.entries())[k] == f);
    }
}

impl Deduplicator {
    /// The stored fingerprint of each entry.
    pub closed spec fn entry_hashes(&self) -> Seq<Seq<char>> {
        self.extracted@.map_values(|e: (String, ExtractedEntry)| e.1.hash@)
    }
}

/// Every entry's stored fingerprint is the MD5 digest of its canonical text.
pub proof fn lemma_entry_fingerprints(d: &Deduplicator)
    requires
        d.inv(),
    ensures
        d.entry_hashes().len() == d.entries().len(),
        forall|k: int| 0 <= k < d.entries().len() ==> #[trigger] d.entry_hashes()[k] == md5_hex(d.entries()[k].0),
{
    assert forall|k: int| 0 <= k < d.entries().len() implies #[trigger] d.entry_hashes()[k] == md5_hex(d.entries()[k].0) by {
        assert(d.extracted@[k].1.hash@ == md5_hex(d.extracted@[k].0@));
    }
}

/// Every entry an engine holds met the occurrence threshold when it was
/// created: a canonical form counted fewer times than the threshold never
/// becomes an entry.
pub proof fn lemma_entries_meet_threshold(d: &Deduplicator)
    requires
        d.inv(),
    ensures
        forall|k: int| 0 <= k < d.entries().len() ==> #[trigger] d.entries()[k].2 >= d.threshold(),
{
    assert forall|k: int| 0 <= k < d.entries().len() implies #[trigger] d.entries()[k].2 >= d.threshold() by {
        assert(d.extracted@[k].1.count >= d.config.min_occurrences);
    }
}

/// Name, text and nodes of each tree.
pub open spec fn tree_states(trees: Seq<(String, FileTree)>) -> Seq<(Seq<char>, Seq<char>, Seq<crate::tree::NodeModel>)> {
    trees.map_values(|p: (String, FileTree)| (p.0@, p.1.text(), p.1.nodes_model()))
}

impl Deduplicator {
    /// What decides the engine's further passes and outputs: the entries,
    /// the trees, the order-insensitive fields and the threshold.
    pub closed spec fn state(&self) -> (
        Seq<(Seq<char>, Seq<char>, usize)>,
        Seq<(Seq<char>, Seq<char>, Seq<crate::tree::NodeModel>)>,
        Seq<Seq<char>>,
        usize,
    ) {
        (self.entries(), tree_states(self.trees@), self.field_names(), self.config.min_occurrences)
    }
}

/// Two sorted sequences of distinct texts with the same elements are equal.
proof fn lemma_sorted_distinct_equal(x: Seq<Seq<char>>, y: Seq<Seq<char>>)
    requires
        sorted_by(x, text_order()),
        sorted_by(y, text_order()),
        x.no_duplicates(),
        y.no_duplicates(),
        forall|f: Seq<char>| x.contains(f) <==> y.contains(f),
    ensures
        x == y,
{
    broadcast use vstd::seq_lib::group_to_multiset_ensures;

    crate::text::lemma_text_leq_total();
    x.lemma_multiset_has_no_duplicates();
    y.lemma_multiset_has_no_duplicates();
    assert(x.to_multiset() =~= y.to_multiset()) by {
        assert forall|f: Seq<char>| x.to_multiset().count(f) == y.to_multiset().count(f) by {
            if x.contains(f) {
                assert(x.to_multiset().contains(f));
                assert(y.to_multiset().contains(f));
            }
        }
    }
    vstd::seq_lib::lemma_sorted_unique(x, y, text_order());
}

/// Entries that agree up to `base` and then follow the same forms, naming
/// and counting agree up to `k`.
proof fn lemma_entries_agree(
    ea: Seq<(Seq<char>, Seq<char>, usize)>,
    eb: Seq<(Seq<char>, Seq<char>, usize)>,
    base: int,
    k: int,
    pf: Seq<Seq<char>>,
)
    requires
        0 <= base <= k <= ea.len(),
        ea.len() == eb.len(),
        ea.take(base) == eb.take(base),
        entry_forms(ea.skip(base)) == entry_forms(eb.skip(base)),
        forall|i: int|
            base <= i < ea.len() ==> {
                &&& (#[trigger] ea[i]).1 == crate::naming::next_name(entry_names(ea.take(i)), md5_hex(ea[i].0))
                &&& ea[i].2 == occurrences(pf, ea[i].0)
            },
        forall|i: int|
            base <= i < eb.len() ==> {
                &&& (#[trigger] eb[i]).1 == crate::naming::next_name(entry_names(eb.take(i)), md5_hex(eb[i].0))
                &&& eb[i].2 == occurrences(pf, eb[i].0)
            },
    ensures
        ea.take(k) == eb.take(k),
    decreases k - base,
{
    if k > base {
        lemma_entries_agree(ea, eb, base, k - 1, pf);
        assert(entry_forms(ea.skip(base))[k - 1 - base] == ea[k - 1].0);
        assert(entry_forms(eb.skip(base))[k - 1 - base] == eb[k - 1].0);
        assert(ea.take(k - 1) == eb.take(k - 1));
        assert(ea[k - 1] == eb[k - 1]);
        assert(ea.take(k) =~= ea.take(k - 1).push(ea[k - 1]));
        assert(eb.take(k) =~= eb.take(k - 1).push(eb[k - 1]));
    }
}

/// A pass is deterministic: two engines in the same state that each run a
/// pass end in the same state, with the same number of new entries.
#[verifier::spinoff_prover]
pub proof fn lemma_pass_deterministic(
    a0: Deduplicator,
    a1: Deduplicator,
    ra: usize,
    b0: Deduplicator,
    b1: Deduplicator,
    rb: usize,
)
    requires
        a0.inv(),
        b0.inv(),
        pass_post(a0, a1, ra),
        pass_post(b0, b1, rb),
        a0.state() == b0.state(),
    ensures
        a1.state() == b1.state(),
        ra == rb,
{
    reveal(pass_post);
    let ta = a0.trees@;
    let tb = b0.trees@;
    assert(tree_states(ta) == tree_states(tb));
    assert(ta.len() == tree_states(ta).len());
    assert(tree_leaves(ta) =~= tree_leaves(tb)) by {
        assert forall|t: int| 0 <= t < ta.len() implies tree_leaves(ta)[t] == tree_leaves(tb)[t] by {
            assert(tree_states(ta)[t] == tree_states(tb)[t]);
            assert(ta[t].1.nodes_model().len() == ta[t].1.nodes@.len());
            assert(tb[t].1.nodes_model().len() == tb[t].1.nodes@.len());
        }
    }
    let pf = a0.pass_forms();
    assert(pf == b0.pass_forms());
    let e0 = a0.entries();
    assert(e0 == b0.entries());
    let la = e0.len() as int;
    let fa = entry_forms(a1.entries().skip(la));
    let fb = entry_forms(b1.entries().skip(la));
    let th = a0.threshold();
    assert(th == b0.threshold());
    assert forall|f: Seq<char>| fa.contains(f) <==> (pf.contains(f) && occurrences(pf, f) >= th
        && !entry_forms(e0).contains(f)) by {
        if fa.contains(f) {
            let q = choose|q: int| 0 <= q < fa.len() && fa[q] == f;
            assert(a1.entries()[la + q].0 == f);
        }
        if pf.contains(f) && occurrences(pf, f) >= th && !entry_forms(e0).contains(f) {
            let k = choose|k: int| 0 <= k < a1.entries().len() && #[trigger] a1.entries()[k].0 == f;
            if k < la {
                assert(a1.entries()[k] == e0[k]);
                assert(entry_forms(e0)[k] == f);
            } else {
                assert(fa[k - la] == f);
            }
        }
    }
    assert forall|f: Seq<char>| fb.contains(f) <==> (pf.contains(f) && occurrences(pf, f) >= th
        && !entry_forms(e0).contains(f)) by {
        if fb.contains(f) {
            let q = choose|q: int| 0 <= q < fb.len() && fb[q] == f;
            assert(b1.entries()[la + q].0 == f);
        }
        if pf.contains(f) && occurrences(pf, f) >= th && !entry_forms(e0).contains(f) {
            let k = choose|k: int| 0 <= k < b1.entries().len() && #[trigger] b1.entries()[k].0 == f;
            if k < la {
                assert(b1.entries()[k] == e0[k]);
                assert(entry_forms(e0)[k] == f);
            } else {
                assert(fb[k - la] == f);
            }
        }
    }
    lemma_sorted_distinct_equal(fa, fb);
    assert(ra == rb);
    let ea = a1.entries();
    let eb = b1.entries();
    assert(ea.take(la) =~= e0);
    assert(eb.take(la) =~= e0);
    lemma_entries_agree(ea, eb, la, ea.len() as int, pf);
    assert(ea.take(ea.len() as int) =~= ea);
    assert(eb.take(eb.len() as int) =~= eb);
    assert(ea == eb);
    assert(tree_states(a1.trees@) =~= tree_states(b1.trees@)) by {
        assert forall|t: int| 0 <= t < a1.trees@.len() implies tree_states(a1.trees@)[t] == tree_states(b1.trees@)[t] by {
            assert(tree_states(ta)[t] == tree_states(tb)[t]);
            assert(a1.file_trees()[t].0 == a0.file_trees()[t].0);
            assert(b1.file_trees()[t].0 == b0.file_trees()[t].0);
        }
    }
}

/// Two traces from engines in the same state agree pass by pass.
#[verifier::spinoff_prover]
proof fn lemma_traces_agree(
    t1: Seq<Deduplicator>,
    r1: Seq<usize>,
    t2: Seq<Deduplicator>,
    r2: Seq<usize>,
    budget: usize,
    i: int,
)
    requires
        pass_trace(t1, r1, budget),
        pass_trace(t2, r2, budget),
        t1[0].state() == t2[0].state(),
        0 <= i <= r1.len(),
        i <= r2.len(),
    ensures
        t1[i].state() == t2[i].state(),
        forall|j: int| 0 <= j < i ==> r1[j] == r2[j],
    decreases i,
{
    if i > 0 {
        lemma_traces_agree(t1, r1, t2, r2, budget, i - 1);
        assert(t1[i - 1].inv() && pass_post(t1[i - 1], t1[i], r1[i - 1]));
        assert(t2[i - 1].inv() && pass_post(t2[i - 1], t2[i], r2[i - 1]));
        lemma_pass_deterministic(t1[i - 1], t1[i], r1[i - 1], t2[i - 1], t2[i], r2[i - 1]);
    }
}

/// The text of an optional string.
pub open spec fn opt_string(o: Option<String>) -> Option<Seq<char>> {
    match o {
        Some(s) => Some(s@),
        None => None,
    }
}

/// Determinism of a run: engines with the same entries and options, run on
/// the same files, end in the same state after the same number of passes
/// and hand back the same rewritten files, the same shared module and the
/// same statistics.
#[verifier::spinoff_prover]
pub proof fn lemma_run_deterministic(
    a0: Deduplicator,
    fa: Seq<(String, String)>,
    a1: Deduplicator,
    ra: RunOutcome,
    b0: Deduplicator,
    fb: Seq<(String, String)>,
    b1: Deduplicator,
    rb: RunOutcome,
)
    requires
        run_post(a0, fa, a1, ra),
        run_post(b0, fb, b1, rb),
        a0.entries() == b0.entries(),
        a0.field_names() == b0.field_names(),
        a0.threshold() == b0.threshold(),
        a0.pass_budget() == b0.pass_budget(),
        a0.is_dry_run() == b0.is_dry_run(),
        a0.module_name() == b0.module_name(),
        a0.gzip_on() == b0.gzip_on(),
        file_views(fa) == file_views(fb),
    ensures
        a1.state() == b1.state(),
        ra.stats.passes == rb.stats.passes,
        ra.stats.total_extracted == rb.stats.total_extracted,
        ra.stats.raw_before == rb.stats.raw_before,
        ra.stats.raw_after == rb.stats.raw_after,
        ra.stats.gzipped_before == rb.stats.gzipped_before,
        ra.stats.gzipped_after == rb.stats.gzipped_after,
        file_views(ra.files@) == file_views(rb.files@),
        opt_string(ra.shared_module) == opt_string(rb.shared_module),
{
    let budget = a0.pass_budget();
    let (t1, r1) = choose|tr: Seq<Deduplicator>, rs: Seq<usize>|
        #[trigger] pass_trace(tr, rs, a0.pass_budget()) && tr[0].state() == (
            a0.entries(),
            loaded_states(file_views(fa), a0.field_names()),
            a0.field_names(),
            a0.threshold(),
        ) && tr[tr.len() - 1].state() == a1.state() && ra.stats.passes == rs.len();
    let (t2, r2) = choose|tr: Seq<Deduplicator>, rs: Seq<usize>|
        #[trigger] pass_trace(tr, rs, b0.pass_budget()) && tr[0].state() == (
            b0.entries(),
            loaded_states(file_views(fb), b0.field_names()),
            b0.field_names(),
            b0.threshold(),
        ) && tr[tr.len() - 1].state() == b1.state() && rb.stats.passes == rs.len();
    assert(t1[0].state() == t2[0].state());
    let n1 = r1.len() as int;
    let n2 = r2.len() as int;
    if n1 < n2 {
        lemma_traces_agree(t1, r1, t2, r2, budget, n1);
        assert(r1[n1 - 1] == r2[n1 - 1]);
        assert(r2[n1 - 1] != 0 && n1 < budget);
        assert(r1[n1 - 1] == 0 || n1 >= budget);
    } else if n2 < n1 {
        lemma_traces_agree(t1, r1, t2, r2, budget, n2);
        assert(r1[n2 - 1] == r2[n2 - 1]);
        assert(r1[n2 - 1] != 0 && n2 < budget);
        assert(r2[n2 - 1] == 0 || n2 >= budget);
    }
    lemma_traces_agree(t1, r1, t2, r2, budget, n1);
    assert(a1.state() == b1.state());
    if !a0.is_dry_run() {
        match ra.shared_module {
            Some(x) => {
                assert(rb.shared_module is Some);
            },
            None => {},
        }
    }
}

/// A pass on an engine at its fixpoint adds no entry: once a run has stopped
/// before its pass budget, running it further extracts nothing new.
pub proof fn lemma_fixpoint_pass_adds_nothing(a: Deduplicator, b: Deduplicator, r: usize)
    requires
        a.inv(),
        a.at_fixpoint(),
        pass_post(a, b, r),
    ensures
        r == 0,
        b.entries() == a.entries(),
{
    reveal(pass_post);
    if r > 0 {
        let k = a.entries().len() as int;
        let e = b.entries()[k];
        assert(a.pass_forms().contains(e.0));
        assert(occurrences(a.pass_forms(), e.0) >= a.threshold());
        assert(entry_forms(a.entries()).contains(e.0));
    }
    assert(b.entries() =~= a.entries());
}

} // verus!
