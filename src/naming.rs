//! Short identifiers for extracted structures: `x_` followed by the shortest
//! prefix of a content fingerprint, at least three characters long, that no
//! earlier identifier of the run has taken.
use vstd::prelude::*;
use crate::text::{append_range, chars_of, same_text, string_of, texts};

verus! {

/// The identifier made from a fingerprint prefix.
pub open spec fn ident_of(p: Seq<char>) -> Seq<char> {
    seq!['x', '_'] + p
}

/// The identifier from the shortest prefix of `hash` of length `len` or more
/// that is not in `used`; the whole fingerprint when every prefix is taken.
pub open spec fn pick_name(used: Seq<Seq<char>>, hash: Seq<char>, len: int) -> Seq<char>
    decreases hash.len() + 1 - len,
{
    if len < 0 || len > hash.len() {
        ident_of(hash)
    } else if !used.contains(ident_of(hash.take(len))) {
        ident_of(hash.take(len))
    } else {
        pick_name(used, hash, len + 1)
    }
}

/// The identifier assigned to `hash` after the identifiers `used`.
pub open spec fn next_name(used: Seq<Seq<char>>, hash: Seq<char>) -> Seq<char> {
    pick_name(used, hash, 3)
}

/// Generator of unique short names.
pub struct NameGenerator {
    used: Vec<Vec<char>>,
}

impl View for NameGenerator {
    type V = Seq<Seq<char>>;

    /// The identifiers assigned so far, in order.
    closed spec fn view(&self) -> Seq<Seq<char>> {
        texts(self.used@)
    }
}

impl NameGenerator {
    /// A generator that has assigned nothing.
    pub fn new() -> (r: Self)
        ensures
            r@ == Seq::<Seq<char>>::empty(),
    {
        let r = NameGenerator { used: Vec::new() };
        proof {
            assert(r@ =~= Seq::<Seq<char>>::empty());
        }
        r
    }

    fn is_used(&self, name: &Vec<char>) -> (r: bool)
        ensures
            r == self@.contains(name@),
    {
        let mut i: usize = 0;
        while i < self.used.len()
            invariant
                i <= self.used@.len(),
                forall|k: int| 0 <= k < i ==> self@[k] != name@,
            decreases self.used@.len() - i,
        {
            if same_text(&self.used[i], name) {
                proof {
                    assert(self@[i as int] == name@);
                }
                return true;
            }
            i = i + 1;
        }
        false
    }

    /// Records and returns `x_` followed by the whole fingerprint.
    fn take_whole(&mut self, hash: &Vec<char>) -> (r: Vec<char>)
        ensures
            r@ == ident_of(hash@),
            final(self)@ == old(self)@.push(r@),
    {
        let mut name: Vec<char> = Vec::new();
        name.push('x');
        name.push('_');
        append_range(&mut name, hash, 0, hash.len());
        proof {
            assert(hash@.subrange(0, hash@.len() as int) =~= hash@);
            assert(name@ =~= ident_of(hash@));
        }
        let stored = name.clone();
        self.used.push(stored);
        proof {
            assert(stored@ == name@);
            assert(self@ =~= old(self)@.push(name@));
        }
        name
    }

    /// The identifier for a content fingerprint: `x_` and the shortest prefix
    /// of at least three characters not assigned before; it is recorded.
    pub fn next_chars(&mut self, hash: &Vec<char>) -> (r: Vec<char>)
        ensures
            r@ == next_name(old(self)@, hash@),
            final(self)@ == old(self)@.push(r@),
    {
        let mut len: usize = 3;
        while len <= hash.len()
            invariant
                3 <= len,
                self@ == old(self)@,
                next_name(self@, hash@) == pick_name(self@, hash@, len as int),
            decreases hash@.len() + 1 - len,
        {
            let mut cand: Vec<char> = Vec::new();
            cand.push('x');
            cand.push('_');
            append_range(&mut cand, hash, 0, len);
            proof {
                assert(cand@ =~= ident_of(hash@.take(len as int)));
            }
            if !self.is_used(&cand) {
                let stored = cand.clone();
                self.used.push(stored);
                proof {
                    assert(stored@ == cand@);
                    assert(self@ =~= old(self)@.push(cand@));
                }
                return cand;
            }
            if len == hash.len() {
                proof {
                    assert(pick_name(self@, hash@, len + 1) == ident_of(hash@));
                }
                return self.take_whole(hash);
            }
            len = len + 1;
        }
        self.take_whole(hash)
    }

    /// Generates the next unique name for a fingerprint.
    pub fn next(&mut self, hash: &str) -> (r: String)
        ensures
            r@ == next_name(old(self)@, hash@),
            final(self)@ == old(self)@.push(r@),
    {
        let h = chars_of(hash);
        let r = self.next_chars(&h);
        string_of(r.as_slice())
    }
}

/// Uniqueness of names: when some prefix of at least three characters is
/// still free, the assigned identifier differs from every earlier one, and it
/// comes from the shortest free prefix.
pub proof fn lemma_next_name_fresh(used: Seq<Seq<char>>, hash: Seq<char>)
    requires
        exists|k: int| 3 <= k <= hash.len() && !used.contains(#[trigger] ident_of(hash.take(k))),
    ensures
        !used.contains(next_name(used, hash)),
        exists|k: int|
            3 <= k <= hash.len() && next_name(used, hash) == ident_of(hash.take(k)) && forall|j: int|
                3 <= j < k ==> used.contains(#[trigger] ident_of(hash.take(j))),
{
    let k = choose|k: int| 3 <= k <= hash.len() && !used.contains(#[trigger] ident_of(hash.take(k)));
    lemma_pick_name(used, hash, 3, k);
}

/// Names stay distinct over a run: when the names assigned so far are
/// distinct and the new fingerprint has a free prefix, the names after the
/// next assignment are distinct too.
pub proof fn lemma_names_stay_distinct(used: Seq<Seq<char>>, hash: Seq<char>)
    requires
        used.no_duplicates(),
        exists|k: int| 3 <= k <= hash.len() && !used.contains(#[trigger] ident_of(hash.take(k))),
    ensures
        used.push(next_name(used, hash)).no_duplicates(),
{
    lemma_next_name_fresh(used, hash);
    let u2 = used.push(next_name(used, hash));
    assert forall|i: int, j: int| 0 <= i < u2.len() && 0 <= j < u2.len() && i != j implies u2[i] != u2[j] by {
        if i == used.len() as int {
            assert(used[j] == u2[j]);
        } else if j == used.len() as int {
            assert(used[i] == u2[i]);
        } else {
            assert(used[i] == u2[i] && used[j] == u2[j]);
        }
    }
}

proof fn lemma_pick_name(used: Seq<Seq<char>>, hash: Seq<char>, len: int, k: int)
    requires
        0 <= len <= k <= hash.len(),
        !used.contains(ident_of(hash.take(k))),
    ensures
        !used.contains(pick_name(used, hash, len)),
        exists|m: int|
            len <= m <= k && pick_name(used, hash, len) == ident_of(hash.take(m)) && forall|j: int|
                len <= j < m ==> used.contains(#[trigger] ident_of(hash.take(j))),
    decreases k - len,
{
    if !used.contains(ident_of(hash.take(len))) {
        assert(forall|j: int| len <= j < len ==> used.contains(#[trigger] ident_of(hash.take(j))));
    } else {
        lemma_pick_name(used, hash, len + 1, k);
        let m = choose|m: int|
            len + 1 <= m <= k && pick_name(used, hash, len + 1) == ident_of(hash.take(m)) && forall|
                j: int,
            |
                len + 1 <= j < m ==> used.contains(#[trigger] ident_of(hash.take(j)));
        assert(forall|j: int| len <= j < m ==> used.contains(#[trigger] ident_of(hash.take(j))));
    }
}

} // verus!
