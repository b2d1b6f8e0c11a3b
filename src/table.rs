//! The Path Table: asset ID to validated relative destination path.
use vstd::prelude::*;
use crate::text::is_safe_path;

verus! {

/// Every path in `m` is safe to join to the destination directory.
pub open spec fn all_paths_safe(m: Map<Seq<u8>, Seq<u8>>) -> bool {
    forall|k: Seq<u8>| m.contains_key(k) ==> is_safe_path(#[trigger] m[k])
}

/// One row of the table.
pub struct Row {
    pub id: Vec<u8>,
    pub path: Vec<u8>,
}

/// Asset IDs mapped to relative destination paths. Keys are unique and every
/// stored path is safe.
pub struct PathTable {
    rows: Vec<Row>,
}

/// Whether two byte strings are equal.
pub fn bytes_eq(a: &[u8], b: &[u8]) -> (r: bool)
    ensures
        r == (a@ == b@),
{
    if a.len() != b.len() {
        return false;
    }
    let mut i: usize = 0;
    while i < a.len()
        invariant
            a@.len() == b@.len(),
            i <= a@.len(),
            forall|j: int| 0 <= j < i ==> a@[j] == b@[j],
        decreases a@.len() - i,
    {
        if a[i] != b[i] {
            return false;
        }
        i = i + 1;
    }
    assert(a@ =~= b@);
    true
}

/// A copy of `s`.
pub fn copy_bytes(s: &[u8]) -> (r: Vec<u8>)
    ensures
        r@ == s@,
{
    let mut r: Vec<u8> = Vec::new();
    let mut i: usize = 0;
    while i < s.len()
        invariant
            i <= s@.len(),
            r@ == s@.take(i as int),
        decreases s@.len() - i,
    {
        r.push(s[i]);
        assert(r@ =~= s@.take(i + 1));
        i = i + 1;
    }
    assert(s@.take(s@.len() as int) =~= s@);
    r
}

impl PathTable {
    pub closed spec fn key(&self, i: int) -> Seq<u8> {
        self.rows@[i].id@
    }

    pub closed spec fn has_row(&self, k: Seq<u8>) -> bool {
        exists|i: int| 0 <= i < self.rows@.len() && self.rows@[i].id@ == k
    }

    pub closed spec fn wf(&self) -> bool {
        &&& forall|i: int, j: int|
            0 <= i < self.rows@.len() && 0 <= j < self.rows@.len() && i != j ==> self.rows@[i].id@
                != self.rows@[j].id@
        &&& forall|i: int| 0 <= i < self.rows@.len() ==> is_safe_path(#[trigger] self.rows@[i].path@)
    }

    proof fn lemma_row(&self, i: int)
        requires
            self.wf(),
            0 <= i < self.rows@.len(),
        ensures
            self@.contains_key(self.rows@[i].id@),
            self@[self.rows@[i].id@] == self.rows@[i].path@,
    {
        let k = self.rows@[i].id@;
        assert(self.has_row(k));
        let c = choose|j: int| 0 <= j < self.rows@.len() && self.rows@[j].id@ == k;
        assert(c == i);
    }

    /// Every path in a well-formed table is safe.
    pub proof fn lemma_safe(&self)
        requires
            self.wf(),
        ensures
            all_paths_safe(self@),
    {
        assert forall|k: Seq<u8>| self@.contains_key(k) implies is_safe_path(#[trigger] self@[k]) by {
            let i = choose|j: int| 0 <= j < self.rows@.len() && self.rows@[j].id@ == k;
            self.lemma_row(i);
        }
    }

    /// An empty table.
    pub fn new() -> (t: PathTable)
        ensures
            t.wf(),
            t@ == Map::<Seq<u8>, Seq<u8>>::empty(),
    {
        let t = PathTable { rows: Vec::new() };
        assert(t@ =~= Map::<Seq<u8>, Seq<u8>>::empty());
        t
    }

    /// The number of IDs in the table.
    pub fn len(&self) -> (n: usize)
        requires
            self.wf(),
        ensures
            n == self@.len(),
            self@.dom().finite(),
    {
        proof {
            self.lemma_len();
        }
        self.rows.len()
    }

    proof fn lemma_len(&self)
        requires
            self.wf(),
        ensures
            self@.dom().finite(),
            self@.len() == self.rows@.len(),
        decreases self.rows@.len(),
    {
        let ks = Seq::new(self.rows@.len(), |i: int| self.rows@[i].id@);
        assert(ks.no_duplicates());
        assert forall|k: Seq<u8>| self@.dom().contains(k) <==> ks.to_set().contains(k) by {
            if self.has_row(k) {
                let i = choose|i: int| 0 <= i < self.rows@.len() && self.rows@[i].id@ == k;
                assert(ks[i] == k);
            }
            if ks.to_set().contains(k) {
                let i = choose|i: int| 0 <= i < ks.len() && ks[i] == k;
                assert(self.rows@[i].id@ == k);
            }
        }
        assert(self@.dom() =~= ks.to_set());
        ks.unique_seq_to_set();
    }

    fn find(&self, id: &[u8]) -> (r: Option<usize>)
        requires
            self.wf(),
        ensures
            r is Some ==> r->0 < self.rows@.len() && self.rows@[r->0 as int].id@ == id@,
            r is None ==> !self@.contains_key(id@),
    {
        let mut i: usize = 0;
        while i < self.rows.len()
            invariant
                i <= self.rows@.len(),
                forall|j: int| 0 <= j < i ==> self.rows@[j].id@ != id@,
            decreases self.rows@.len() - i,
        {
            if bytes_eq(self.rows[i].id.as_slice(), id) {
                return Some(i);
            }
            i = i + 1;
        }
        None
    }

    /// Maps `id` to `path`, replacing any earlier path of `id`.
    pub fn insert(&mut self, id: Vec<u8>, path: Vec<u8>)
        requires
            old(self).wf(),
            is_safe_path(path@),
        ensures
            final(self).wf(),
            final(self)@ == old(self)@.insert(id@, path@),
    {
        let ghost before = *self;
        match self.find(id.as_slice()) {
            Some(i) => {
                let ghost k = id@;
                let ghost v = path@;
                self.rows.set(i, Row { id, path });
                proof {
                    assert forall|q: Seq<u8>| #[trigger] self@.contains_key(q) == before@.insert(k, v).contains_key(q)
                        && (self@.contains_key(q) ==> self@[q] == before@.insert(k, v)[q]) by {
                        if self.has_row(q) {
                            let j = choose|j: int| 0 <= j < self.rows@.len() && self.rows@[j].id@ == q;
                            self.lemma_row(j);
                            if j != i {
                                before.lemma_row(j);
                            }
                        }
                        if before.has_row(q) {
                            let j = choose|j: int| 0 <= j < before.rows@.len() && before.rows@[j].id@ == q;
                            assert(self.rows@[j].id@ == q);
                        }
                    }
                    assert(self@ =~= before@.insert(k, v));
                }
            },
            None => {
                let ghost k = id@;
                let ghost v = path@;
                self.rows.push(Row { id, path });
                proof {
                    let n = before.rows@.len() as int;
                    assert(self.wf());
                    assert forall|q: Seq<u8>| #[trigger] self@.contains_key(q) == before@.insert(k, v).contains_key(q)
                        && (self@.contains_key(q) ==> self@[q] == before@.insert(k, v)[q]) by {
                        if self.has_row(q) {
                            let j = choose|j: int| 0 <= j < self.rows@.len() && self.rows@[j].id@ == q;
                            self.lemma_row(j);
                            if j != n {
                                before.lemma_row(j);
                            }
                        }
                        if before.has_row(q) {
                            let j = choose|j: int| 0 <= j < before.rows@.len() && before.rows@[j].id@ == q;
                            assert(self.rows@[j].id@ == q);
                        }
                        if q == k {
                            assert(self.rows@[n].id@ == q);
                        }
                    }
                    assert(self@ =~= before@.insert(k, v));
                }
            },
        }
    }

    /// Removes `id` and returns the path it had, if any.
    pub fn remove(&mut self, id: &[u8]) -> (r: Option<Vec<u8>>)
        requires
            old(self).wf(),
        ensures
            final(self).wf(),
            final(self)@ == old(self)@.remove(id@),
            r is Some <==> old(self)@.contains_key(id@),
            r is Some ==> r->0@ == old(self)@[id@],
    {
        let ghost before = *self;
        match self.find(id) {
            Some(i) => {
                let row = self.rows.remove(i);
                proof {
                    before.lemma_row(i as int);
                    let k = id@;
                    assert forall|a: int, b: int|
                        0 <= a < self.rows@.len() && 0 <= b < self.rows@.len() && a != b implies self.rows@[a].id@
                            != self.rows@[b].id@ by {
                        let a0 = if a < i { a } else { a + 1 };
                        let b0 = if b < i { b } else { b + 1 };
                        assert(self.rows@[a] == before.rows@[a0]);
                        assert(self.rows@[b] == before.rows@[b0]);
                    }
                    assert forall|a: int| 0 <= a < self.rows@.len() implies is_safe_path(
                        #[trigger] self.rows@[a].path@,
                    ) by {
                        let a0 = if a < i { a } else { a + 1 };
                        assert(self.rows@[a] == before.rows@[a0]);
                    }
                    assert forall|q: Seq<u8>| #[trigger] self@.contains_key(q) == before@.remove(k).contains_key(q)
                        && (self@.contains_key(q) ==> self@[q] == before@.remove(k)[q]) by {
                        if self.has_row(q) {
                            let j = choose|j: int| 0 <= j < self.rows@.len() && self.rows@[j].id@ == q;
                            self.lemma_row(j);
                            let j0 = if j < i { j } else { j + 1 };
                            assert(self.rows@[j] == before.rows@[j0]);
                            before.lemma_row(j0);
                        }
                        if before.has_row(q) && q != k {
                            let j = choose|j: int| 0 <= j < before.rows@.len() && before.rows@[j].id@ == q;
                            assert(j != i);
                            let j1 = if j < i { j } else { j - 1 };
                            assert(self.rows@[j1] == before.rows@[j]);
                        }
                    }
                    assert(self@ =~= before@.remove(k));
                }
                Some(row.path)
            },
            None => {
                assert(self@ =~= before@.remove(id@));
                None
            },
        }
    }

    /// The IDs in the table with their paths, each ID once.
    pub fn rows(&self) -> (r: Vec<(Vec<u8>, Vec<u8>)>)
        requires
            self.wf(),
        ensures
            r@.len() == self@.len(),
            forall|i: int| 0 <= i < r@.len() ==> self@.contains_key(#[trigger] r@[i].0@)
                && self@[r@[i].0@] == r@[i].1@,
            forall|k: Seq<u8>| self@.contains_key(k) ==> exists|i: int| 0 <= i < r@.len() && (#[trigger] r@[i].0@) == k,
            forall|i: int, j: int| 0 <= i < r@.len() && 0 <= j < r@.len() && i != j ==> r@[i].0@ != r@[j].0@,
    {
        proof {
            self.lemma_len();
        }
        let mut r: Vec<(Vec<u8>, Vec<u8>)> = Vec::new();
        let mut i: usize = 0;
        while i < self.rows.len()
            invariant
                self.wf(),
                i <= self.rows@.len(),
                r@.len() == i,
                forall|j: int| 0 <= j < i ==> (#[trigger] r@[j]).0@ == self.rows@[j].id@ && r@[j].1@ == self.rows@[j].path@,
            decreases self.rows@.len() - i,
        {
            let id = copy_bytes(self.rows[i].id.as_slice());
            let path = copy_bytes(self.rows[i].path.as_slice());
            r.push((id, path));
            i = i + 1;
        }
        proof {
            assert forall|j: int| 0 <= j < r@.len() implies self@.contains_key(#[trigger] r@[j].0@)
                && self@[r@[j].0@] == r@[j].1@ by {
                self.lemma_row(j);
            }
            assert forall|k: Seq<u8>| self@.contains_key(k) implies exists|j: int| 0 <= j < r@.len() && (#[trigger] r@[j].0@) == k by {
                let j = choose|j: int| 0 <= j < self.rows@.len() && self.rows@[j].id@ == k;
                assert(r@[j].0@ == k);
            }
        }
        r
    }
}

impl View for PathTable {
    type V = Map<Seq<u8>, Seq<u8>>;

    closed spec fn view(&self) -> Map<Seq<u8>, Seq<u8>> {
        Map::new(
            |k: Seq<u8>| self.has_row(k),
            |k: Seq<u8>| self.rows@[choose|i: int| 0 <= i < self.rows@.len() && self.rows@[i].id@ == k].path@,
        )
    }
}

} // verus!
