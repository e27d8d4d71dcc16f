//! The primer table: primer ids mapped to their sequences, kept in order of
//! first insertion, with each id present once.
use vstd::prelude::*;

verus! {

/// One primer: its id and its sequence.
pub struct Primer {
    pub id: Vec<u8>,
    pub sequence: Vec<u8>,
}

impl View for Primer {
    type V = (Seq<u8>, Seq<u8>);

    open spec fn view(&self) -> (Seq<u8>, Seq<u8>) {
        (self.id@, self.sequence@)
    }
}

/// The sequence stored under `id` in a table of (id, sequence) entries.
pub open spec fn lookup(entries: Seq<(Seq<u8>, Seq<u8>)>, id: Seq<u8>) -> Option<Seq<u8>> {
    if exists|k: int| 0 <= k < entries.len() && (#[trigger] entries[k]).0 == id {
        Some(entries[choose|k: int| 0 <= k < entries.len() && (#[trigger] entries[k]).0 == id].1)
    } else {
        None
    }
}

/// No id occurs twice.
pub open spec fn ids_unique(entries: Seq<(Seq<u8>, Seq<u8>)>) -> bool {
    forall|a: int, b: int|
        0 <= a < entries.len() && 0 <= b < entries.len() && (#[trigger] entries[a]).0 == (
        #[trigger] entries[b]).0 ==> a == b
}

/// With unique ids, the entry at `k` is what `lookup` finds for its id.
pub proof fn lemma_lookup_at(entries: Seq<(Seq<u8>, Seq<u8>)>, k: int)
    requires
        ids_unique(entries),
        0 <= k < entries.len(),
    ensures
        lookup(entries, entries[k].0) == Some(entries[k].1),
{
    let id = entries[k].0;
    assert(exists|c: int| 0 <= c < entries.len() && (#[trigger] entries[c]).0 == id);
}

/// A collection of primers keyed by id; inserting an id that is already
/// present replaces its sequence and keeps its place.
pub struct PrimerSet {
    entries: Vec<Primer>,
}

impl View for PrimerSet {
    type V = Seq<(Seq<u8>, Seq<u8>)>;

    closed spec fn view(&self) -> Seq<(Seq<u8>, Seq<u8>)> {
        self.entries@.map_values(|p: Primer| p@)
    }
}

/// A copy of `v`.
pub fn copy_bytes(v: &[u8]) -> (r: Vec<u8>)
    ensures
        r@ == v@,
{
    copy_range(v, 0, v.len())
}

/// A copy of `v[lo..hi]`.
pub fn copy_range(v: &[u8], lo: usize, hi: usize) -> (r: Vec<u8>)
    requires
        lo <= hi <= v@.len(),
    ensures
        r@ == v@.subrange(lo as int, hi as int),
{
    let mut r: Vec<u8> = Vec::with_capacity(hi - lo);
    let mut k: usize = lo;
    while k < hi
        invariant
            lo <= k <= hi <= v@.len(),
            r@ == v@.subrange(lo as int, k as int),
        decreases hi - k,
    {
        r.push(v[k]);
        k = k + 1;
        assert(r@ =~= v@.subrange(lo as int, k as int));
    }
    r
}

/// Whether two byte strings are equal.
pub fn bytes_equal(a: &[u8], b: &[u8]) -> (r: bool)
    ensures
        r == (a@ == b@),
{
    if a.len() != b.len() {
        return false;
    }
    let mut k: usize = 0;
    while k < a.len()
        invariant
            a@.len() == b@.len(),
            k <= a@.len(),
            a@.subrange(0, k as int) == b@.subrange(0, k as int),
        decreases a@.len() - k,
    {
        if a[k] != b[k] {
            assert(a@[k as int] != b@[k as int]);
            return false;
        }
        k = k + 1;
        assert(a@.subrange(0, k as int) =~= a@.subrange(0, k as int - 1).push(a@[k - 1]));
        assert(b@.subrange(0, k as int) =~= b@.subrange(0, k as int - 1).push(b@[k - 1]));
    }
    assert(a@ =~= a@.subrange(0, k as int));
    assert(b@ =~= b@.subrange(0, k as int));
    true
}

impl PrimerSet {
    /// Each id occurs once.
    pub open spec fn wf(&self) -> bool {
        ids_unique(self@)
    }

    /// The sequence stored under `id`, if any.
    pub open spec fn spec_get(&self, id: Seq<u8>) -> Option<Seq<u8>> {
        lookup(self@, id)
    }

    /// An empty set.
    pub fn new() -> (r: PrimerSet)
        ensures
            r.wf(),
            r@ == Seq::<(Seq<u8>, Seq<u8>)>::empty(),
    {
        let r = PrimerSet { entries: Vec::new() };
        assert(r@ =~= Seq::<(Seq<u8>, Seq<u8>)>::empty());
        r
    }

    /// The number of primers.
    pub fn len(&self) -> (r: usize)
        ensures
            r == self@.len(),
    {
        self.entries.len()
    }

    /// The primer at position `i`, in order of first insertion.
    pub fn primer(&self, i: usize) -> (r: &Primer)
        requires
            i < self@.len(),
        ensures
            r@ == self@[i as int],
    {
        &self.entries[i]
    }

    /// The position of the primer with id `id`, if there is one.
    pub fn position(&self, id: &[u8]) -> (r: Option<usize>)
        ensures
            r matches Some(k) ==> k < self@.len() && self@[k as int].0 == id@,
            r is None ==> forall|k: int| 0 <= k < self@.len() ==> (#[trigger] self@[k]).0 != id@,
    {
        let mut k: usize = 0;
        while k < self.entries.len()
            invariant
                k <= self@.len(),
                self@.len() == self.entries@.len(),
                forall|m: int| 0 <= m < k ==> (#[trigger] self@[m]).0 != id@,
            decreases self@.len() - k,
        {
            if bytes_equal(self.entries[k].id.as_slice(), id) {
                return Some(k);
            }
            k = k + 1;
        }
        None
    }

    /// Stores `sequence` under `id`. A primer already present under `id`
    /// has its sequence replaced and keeps its place; a new id goes last.
    pub fn insert(&mut self, id: Vec<u8>, sequence: Vec<u8>)
        requires
            old(self).wf(),
        ensures
            final(self).wf(),
            final(self).spec_get(id@) == Some(sequence@),
            forall|other: Seq<u8>|
                other != id@ ==> #[trigger] final(self).spec_get(other) == old(self).spec_get(other),
            old(self).spec_get(id@) is None ==> final(self)@ == old(self)@.push((id@, sequence@)),
            forall|k: int|
                0 <= k < old(self)@.len() && old(self)@[k].0 == id@ ==> final(self)@ == old(
                    self,
                )@.update(k, (id@, sequence@)),
    {
        let ghost before = self@;
        match self.position(id.as_slice()) {
            Some(k) => {
                let ghost entry = (id@, sequence@);
                self.entries.set(k, Primer { id, sequence });
                assert(self@ =~= before.update(k as int, entry));
                proof {
                    assert forall|other: Seq<u8>| other != entry.0 implies #[trigger] lookup(self@, other)
                        == lookup(before, other) by {
                        assert forall|c: int| 0 <= c < before.len() implies ((#[trigger] self@[c]).0
                            == other) == (before[c].0 == other) by {}
                        if exists|c: int| 0 <= c < before.len() && (#[trigger] before[c]).0 == other {
                            let c = choose|c: int| 0 <= c < before.len() && (#[trigger] before[c]).0 == other;
                            lemma_lookup_at(before, c);
                            lemma_lookup_at(self@, c);
                        }
                    }
                    lemma_lookup_at(self@, k as int);
                }
            },
            None => {
                let ghost entry = (id@, sequence@);
                self.entries.push(Primer { id, sequence });
                assert(self@ =~= before.push(entry));
                proof {
                    let n = before.len() as int;
                    assert(self@[n] == entry);
                    lemma_lookup_at(self@, n);
                    assert forall|other: Seq<u8>| other != entry.0 implies #[trigger] lookup(self@, other)
                        == lookup(before, other) by {
                        if exists|c: int| 0 <= c < before.len() && (#[trigger] before[c]).0 == other {
                            let c = choose|c: int| 0 <= c < before.len() && (#[trigger] before[c]).0 == other;
                            lemma_lookup_at(before, c);
                            assert(self@[c] == before[c]);
                            lemma_lookup_at(self@, c);
                        } else {
                            assert forall|c: int| 0 <= c < self@.len() implies (#[trigger] self@[c]).0 != other by {
                                if c < n { assert(self@[c] == before[c]); }
                            }
                        }
                    }
                }
            },
        }
    }

    /// The sequence stored under `id`, if any.
    pub fn get(&self, id: &[u8]) -> (r: Option<Vec<u8>>)
        requires
            self.wf(),
        ensures
            match r {
                Some(v) => self.spec_get(id@) == Some(v@),
                None => self.spec_get(id@) is None,
            },
    {
        match self.position(id) {
            Some(k) => {
                proof { lemma_lookup_at(self@, k as int); }
                Some(copy_bytes(self.entries[k].sequence.as_slice()))
            },
            None => None,
        }
    }
}

} // verus!
