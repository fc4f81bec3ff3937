//! Ordered indexes kept by the engine.
//!
//! `CrIndex` maps a collateral ratio to the positions holding it, keys
//! strictly ascending, each key's positions in insertion order. It serves
//! the liquidation paths: the lowest key is the riskiest position, a
//! reverse scan finds the best-collateralized one.
//!
//! `MarkedIndex` lists marked positions by their strictly monotone
//! placing, so liquidators can walk them oldest first.

use vstd::prelude::*;

verus! {

/// One key of the index: every position id stored at this collateral
/// ratio, oldest first.
pub struct CrBucket {
    pub cr: i128,
    pub ids: Vec<u64>,
}

/// Ordered map from collateral ratio to the positions holding it.
pub struct CrIndex {
    pub entries: Vec<CrBucket>,
}

impl CrIndex {
    pub open spec fn wf(self) -> bool {
        &&& forall|i: int, j: int|
            0 <= i < j < self.entries@.len() ==> self.entries@[i].cr < self.entries@[j].cr
        &&& forall|i: int| 0 <= i < self.entries@.len() ==> self.entries@[i].ids@.len() > 0
        &&& forall|i: int| 0 <= i < self.entries@.len() ==> self.entries@[i].ids@.no_duplicates()
    }

    pub open spec fn has_key(self, cr: i128) -> bool {
        exists|i: int| 0 <= i < self.entries@.len() && self.entries@[i].cr == cr
    }

    pub open spec fn key_idx(self, cr: i128) -> int {
        choose|i: int| 0 <= i < self.entries@.len() && self.entries@[i].cr == cr
    }

    /// The positions stored at a ratio; empty if the key is absent.
    pub open spec fn ids_at(self, cr: i128) -> Seq<u64> {
        if self.has_key(cr) {
            self.entries@[self.key_idx(cr)].ids@
        } else {
            Seq::empty()
        }
    }

    pub open spec fn contains_id(self, cr: i128, id: u64) -> bool {
        self.ids_at(cr).contains(id)
    }

    /// Each stored ratio occurs in exactly one entry, so `key_idx` is
    /// the only witness.
    pub proof fn lemma_entry(self, i: int)
        requires
            self.wf(),
            0 <= i < self.entries@.len(),
        ensures
            self.has_key(self.entries@[i].cr),
            self.key_idx(self.entries@[i].cr) == i,
            self.ids_at(self.entries@[i].cr) == self.entries@[i].ids@,
    {
        let cr = self.entries@[i].cr;
        assert(self.has_key(cr));
        let j = self.key_idx(cr);
        if i < j {
            assert(self.entries@[i].cr < self.entries@[j].cr);
        } else if j < i {
            assert(self.entries@[j].cr < self.entries@[i].cr);
        }
    }

    pub fn new() -> (r: CrIndex)
        ensures
            r.wf(),
            r.entries@.len() == 0,
            forall|k: i128| r.ids_at(k) == Seq::<u64>::empty(),
            forall|k: i128| !r.has_key(k),
    {
        let r = CrIndex { entries: Vec::new() };
        proof {
            assert(forall|k: i128| !r.has_key(k));
        }
        r
    }

    /// Index of the first entry whose ratio is not below `cr`.
    fn locate(&self, cr: i128) -> (r: usize)
        requires
            self.wf(),
        ensures
            r <= self.entries@.len(),
            forall|i: int| 0 <= i < r ==> self.entries@[i].cr < cr,
            forall|i: int| r <= i < self.entries@.len() ==> self.entries@[i].cr >= cr,
    {
        let mut i: usize = 0;
        while i < self.entries.len()
            invariant
                self.wf(),
                i <= self.entries@.len(),
                forall|j: int| 0 <= j < i ==> self.entries@[j].cr < cr,
            decreases self.entries@.len() - i,
        {
            if self.entries[i].cr >= cr {
                proof {
                    let ghost i0 = i as int;
                    assert forall|j: int|
                        i0 <= j < self.entries@.len() implies self.entries@[j].cr >= cr by {
                        if i0 < j {
                            assert(0 <= i0 < j < self.entries@.len());
                            assert(self.entries@[i0].cr < self.entries@[j].cr);
                        }
                    }
                }
                return i;
            }
            i = i + 1;
        }
        i
    }

    pub fn bucket_len(&self, cr: i128) -> (r: usize)
        requires
            self.wf(),
        ensures
            r == self.ids_at(cr).len(),
    {
        let pos = self.locate(cr);
        if pos < self.entries.len() && self.entries[pos].cr == cr {
            proof {
                self.lemma_entry(pos as int);
            }
            self.entries[pos].ids.len()
        } else {
            proof {
                if self.has_key(cr) {
                    let j = self.key_idx(cr);
                    assert(self.entries@[j].cr == cr);
                }
            }
            0
        }
    }

    /// Add a position at a ratio, at the end of that ratio's bucket.
    pub fn insert(&mut self, cr: i128, id: u64)
        requires
            old(self).wf(),
            !old(self).contains_id(cr, id),
        ensures
            final(self).wf(),
            final(self).ids_at(cr) == old(self).ids_at(cr).push(id),
            forall|k: i128| k != cr ==> final(self).ids_at(k) == old(self).ids_at(k),
            forall|k: i128| final(self).has_key(k) <==> (old(self).has_key(k) || k == cr),
            forall|k: i128, j: u64|
                final(self).contains_id(k, j) <==> (old(self).contains_id(k, j) || (k == cr && j
                    == id)),
    {
        let ghost pre = *self;
        let pos = self.locate(cr);
        if pos < self.entries.len() && self.entries[pos].cr == cr {
            proof {
                pre.lemma_entry(pos as int);
            }
            self.entries[pos].ids.push(id);
            proof {
                assert(self.entries@ == pre.entries@.update(
                    pos as int,
                    CrBucket { cr, ids: self.entries@[pos as int].ids },
                ));
                assert forall|k: i128| #[trigger] self.has_key(k) == pre.has_key(k) by {
                    assert(forall|i: int|
                        0 <= i < self.entries@.len() ==> self.entries@[i].cr
                            == pre.entries@[i].cr);
                }
                self.lemma_entry(pos as int);
                assert(self.ids_at(cr) == pre.ids_at(cr).push(id));
                assert forall|k: i128| k != cr implies self.ids_at(k) == pre.ids_at(k) by {
                    if pre.has_key(k) {
                        let j = pre.key_idx(k);
                        assert(pre.entries@[j].cr == k);
                        assert(j != pos as int);
                        self.lemma_entry(j);
                        pre.lemma_entry(j);
                    }
                }
                assert(pre.ids_at(cr).push(id).no_duplicates()) by {
                    assert(pre.ids_at(cr).no_duplicates());
                    assert(!pre.ids_at(cr).contains(id));
                }
                assert forall|k2: i128, j: u64|
                    self.contains_id(k2, j) <==> (pre.contains_id(k2, j) || (k2 == cr && j
                        == id)) by {
                    if k2 == cr {
                        let s = pre.ids_at(cr);
                        assert(self.ids_at(cr) == s.push(id));
                        if self.ids_at(cr).contains(j) {
                            let w = choose|w: int|
                                0 <= w < s.push(id).len() && s.push(id)[w] == j;
                            if w < s.len() {
                                assert(s[w] == j);
                            } else {
                                assert(j == id);
                            }
                        }
                        if s.contains(j) {
                            let w = choose|w: int| 0 <= w < s.len() && s[w] == j;
                            assert(s.push(id)[w] == j);
                        }
                        if j == id {
                            assert(s.push(id)[s.len() as int] == id);
                        }
                    }
                }
            }
        } else {
            let mut ids: Vec<u64> = Vec::new();
            ids.push(id);
            let bucket = CrBucket { cr, ids };
            proof {
                if pre.has_key(cr) {
                    let j = pre.key_idx(cr);
                    assert(pre.entries@[j].cr == cr);
                }
                assert(!pre.has_key(cr));
            }
            self.entries.insert(pos, bucket);
            proof {
                let n = pre.entries@.len() as int;
                assert(self.entries@.len() == n + 1);
                assert(forall|i: int| 0 <= i < pos ==> self.entries@[i] == pre.entries@[i]);
                assert(forall|i: int|
                    pos < i <= n ==> self.entries@[i] == pre.entries@[i - 1]);
                assert(self.entries@[pos as int].cr == cr);
                self.lemma_entry(pos as int);
                assert(self.ids_at(cr) == pre.ids_at(cr).push(id)) by {
                    assert(self.ids_at(cr) == seq![id]);
                    assert(pre.ids_at(cr) == Seq::<u64>::empty());
                    assert(seq![id] == Seq::<u64>::empty().push(id));
                }
                assert forall|k: i128| k != cr implies self.ids_at(k) == pre.ids_at(k)
                    && (self.has_key(k) == pre.has_key(k)) by {
                    if pre.has_key(k) {
                        let j = pre.key_idx(k);
                        assert(pre.entries@[j].cr == k);
                        let j2 = if j < pos as int {
                            j
                        } else {
                            j + 1
                        };
                        assert(self.entries@[j2].cr == k);
                        self.lemma_entry(j2);
                        pre.lemma_entry(j);
                    } else {
                        if self.has_key(k) {
                            let j = self.key_idx(k);
                            assert(self.entries@[j].cr == k);
                            if j < pos as int {
                                assert(pre.entries@[j].cr == k);
                            } else {
                                assert(j != pos as int);
                                assert(pre.entries@[j - 1].cr == k);
                            }
                        }
                    }
                }
                assert forall|k2: i128, j: u64|
                    self.contains_id(k2, j) <==> (pre.contains_id(k2, j) || (k2 == cr && j
                        == id)) by {
                    if k2 == cr {
                        assert(pre.ids_at(cr) == Seq::<u64>::empty());
                        if self.ids_at(cr).contains(j) {
                            let w = choose|w: int|
                                0 <= w < self.ids_at(cr).len() && self.ids_at(cr)[w] == j;
                            assert(w == 0);
                            assert(j == id);
                        }
                        if j == id {
                            assert(self.ids_at(cr)[0] == id);
                            assert(self.ids_at(cr).contains(id));
                        }
                    }
                }
            }
        }
    }

    /// Take one position out of a ratio's bucket; the key disappears
    /// with its last position.
    #[verifier::rlimit(30)]
    pub fn remove(&mut self, cr: i128, id: u64)
        requires
            old(self).wf(),
            old(self).contains_id(cr, id),
        ensures
            final(self).wf(),
            final(self).ids_at(cr) == old(self).ids_at(cr).remove_value(id),
            forall|k: i128| k != cr ==> final(self).ids_at(k) == old(self).ids_at(k),
            forall|k: i128|
                final(self).has_key(k) <==> (old(self).has_key(k) && !(k == cr && old(self).ids_at(
                    cr,
                ).len() == 1)),
            forall|k: i128, j: u64|
                final(self).contains_id(k, j) <==> (old(self).contains_id(k, j) && !(k == cr && j
                    == id)),
    {
        let ghost pre = *self;
        let pos = self.locate(cr);
        proof {
            let j = pre.key_idx(cr);
            assert(pre.entries@[j].cr == cr);
            if j < pos as int {
                assert(pre.entries@[j].cr < cr);
            }
            assert(pos < pre.entries@.len());
            if j > pos as int {
                assert(pre.entries@[pos as int].cr < pre.entries@[j].cr);
            }
            assert(j == pos as int);
            pre.lemma_entry(pos as int);
        }
        let k = find_id(&self.entries[pos].ids, id);
        proof {
            let s = pre.ids_at(cr);
            s.index_of_first_ensures(id);
            assert(s[k as int] == id);
            match s.index_of_first(id) {
                Some(idx) => {
                    if idx < k as int {
                        assert(s[idx] != id);
                    } else if (k as int) < idx {
                        assert(s[k as int] != id);
                    }
                    assert(idx == k as int);
                },
                None => {
                    assert(s.contains(id));
                },
            }
            assert(s.remove_value(id) == s.remove(k as int));
        }
        let _ = self.entries[pos].ids.remove(k);
        if self.entries[pos].ids.len() == 0 {
            let ghost mid = *self;
            self.entries.remove(pos);
            proof {
                let n = pre.entries@.len() as int;
                assert(pre.entries@[pos as int].ids@.len() == 1);
                assert(forall|i: int| 0 <= i < pos ==> self.entries@[i] == pre.entries@[i]);
                assert(forall|i: int|
                    pos as int <= i < n - 1 ==> self.entries@[i] == pre.entries@[i + 1]);
                assert(pre.ids_at(cr).remove_value(id) == Seq::<u64>::empty()) by {
                    let s = pre.ids_at(cr);
                    assert(k == 0);
                    assert(s.remove_value(id) == s.remove(0));
                    assert(s.remove(0).len() == 0);
                    assert(s.remove(0) =~= Seq::<u64>::empty());
                }
                assert(!self.has_key(cr)) by {
                    if self.has_key(cr) {
                        let j = self.key_idx(cr);
                        assert(self.entries@[j].cr == cr);
                        if j < pos as int {
                            assert(pre.entries@[j].cr == cr);
                        } else {
                            assert(pre.entries@[j + 1].cr == cr);
                        }
                    }
                }
                assert forall|k2: i128| k2 != cr implies self.ids_at(k2) == pre.ids_at(k2)
                    && (self.has_key(k2) == pre.has_key(k2)) by {
                    if pre.has_key(k2) {
                        let j = pre.key_idx(k2);
                        assert(pre.entries@[j].cr == k2);
                        let j2 = if j < pos as int {
                            j
                        } else {
                            j - 1
                        };
                        assert(self.entries@[j2].cr == k2);
                        self.lemma_entry(j2);
                        pre.lemma_entry(j);
                    } else {
                        if self.has_key(k2) {
                            let j = self.key_idx(k2);
                            assert(self.entries@[j].cr == k2);
                            if j < pos as int {
                                assert(pre.entries@[j].cr == k2);
                            } else {
                                assert(pre.entries@[j + 1].cr == k2);
                            }
                        }
                    }
                }
                lemma_remove_nodup(pre.ids_at(cr), k as int, id);
                assert forall|k2: i128, j: u64|
                    self.contains_id(k2, j) <==> (pre.contains_id(k2, j) && !(k2 == cr && j
                        == id)) by {
                    if k2 == cr {
                        assert(self.ids_at(cr) == Seq::<u64>::empty());
                        assert(!self.ids_at(cr).contains(j));
                        if pre.contains_id(cr, j) {
                            let s = pre.ids_at(cr);
                            let w = choose|w: int| 0 <= w < s.len() && s[w] == j;
                            assert(w == 0 && k == 0);
                            assert(j == id);
                        }
                    }
                }
            }
        } else {
            proof {
                let s = pre.entries@[pos as int].ids@;
                assert(self.entries@ == pre.entries@.update(
                    pos as int,
                    CrBucket { cr, ids: self.entries@[pos as int].ids },
                ));
                assert(self.entries@[pos as int].ids@ == s.remove(k as int));
                lemma_remove_nodup(s, k as int, id);
                assert(forall|i: int|
                    0 <= i < self.entries@.len() ==> self.entries@[i].cr == pre.entries@[i].cr);
                assert forall|k2: i128| #[trigger] self.has_key(k2) == pre.has_key(k2) by {}
                self.lemma_entry(pos as int);
                assert(self.ids_at(cr) == pre.ids_at(cr).remove_value(id)) by {
                    assert(pre.ids_at(cr).remove_value(id) == pre.ids_at(cr).remove(k as int));
                }
                assert forall|k2: i128| k2 != cr implies self.ids_at(k2) == pre.ids_at(k2) by {
                    if pre.has_key(k2) {
                        let j = pre.key_idx(k2);
                        assert(pre.entries@[j].cr == k2);
                        assert(j != pos as int);
                        self.lemma_entry(j);
                        pre.lemma_entry(j);
                    }
                }
                assert forall|k2: i128, j: u64|
                    self.contains_id(k2, j) <==> (pre.contains_id(k2, j) && !(k2 == cr && j
                        == id)) by {
                    if k2 == cr {
                        assert(self.ids_at(cr) == s.remove(k as int));
                        assert(s.remove(k as int).contains(j) <==> (s.contains(j) && j != id));
                    }
                }
            }
        }
    }

    /// The riskiest stored position: lowest ratio, oldest in its bucket.
    pub fn lowest(&self) -> (r: Option<(i128, u64)>)
        requires
            self.wf(),
        ensures
            r is None <==> self.entries@.len() == 0,
            r matches Some(p) ==> p.0 == self.entries@[0].cr && p.1 == self.entries@[0].ids@[0]
                && self.has_key(p.0) && self.ids_at(p.0)[0] == p.1 && forall|k: i128|
                self.has_key(k) ==> p.0 <= k,
    {
        if self.entries.len() == 0 {
            None
        } else {
            let cr = self.entries[0].cr;
            let id = self.entries[0].ids[0];
            proof {
                self.lemma_entry(0);
                assert forall|k: i128| self.has_key(k) implies cr <= k by {
                    let j = self.key_idx(k);
                    assert(self.entries@[j].cr == k);
                    if j > 0 {
                        assert(self.entries@[0].cr < self.entries@[j].cr);
                    }
                }
            }
            Some((cr, id))
        }
    }
}

/// Index of the first occurrence of `id`, which must be present.
fn find_id(ids: &Vec<u64>, id: u64) -> (r: usize)
    requires
        ids@.contains(id),
    ensures
        r < ids@.len(),
        ids@[r as int] == id,
        forall|t: int| 0 <= t < r ==> ids@[t] != id,
{
    let mut k: usize = 0;
    while k < ids.len()
        invariant
            k <= ids@.len(),
            ids@.contains(id),
            forall|t: int| 0 <= t < k ==> ids@[t] != id,
        decreases ids@.len() - k,
    {
        if ids[k] == id {
            return k;
        }
        k = k + 1;
    }
    proof {
        let w = choose|w: int| 0 <= w < ids@.len() && ids@[w] == id;
        assert(false);
    }
    0
}

/// Index of the entry carrying this placing, which must be present.
fn find_placing(entries: &Vec<MarkedEntry>, p: i128) -> (r: usize)
    requires
        exists|i: int| 0 <= i < entries@.len() && entries@[i].placing == p,
    ensures
        r < entries@.len(),
        entries@[r as int].placing == p,
        forall|t: int| 0 <= t < r ==> entries@[t].placing != p,
{
    let mut k: usize = 0;
    while k < entries.len()
        invariant
            k <= entries@.len(),
            exists|i: int| 0 <= i < entries@.len() && entries@[i].placing == p,
            forall|t: int| 0 <= t < k ==> entries@[t].placing != p,
        decreases entries@.len() - k,
    {
        if entries[k].placing == p {
            return k;
        }
        k = k + 1;
    }
    proof {
        let w = choose|w: int| 0 <= w < entries@.len() && entries@[w].placing == p;
        assert(false);
    }
    0
}

/// Removing the only occurrence of a value from a duplicate-free
/// sequence removes exactly that value.
pub proof fn lemma_remove_nodup(s: Seq<u64>, pos: int, id: u64)
    requires
        s.no_duplicates(),
        0 <= pos < s.len(),
        s[pos] == id,
    ensures
        s.remove(pos).no_duplicates(),
        forall|j: u64| s.remove(pos).contains(j) <==> (s.contains(j) && j != id),
{
    let r = s.remove(pos);
    assert forall|j: u64| r.contains(j) implies (s.contains(j) && j != id) by {
        let i = choose|i: int| 0 <= i < r.len() && r[i] == j;
        if i < pos {
            assert(s[i] == j);
        } else {
            assert(s[i + 1] == j);
        }
    }
    assert forall|j: u64| s.contains(j) && j != id implies r.contains(j) by {
        let i = choose|i: int| 0 <= i < s.len() && s[i] == j;
        if i < pos {
            assert(r[i] == j);
        } else {
            assert(i != pos);
            assert(r[i - 1] == j);
        }
    }
}

/// One marked position, keyed by its placing.
pub struct MarkedEntry {
    pub placing: i128,
    pub cdp_id: u64,
}

/// Marked positions ordered by strictly increasing placing.
pub struct MarkedIndex {
    pub entries: Vec<MarkedEntry>,
}

impl MarkedIndex {
    pub open spec fn wf(self) -> bool {
        forall|i: int, j: int|
            0 <= i < j < self.entries@.len() ==> self.entries@[i].placing
                < self.entries@[j].placing
    }

    pub open spec fn contains_placing(self, p: i128) -> bool {
        exists|i: int| 0 <= i < self.entries@.len() && self.entries@[i].placing == p
    }

    pub open spec fn placing_idx(self, p: i128) -> int {
        choose|i: int| 0 <= i < self.entries@.len() && self.entries@[i].placing == p
    }

    pub open spec fn id_at(self, p: i128) -> u64 {
        self.entries@[self.placing_idx(p)].cdp_id
    }

    pub fn new() -> (r: MarkedIndex)
        ensures
            r.wf(),
            r.entries@.len() == 0,
            forall|p: i128| !r.contains_placing(p),
    {
        MarkedIndex { entries: Vec::new() }
    }

    /// Register a newly marked position; placings only ever grow.
    pub fn push_mark(&mut self, placing: i128, cdp_id: u64)
        requires
            old(self).wf(),
            forall|i: int|
                0 <= i < old(self).entries@.len() ==> old(self).entries@[i].placing < placing,
        ensures
            final(self).wf(),
            final(self).entries@ == old(self).entries@.push(
                MarkedEntry { placing, cdp_id },
            ),
            forall|p: i128|
                final(self).contains_placing(p) <==> (old(self).contains_placing(p) || p
                    == placing),
            final(self).id_at(placing) == cdp_id,
            forall|p: i128|
                p != placing && old(self).contains_placing(p) ==> final(self).id_at(p) == old(
                    self,
                ).id_at(p),
    {
        let ghost pre = *self;
        self.entries.push(MarkedEntry { placing, cdp_id });
        proof {
            let n = pre.entries@.len() as int;
            assert forall|p: i128|
                self.contains_placing(p) <==> (pre.contains_placing(p) || p == placing) by {
                if self.contains_placing(p) {
                    let i = choose|i: int|
                        0 <= i < self.entries@.len() && self.entries@[i].placing == p;
                    if i < n {
                        assert(pre.entries@[i].placing == p);
                    }
                }
                if pre.contains_placing(p) {
                    let i = pre.placing_idx(p);
                    assert(self.entries@[i].placing == p);
                }
                if p == placing {
                    assert(self.entries@[n].placing == p);
                }
            }
            assert(self.entries@[n].placing == placing);
            let i = self.placing_idx(placing);
            assert(self.entries@[i].placing == placing);
            if i < n {
                assert(pre.entries@[i].placing < placing);
            }
            assert(self.id_at(placing) == cdp_id);
            assert forall|p: i128|
                p != placing && pre.contains_placing(p) implies self.id_at(p) == pre.id_at(
                p,
            ) by {
                let j = pre.placing_idx(p);
                assert(pre.entries@[j].placing == p);
                assert(self.entries@[j].placing == p);
                let j2 = self.placing_idx(p);
                assert(self.entries@[j2].placing == p);
                if j2 != j {
                    if j2 < j {
                        assert(self.entries@[j2].placing < self.entries@[j].placing);
                    } else {
                        assert(self.entries@[j].placing < self.entries@[j2].placing);
                    }
                }
            }
        }
    }

    /// Drop the entry with this placing.
    pub fn remove_placing(&mut self, p: i128)
        requires
            old(self).wf(),
            old(self).contains_placing(p),
        ensures
            final(self).wf(),
            final(self).entries@.len() == old(self).entries@.len() - 1,
            forall|q: i128|
                final(self).contains_placing(q) <==> (old(self).contains_placing(q) && q != p),
            forall|q: i128|
                q != p && old(self).contains_placing(q) ==> final(self).id_at(q) == old(
                    self,
                ).id_at(q),
    {
        let ghost pre = *self;
        let i = find_placing(&self.entries, p);
        self.entries.remove(i);
        proof {
            let n2 = pre.entries@.len() as int;
            assert(forall|t: int| 0 <= t < i ==> self.entries@[t] == pre.entries@[t]);
            assert(forall|t: int|
                i <= t < n2 - 1 ==> self.entries@[t] == pre.entries@[t + 1]);
            assert forall|q: i128|
                self.contains_placing(q) <==> (pre.contains_placing(q) && q != p) by {
                if self.contains_placing(q) {
                    let t = choose|t: int|
                        0 <= t < self.entries@.len() && self.entries@[t].placing == q;
                    if t < i {
                        assert(pre.entries@[t].placing == q);
                    } else {
                        assert(pre.entries@[t + 1].placing == q);
                        if q == p {
                            assert(pre.entries@[i as int].placing == p);
                            assert((i as int) < t + 1);
                        }
                    }
                }
                if pre.contains_placing(q) && q != p {
                    let t = pre.placing_idx(q);
                    assert(pre.entries@[t].placing == q);
                    if t < i {
                        assert(self.entries@[t].placing == q);
                    } else {
                        assert(t != i);
                        assert(self.entries@[t - 1].placing == q);
                    }
                }
            }
            assert forall|q: i128|
                q != p && pre.contains_placing(q) implies self.id_at(q) == pre.id_at(
                q,
            ) by {
                let t = pre.placing_idx(q);
                assert(pre.entries@[t].placing == q);
                let t2 = if t < i as int {
                    t
                } else {
                    t - 1
                };
                assert(t != i as int);
                assert(self.entries@[t2].placing == q && self.entries@[t2].cdp_id
                    == pre.entries@[t].cdp_id);
                let t3 = self.placing_idx(q);
                assert(self.entries@[t3].placing == q);
                if t3 != t2 {
                    if t3 < t2 {
                        assert(self.entries@[t3].placing < self.entries@[t2].placing);
                    } else {
                        assert(self.entries@[t2].placing < self.entries@[t3].placing);
                    }
                }
            }
        }
    }

    /// The `n`-th marked position in placing order.
    pub fn nth(&self, n: usize) -> (r: Option<(i128, u64)>)
        ensures
            n < self.entries@.len() ==> r == Some::<(i128, u64)>(
                (self.entries@[n as int].placing, self.entries@[n as int].cdp_id),
            ),
            n >= self.entries@.len() ==> r is None,
    {
        if n < self.entries.len() {
            Some((self.entries[n].placing, self.entries[n].cdp_id))
        } else {
            None
        }
    }
}

} // verus!
