//! The in-memory index: a mapping from key to the byte range of the log
//! record that last set it, stored as a vector of entries with pairwise
//! distinct keys.

use vstd::prelude::*;
use vstd::slice::slice_to_vec;

verus! {

/// The byte range of the live set-record for a key: where it starts in the
/// log and how many bytes it occupies.
pub struct Span {
    pub pos: int,
    pub len: int,
}

/// One stored entry: a key and the range of its live set-record.
#[derive(Debug)]
pub struct IndexEntry {
    pub key: Vec<u8>,
    pub pos: u64,
    pub len: u64,
}

impl View for IndexEntry {
    type V = (Seq<u8>, Span);

    open spec fn view(&self) -> (Seq<u8>, Span) {
        (self.key@, Span { pos: self.pos as int, len: self.len as int })
    }
}

/// Whether some entry of `s` carries the key `k`.
pub open spec fn has_key(s: Seq<(Seq<u8>, Span)>, k: Seq<u8>) -> bool {
    exists|i: int| 0 <= i < s.len() && s[i].0 == k
}

/// The entries read as a mapping; a later entry for a key would win, though
/// a well-formed index never stores a key twice.
pub open spec fn seq_to_map(s: Seq<(Seq<u8>, Span)>) -> Map<Seq<u8>, Span>
    decreases s.len(),
{
    if s.len() == 0 {
        Map::empty()
    } else {
        seq_to_map(s.drop_last()).insert(s.last().0, s.last().1)
    }
}

/// The total number of log bytes covered by the entries: the size of the
/// live records.
pub open spec fn live_size(s: Seq<(Seq<u8>, Span)>) -> int
    decreases s.len(),
{
    if s.len() == 0 {
        0
    } else {
        live_size(s.drop_last()) + s.last().1.len
    }
}

/// No two entries carry the same key.
pub open spec fn distinct_keys(s: Seq<(Seq<u8>, Span)>) -> bool {
    forall|i: int, j: int| 0 <= i < j < s.len() ==> s[i].0 != s[j].0
}

pub proof fn lemma_seq_to_map_domain(s: Seq<(Seq<u8>, Span)>, k: Seq<u8>)
    ensures
        seq_to_map(s).contains_key(k) <==> has_key(s, k),
    decreases s.len(),
{
    if s.len() > 0 {
        lemma_seq_to_map_domain(s.drop_last(), k);
        if s.last().0 == k {
            assert(s[s.len() - 1].0 == k);
        } else {
            if has_key(s.drop_last(), k) {
                let i = choose|i: int| 0 <= i < s.drop_last().len() && s.drop_last()[i].0 == k;
                assert(s[i].0 == k);
            }
            if has_key(s, k) {
                let i = choose|i: int| 0 <= i < s.len() && s[i].0 == k;
                assert(i < s.len() - 1);
                assert(s.drop_last()[i].0 == k);
            }
        }
    }
}

pub proof fn lemma_seq_to_map_at(s: Seq<(Seq<u8>, Span)>, i: int)
    requires
        distinct_keys(s),
        0 <= i < s.len(),
    ensures
        seq_to_map(s).contains_key(s[i].0),
        seq_to_map(s)[s[i].0] == s[i].1,
    decreases s.len(),
{
    if i == s.len() - 1 {
    } else {
        assert(distinct_keys(s.drop_last()));
        lemma_seq_to_map_at(s.drop_last(), i);
        assert(s.drop_last()[i] == s[i]);
        assert(s[i].0 != s.last().0);
    }
}

pub proof fn lemma_seq_to_map_update(s: Seq<(Seq<u8>, Span)>, i: int, e: (Seq<u8>, Span))
    requires
        distinct_keys(s),
        0 <= i < s.len(),
        e.0 == s[i].0,
    ensures
        seq_to_map(s.update(i, e)) == seq_to_map(s).insert(e.0, e.1),
        distinct_keys(s.update(i, e)),
    decreases s.len(),
{
    let t = s.update(i, e);
    assert forall|x: int, y: int| 0 <= x < y < t.len() implies t[x].0 != t[y].0 by {
        assert(s[x].0 != s[y].0);
    }
    if i == s.len() - 1 {
        assert(t.drop_last() =~= s.drop_last());
        assert(t.last() == e);
        assert(seq_to_map(s.drop_last()).insert(s.last().0, s.last().1).insert(e.0, e.1)
            =~= seq_to_map(s.drop_last()).insert(e.0, e.1));
    } else {
        assert(t.drop_last() =~= s.drop_last().update(i, e));
        assert(t.last() == s.last());
        assert(distinct_keys(s.drop_last()));
        assert(s.drop_last()[i] == s[i]);
        lemma_seq_to_map_update(s.drop_last(), i, e);
        assert(s.last().0 != e.0);
        assert(seq_to_map(s.drop_last()).insert(e.0, e.1).insert(s.last().0, s.last().1)
            =~= seq_to_map(s.drop_last()).insert(s.last().0, s.last().1).insert(e.0, e.1));
    }
}

pub proof fn lemma_seq_to_map_remove(s: Seq<(Seq<u8>, Span)>, i: int)
    requires
        distinct_keys(s),
        0 <= i < s.len(),
    ensures
        seq_to_map(s.remove(i)) == seq_to_map(s).remove(s[i].0),
        distinct_keys(s.remove(i)),
    decreases s.len(),
{
    let t = s.remove(i);
    assert forall|x: int, y: int| 0 <= x < y < t.len() implies t[x].0 != t[y].0 by {
        let sx: int = if x < i { x } else { x + 1 };
        let sy: int = if y < i { y } else { y + 1 };
        assert(t[x] == s[sx]);
        assert(t[y] == s[sy]);
        assert(s[sx].0 != s[sy].0);
    }
    if i == s.len() - 1 {
        assert(t =~= s.drop_last());
        lemma_seq_to_map_domain(s.drop_last(), s[i].0);
        assert(!has_key(s.drop_last(), s[i].0)) by {
            if has_key(s.drop_last(), s[i].0) {
                let j = choose|j: int|
                    0 <= j < s.drop_last().len() && s.drop_last()[j].0 == s[i].0;
                assert(s[j].0 == s[i].0);
            }
        }
        assert(seq_to_map(s.drop_last()).insert(s.last().0, s.last().1).remove(s[i].0)
            =~= seq_to_map(s.drop_last()));
    } else {
        assert(t.drop_last() =~= s.drop_last().remove(i));
        assert(t.last() == s.last());
        assert(distinct_keys(s.drop_last()));
        assert(s.drop_last()[i] == s[i]);
        lemma_seq_to_map_remove(s.drop_last(), i);
        assert(s.last().0 != s[i].0);
        assert(seq_to_map(s.drop_last()).remove(s[i].0).insert(s.last().0, s.last().1)
            =~= seq_to_map(s.drop_last()).insert(s.last().0, s.last().1).remove(s[i].0));
    }
}

pub proof fn lemma_live_size_update(s: Seq<(Seq<u8>, Span)>, i: int, e: (Seq<u8>, Span))
    requires
        0 <= i < s.len(),
    ensures
        live_size(s.update(i, e)) == live_size(s) - s[i].1.len + e.1.len,
    decreases s.len(),
{
    let t = s.update(i, e);
    if i == s.len() - 1 {
        assert(t.drop_last() =~= s.drop_last());
    } else {
        assert(t.drop_last() =~= s.drop_last().update(i, e));
        assert(t.last() == s.last());
        assert(s.drop_last()[i] == s[i]);
        lemma_live_size_update(s.drop_last(), i, e);
    }
}

pub proof fn lemma_live_size_remove(s: Seq<(Seq<u8>, Span)>, i: int)
    requires
        0 <= i < s.len(),
    ensures
        live_size(s.remove(i)) == live_size(s) - s[i].1.len,
    decreases s.len(),
{
    let t = s.remove(i);
    if i == s.len() - 1 {
        assert(t =~= s.drop_last());
    } else {
        assert(t.drop_last() =~= s.drop_last().remove(i));
        assert(t.last() == s.last());
        assert(s.drop_last()[i] == s[i]);
        lemma_live_size_remove(s.drop_last(), i);
    }
}

/// With no negative-length entries, the total is at least any single entry's
/// length, and at least zero.
pub proof fn lemma_live_size_bounds(s: Seq<(Seq<u8>, Span)>)
    requires
        forall|i: int| 0 <= i < s.len() ==> (#[trigger] s[i]).1.len >= 0,
    ensures
        live_size(s) >= 0,
        forall|i: int| 0 <= i < s.len() ==> live_size(s) >= (#[trigger] s[i]).1.len,
    decreases s.len(),
{
    if s.len() > 0 {
        assert forall|i: int| 0 <= i < s.drop_last().len() implies (#[trigger] s.drop_last()[i]).1.len
            >= 0 by {
            assert(s.drop_last()[i] == s[i]);
        }
        lemma_live_size_bounds(s.drop_last());
        assert forall|i: int| 0 <= i < s.len() implies live_size(s) >= (#[trigger] s[i]).1.len by {
            if i < s.len() - 1 {
                assert(s.drop_last()[i] == s[i]);
            }
        }
    }
}

/// Byte-for-byte equality of two keys.
pub fn bytes_eq(a: &Vec<u8>, b: &Vec<u8>) -> (r: bool)
    ensures
        r == (a@ == b@),
{
    if a.len() != b.len() {
        return false;
    }
    let mut i: usize = 0;
    while i < a.len()
        invariant
            i <= a@.len(),
            a@.len() == b@.len(),
            forall|j: int| 0 <= j < i ==> a@[j] == b@[j],
        decreases a@.len() - i,
    {
        if a[i] != b[i] {
            return false;
        }
        i = i + 1;
    }
    proof {
        assert(a@ =~= b@);
    }
    true
}

/// The index itself.
#[derive(Debug)]
pub struct Index {
    pub entries: Vec<IndexEntry>,
}

impl View for Index {
    type V = Map<Seq<u8>, Span>;

    open spec fn view(&self) -> Map<Seq<u8>, Span> {
        seq_to_map(self.entries@.map_values(|e: IndexEntry| e@))
    }
}

impl Index {
    /// The entries in storage order.
    pub open spec fn entries_view(self) -> Seq<(Seq<u8>, Span)> {
        self.entries@.map_values(|e: IndexEntry| e@)
    }

    /// Keys are pairwise distinct.
    pub open spec fn wf(self) -> bool {
        distinct_keys(self.entries_view())
    }

    pub fn new() -> (r: Index)
        ensures
            r.wf(),
            r.entries_view() == Seq::<(Seq<u8>, Span)>::empty(),
            r@ == Map::<Seq<u8>, Span>::empty(),
            live_size(r.entries_view()) == 0,
    {
        let r = Index { entries: Vec::new() };
        proof {
            assert(r.entries_view() =~= Seq::<(Seq<u8>, Span)>::empty());
        }
        r
    }

    /// The position of the entry that carries `key`, if any.
    fn find(&self, key: &Vec<u8>) -> (r: Option<usize>)
        ensures
            match r {
                Some(i) => i < self.entries_view().len() && self.entries_view()[i as int].0
                    == key@,
                None => !has_key(self.entries_view(), key@),
            },
    {
        let mut i: usize = 0;
        let n: usize = self.entries.len();
        while i < n
            invariant
                i <= n,
                n == self.entries@.len(),
                forall|j: int| 0 <= j < i ==> self.entries_view()[j].0 != key@,
            decreases n - i,
        {
            if bytes_eq(&self.entries[i].key, key) {
                return Some(i);
            }
            i = i + 1;
        }
        proof {
            if has_key(self.entries_view(), key@) {
                let j = choose|j: int|
                    0 <= j < self.entries_view().len() && self.entries_view()[j].0 == key@;
                assert(self.entries_view()[j].0 != key@);
            }
        }
        None
    }

    /// Look a key up.
    pub fn get(&self, key: &Vec<u8>) -> (r: Option<(u64, u64)>)
        requires
            self.wf(),
        ensures
            match r {
                Some(pl) => self@.contains_key(key@) && self@[key@] == (Span {
                    pos: pl.0 as int,
                    len: pl.1 as int,
                }),
                None => !self@.contains_key(key@),
            },
    {
        match self.find(key) {
            Some(i) => {
                proof {
                    lemma_seq_to_map_at(self.entries_view(), i as int);
                }
                let e = &self.entries[i];
                Some((e.pos, e.len))
            }
            None => {
                proof {
                    lemma_seq_to_map_domain(self.entries_view(), key@);
                }
                None
            }
        }
    }

    /// Insert or replace the entry for `key`; the prior record length comes
    /// back so the caller can account the overwritten bytes as stale.
    pub fn insert(&mut self, key: Vec<u8>, pos: u64, len: u64) -> (prior: Option<u64>)
        requires
            old(self).wf(),
        ensures
            final(self).wf(),
            final(self)@ == old(self)@.insert(key@, Span { pos: pos as int, len: len as int }),
            live_size(final(self).entries_view()) == live_size(old(self).entries_view())
                + len as int - (match prior {
                Some(l) => l as int,
                None => 0,
            }),
            match prior {
                Some(l) => old(self)@.contains_key(key@) && old(self)@[key@].len == l as int,
                None => !old(self)@.contains_key(key@),
            },
    {
        let ghost s = self.entries_view();
        match self.find(&key) {
            Some(i) => {
                let prior_len = self.entries[i].len;
                let ghost e = (key@, Span { pos: pos as int, len: len as int });
                proof {
                    lemma_seq_to_map_at(s, i as int);
                    lemma_seq_to_map_update(s, i as int, e);
                    lemma_live_size_update(s, i as int, e);
                }
                self.entries[i] = IndexEntry { key, pos, len };
                proof {
                    assert(self.entries_view() =~= s.update(i as int, e));
                }
                Some(prior_len)
            }
            None => {
                proof {
                    lemma_seq_to_map_domain(s, key@);
                }
                self.push_new(key, pos, len);
                None
            }
        }
    }

    /// Append an entry whose key is not yet present.
    pub fn push_new(&mut self, key: Vec<u8>, pos: u64, len: u64)
        requires
            old(self).wf(),
            !has_key(old(self).entries_view(), key@),
        ensures
            final(self).wf(),
            final(self).entries_view() == old(self).entries_view().push(
                (key@, Span { pos: pos as int, len: len as int }),
            ),
            final(self)@ == old(self)@.insert(key@, Span { pos: pos as int, len: len as int }),
            live_size(final(self).entries_view()) == live_size(old(self).entries_view())
                + len as int,
    {
        let ghost s = self.entries_view();
        let ghost e = (key@, Span { pos: pos as int, len: len as int });
        self.entries.push(IndexEntry { key, pos, len });
        proof {
            assert(self.entries_view() =~= s.push(e));
            assert(self.entries_view().drop_last() =~= s);
            assert forall|x: int, y: int| 0 <= x < y < self.entries_view().len() implies self
                .entries_view()[x].0 != self.entries_view()[y].0 by {
                if y < s.len() {
                    assert(s[x].0 != s[y].0);
                } else {
                    if self.entries_view()[x].0 == e.0 {
                        assert(s[x].0 == key@);
                    }
                }
            }
        }
    }

    /// Remove the entry for `key`, handing back the length of the record it
    /// pointed at.
    pub fn remove(&mut self, key: &Vec<u8>) -> (prior: Option<u64>)
        requires
            old(self).wf(),
        ensures
            final(self).wf(),
            final(self)@ == old(self)@.remove(key@),
            live_size(final(self).entries_view()) == live_size(old(self).entries_view()) - (
            match prior {
                Some(l) => l as int,
                None => 0,
            }),
            match prior {
                Some(l) => old(self)@.contains_key(key@) && old(self)@[key@].len == l as int,
                None => !old(self)@.contains_key(key@) && final(self).entries_view() == old(
                    self,
                ).entries_view(),
            },
    {
        let ghost s = self.entries_view();
        match self.find(key) {
            Some(i) => {
                let prior_len = self.entries[i].len;
                proof {
                    lemma_seq_to_map_at(s, i as int);
                    lemma_seq_to_map_remove(s, i as int);
                    lemma_live_size_remove(s, i as int);
                }
                self.entries.remove(i);
                proof {
                    assert(self.entries_view() =~= s.remove(i as int));
                }
                Some(prior_len)
            }
            None => {
                proof {
                    lemma_seq_to_map_domain(s, key@);
                    assert(old(self)@.remove(key@) =~= old(self)@);
                }
                None
            }
        }
    }

    /// How many entries there are.
    pub fn len(&self) -> (n: usize)
        ensures
            n == self.entries_view().len(),
    {
        self.entries.len()
    }

    /// The range stored at position `i`.
    pub fn span_at(&self, i: usize) -> (r: (u64, u64))
        requires
            i < self.entries_view().len(),
        ensures
            self.entries_view()[i as int].1 == (Span { pos: r.0 as int, len: r.1 as int }),
    {
        let e = &self.entries[i];
        (e.pos, e.len)
    }

    /// Entry lengths come from `u64` fields, so they are never negative.
    pub proof fn lemma_nonneg(self)
        ensures
            forall|i: int|
                0 <= i < self.entries_view().len() ==> (#[trigger] self.entries_view()[i]).1.len
                    >= 0,
    {
        assert forall|i: int|
            0 <= i < self.entries_view().len() implies (#[trigger] self.entries_view()[i]).1.len
            >= 0 by {
            assert(self.entries_view()[i] == self.entries@[i]@);
        }
    }

    /// The live total is at least zero, and at least any one entry's length.
    pub proof fn lemma_live_bounds(self)
        requires
            self.wf(),
        ensures
            live_size(self.entries_view()) >= 0,
            forall|k: Seq<u8>| #[trigger] self@.contains_key(k) ==> self@[k].len >= 0
                && live_size(self.entries_view()) >= self@[k].len,
    {
        self.lemma_nonneg();
        lemma_live_size_bounds(self.entries_view());
        assert forall|k: Seq<u8>| #[trigger] self@.contains_key(k) implies self@[k].len >= 0
            && live_size(self.entries_view()) >= self@[k].len by {
            lemma_seq_to_map_domain(self.entries_view(), k);
            let w = choose|i: int|
                0 <= i < self.entries_view().len() && self.entries_view()[i].0 == k;
            lemma_seq_to_map_at(self.entries_view(), w);
        }
    }

    /// A copy of the key stored at position `i`.
    pub fn key_at(&self, i: usize) -> (r: Vec<u8>)
        requires
            i < self.entries_view().len(),
        ensures
            r@ == self.entries_view()[i as int].0,
    {
        slice_to_vec(self.entries[i].key.as_slice())
    }
}

} // verus!
