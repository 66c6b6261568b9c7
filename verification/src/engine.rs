//! The storage engine: replay of a log into an index, the set / get / remove
//! operations over it, and compaction.
//!
//! The engine holds the log *contents*; the caller owns the log *file* and
//! applies each returned [`LogEffect`] to it, so that the file always equals
//! `log_bytes()`.

use vstd::prelude::*;
use vstd::utf8::{encode_utf8, valid_utf8};
use vstd::string::{StrSliceExecFns, StringSliceAdditionalSpecFns};

use crate::codec::{
    skip_ws, parse_at, parse_rec, parse_end, RecModel, Record, lemma_skip_ws,
    lemma_skip_ws_frame, lemma_skip_ws_to_end, lemma_parse_basic, lemma_parse_translate,
    lemma_parse_encode, spec_encode, encode_record, parse_record, skip_ws_exec,
    push_bytes, lemma_round_trip, append_range,
};
use crate::index::{
    Span, Index, live_size, has_key, lemma_seq_to_map_domain, lemma_seq_to_map_at,
    lemma_live_size_bounds,
};
use crate::{KvError, THRESHOLD};

verus! {

/// What a mutation did to the log, for the caller that persists it.
#[derive(Debug)]
pub enum LogEffect {
    /// The returned bytes were appended to the end of the log.
    Appended(Vec<u8>),
    /// The log was compacted: the whole file must be rewritten with the
    /// engine's current log contents.
    Compacted,
}

/// Replaying the log from position `i`, with the index and stale count built
/// so far: the index and stale count the whole log describes, or `None` when
/// the remainder does not parse.
pub open spec fn replay(b: Seq<u8>, i: int, m: Map<Seq<u8>, Span>, stale: int) -> Option<
    (Map<Seq<u8>, Span>, int),
>
    decreases b.len() - i when 0 <= i <= b.len()
{
    let j = skip_ws(b, i);
    if !(i <= j && j <= b.len()) {
        None
    } else if j == b.len() {
        Some((m, stale + (j - i)))
    } else {
        match parse_at(b, j) {
            None => None,
            Some((r, end)) => {
                if j < end && end <= b.len() {
                    match r {
                        RecModel::Put { key, value } => replay(
                            b,
                            end,
                            m.insert(key, Span { pos: j, len: end - j }),
                            stale + (j - i) + if m.contains_key(key) {
                                m[key].len
                            } else {
                                0
                            },
                        ),
                        RecModel::Remove { key } => replay(
                            b,
                            end,
                            m.remove(key),
                            stale + (j - i) + (end - j) + if m.contains_key(key) {
                                m[key].len
                            } else {
                                0
                            },
                        ),
                    }
                } else {
                    None
                }
            }
        }
    }
}

/// The value held by the set-record at the range `sp` of the log.
pub open spec fn set_value_at(b: Seq<u8>, sp: Span) -> Seq<u8> {
    match parse_at(b, sp.pos) {
        Some(p) => match p.0 {
            RecModel::Put { value, .. } => value,
            RecModel::Remove { .. } => Seq::empty(),
        },
        None => Seq::empty(),
    }
}

/// The range `sp` covers a complete set-record for key `k`.
pub open spec fn entry_ok(b: Seq<u8>, k: Seq<u8>, sp: Span) -> bool {
    match parse_at(b, sp.pos) {
        Some(p) => {
            &&& 0 <= sp.pos
            &&& sp.len > 0
            &&& p.1 == sp.pos + sp.len
            &&& p.1 <= b.len()
            &&& match p.0 {
                RecModel::Put { key, .. } => key == k,
                RecModel::Remove { .. } => false,
            }
        }
        None => false,
    }
}

/// Every index entry points at a complete set-record for its own key.
pub open spec fn valid_entries(b: Seq<u8>, m: Map<Seq<u8>, Span>) -> bool {
    forall|k: Seq<u8>| #[trigger] m.contains_key(k) ==> entry_ok(b, k, m[k])
}

/// A replayed index only ever points at complete set-records of the log.
pub proof fn lemma_replay_valid(b: Seq<u8>, i: int, m: Map<Seq<u8>, Span>, stale: int)
    requires
        0 <= i <= b.len(),
        valid_entries(b, m),
        replay(b, i, m, stale) is Some,
    ensures
        match replay(b, i, m, stale) {
            Some(p) => valid_entries(b, p.0),
            None => true,
        },
    decreases b.len() - i,
{
    lemma_skip_ws(b, i);
    let j = skip_ws(b, i);
    if j == b.len() {
    } else {
        match parse_at(b, j) {
            None => {}
            Some((r, end)) => {
                lemma_parse_basic(b, j);
                match r {
                    RecModel::Put { key, value } => {
                        let sp = Span { pos: j, len: end - j };
                        let m2 = m.insert(key, sp);
                        let s2 = stale + (j - i) + if m.contains_key(key) {
                            m[key].len
                        } else {
                            0
                        };
                        assert(entry_ok(b, key, sp));
                        assert forall|k: Seq<u8>| #[trigger] m2.contains_key(k) implies entry_ok(
                            b,
                            k,
                            m2[k],
                        ) by {
                            if k != key {
                                assert(m.contains_key(k));
                            }
                        }
                        lemma_replay_valid(b, end, m2, s2);
                    }
                    RecModel::Remove { key } => {
                        let m2 = m.remove(key);
                        let s2 = stale + (j - i) + (end - j) + if m.contains_key(key) {
                            m[key].len
                        } else {
                            0
                        };
                        assert forall|k: Seq<u8>| #[trigger] m2.contains_key(k) implies entry_ok(
                            b,
                            k,
                            m2[k],
                        ) by {
                            assert(m.contains_key(k));
                        }
                        lemma_replay_valid(b, end, m2, s2);
                    }
                }
            }
        }
    }
}

/// Appending one whole record to a replayable log replays to the old index
/// with that record applied, the new entry standing at the old end.
pub proof fn lemma_replay_append(b: Seq<u8>, c: Seq<u8>, i: int, m: Map<Seq<u8>, Span>, stale: int)
    requires
        0 <= i <= b.len(),
        replay(b, i, m, stale) is Some,
        parse_at(c, 0) is Some,
        parse_end(c, 0) == c.len(),
    ensures
        match replay(b, i, m, stale) {
            Some(p1) => replay(b + c, i, m, stale) == Some(
                match parse_rec(c, 0) {
                    RecModel::Put { key, value } => (
                        p1.0.insert(key, Span { pos: b.len() as int, len: c.len() as int }),
                        p1.1 + if p1.0.contains_key(key) {
                            p1.0[key].len
                        } else {
                            0
                        },
                    ),
                    RecModel::Remove { key } => (
                        p1.0.remove(key),
                        p1.1 + c.len() + if p1.0.contains_key(key) {
                            p1.0[key].len
                        } else {
                            0
                        },
                    ),
                },
            ),
            None => true,
        },
    decreases b.len() - i,
{
    lemma_skip_ws(b, i);
    lemma_parse_basic(c, 0);
    let j = skip_ws(b, i);
    let bc = b + c;
    if j == b.len() {
        lemma_skip_ws_to_end(b, c, i);
        assert(bc.subrange(b.len() as int, b.len() as int + c.len() as int) =~= c.subrange(0, c.len() as int));
        assert(c.subrange(0, c.len() as int) =~= c);
        lemma_parse_translate(c, 0, bc, b.len() as int);
        let end: int = b.len() as int + c.len() as int;
        assert(parse_at(bc, b.len() as int) == Some((parse_rec(c, 0), end)));
        assert(skip_ws(bc, end) == end);
        match parse_rec(c, 0) {
            RecModel::Put { key, value } => {
                let m2 = m.insert(key, Span { pos: b.len() as int, len: c.len() as int });
                let s2 = stale + (b.len() - i) + if m.contains_key(key) {
                    m[key].len
                } else {
                    0
                };
                assert(replay(bc, end, m2, s2) == Some((m2, s2 + 0)));
                assert(replay(bc, i, m, stale) == Some((m2, s2)));
            }
            RecModel::Remove { key } => {
                let m2 = m.remove(key);
                let s2 = stale + (b.len() - i) + c.len() + if m.contains_key(key) {
                    m[key].len
                } else {
                    0
                };
                assert(replay(bc, end, m2, s2) == Some((m2, s2 + 0)));
                assert(replay(bc, i, m, stale) == Some((m2, s2)));
            }
        }
    } else {
        lemma_skip_ws_frame(b, c, i);
        match parse_at(b, j) {
            None => {}
            Some((r, end)) => {
                lemma_parse_basic(b, j);
                assert(bc.subrange(j, end) =~= b.subrange(j, end));
                lemma_parse_translate(b, j, bc, j);
                match r {
                    RecModel::Put { key, value } => {
                        let sp = Span { pos: j, len: end - j };
                        let m2 = m.insert(key, sp);
                        let s2 = stale + (j - i) + if m.contains_key(key) {
                            m[key].len
                        } else {
                            0
                        };
                        lemma_replay_append(b, c, end, m2, s2);
                    }
                    RecModel::Remove { key } => {
                        let m2 = m.remove(key);
                        let s2 = stale + (j - i) + (end - j) + if m.contains_key(key) {
                            m[key].len
                        } else {
                            0
                        };
                        lemma_replay_append(b, c, end, m2, s2);
                    }
                }
            }
        }
    }
}

} // verus!

verus! {

/// The storage engine, bound to one log.
#[derive(Debug)]
pub struct KvStore {
    /// The log contents; the backing file always holds exactly these bytes.
    pub log: Vec<u8>,
    /// Key to byte range of the live set-record.
    pub index: Index,
    /// Bytes of the log not covered by any live record.
    pub stale_size: u64,
}

/// Relies on String::from_utf8: it succeeds exactly on valid UTF-8 input and
/// returns the text that the bytes encode.
#[verifier::external_body]
fn bytes_to_string(v: Vec<u8>) -> (r: Option<String>)
    ensures
        match r {
            Some(s) => valid_utf8(v@) && encode_utf8(s@) == v@,
            None => !valid_utf8(v@),
        },
{
    match String::from_utf8(v) {
        Ok(s) => Some(s),
        Err(_) => None,
    }
}

impl KvStore {
    /// The engine invariant: the index is exactly what replaying the log
    /// yields, and the stale count is exactly the log bytes not covered by
    /// live records.
    pub open spec fn wf(self) -> bool {
        &&& self.index.wf()
        &&& self.log@.len() <= usize::MAX
        &&& replay(self.log@, 0, Map::empty(), 0) == Some((self.index@, self.stale_size as int))
        &&& self.stale_size as int == self.log@.len() - live_size(self.index.entries_view())
    }

    /// The mapping the store represents: each live key to the value bytes of
    /// its most recent set-record.
    pub open spec fn kv(self) -> Map<Seq<u8>, Seq<u8>> {
        Map::new(
            |k: Seq<u8>| self.index@.contains_key(k),
            |k: Seq<u8>| set_value_at(self.log@, self.index@[k]),
        )
    }

    /// The log contents: what the backing file must hold.
    pub fn log_bytes(&self) -> (r: &Vec<u8>)
        ensures
            r@ == self.log@,
    {
        &self.log
    }

    /// How many stale bytes the log currently carries.
    pub fn stale_bytes(&self) -> (r: u64)
        ensures
            r == self.stale_size,
    {
        self.stale_size
    }

    /// Open a store over the given log contents, replaying them into an
    /// index. Fails exactly when the bytes do not parse as a log.
    pub fn open(log: Vec<u8>) -> (r: Result<KvStore, KvError>)
        ensures
            match r {
                Ok(e) => e.wf() && e.log@ == log@ && replay(log@, 0, Map::empty(), 0) == Some(
                    (e.index@, e.stale_size as int),
                ),
                Err(err) => err == KvError::Corruption && replay(log@, 0, Map::empty(), 0)
                    is None,
            },
    {
        let mut index = Index::new();
        let mut stale: u64 = 0;
        let mut i: usize = 0;
        let n: usize = log.len();
        loop
            invariant_except_break
                replay(log@, 0, Map::empty(), 0) == replay(log@, i as int, index@, stale as int),
                stale as int == i - live_size(index.entries_view()),
            invariant
                i <= n,
                n == log@.len(),
                index.wf(),
                live_size(index.entries_view()) >= 0,
            ensures
                index.wf(),
                replay(log@, 0, Map::empty(), 0) == Some((index@, stale as int)),
                stale as int == log@.len() - live_size(index.entries_view()),
            decreases n - i,
        {
            let j = skip_ws_exec(&log, i);
            proof {
                lemma_skip_ws(log@, i as int);
            }
            if j == n {
                let ghost st0 = stale as int;
                stale = stale + (j - i) as u64;
                proof {
                    assert(replay(log@, i as int, index@, st0) == Some((index@, stale as int)));
                }
                break;
            }
            match parse_record(&log, j) {
                Err(_) => {
                    proof {
                        assert(replay(log@, i as int, index@, stale as int) is None);
                    }
                    return Err(KvError::Corruption);
                }
                Ok((rec, end)) => {
                    let ghost m0 = index@;
                    let ghost st0 = stale as int;
                    let ghost lv0 = live_size(index.entries_view());
                    proof {
                        index.lemma_live_bounds();
                    }
                    match rec {
                        Record::Put { key, value: _value } => {
                            let ghost kb = key@;
                            let prior = index.insert(key, j as u64, (end - j) as u64);
                            match prior {
                                Some(l) => {
                                    stale = stale + (j - i) as u64 + l;
                                }
                                None => {
                                    stale = stale + (j - i) as u64;
                                }
                            }
                            proof {
                                assert(index@ == m0.insert(
                                    kb,
                                    Span { pos: j as int, len: end - j },
                                ));
                                assert(replay(log@, i as int, m0, st0) == replay(
                                    log@,
                                    end as int,
                                    index@,
                                    stale as int,
                                ));
                            }
                        }
                        Record::Remove { key } => {
                            let ghost kb = key@;
                            let prior = index.remove(&key);
                            match prior {
                                Some(l) => {
                                    stale = stale + (j - i) as u64 + (end - j) as u64 + l;
                                }
                                None => {
                                    stale = stale + (j - i) as u64 + (end - j) as u64;
                                }
                            }
                            proof {
                                assert(index@ == m0.remove(kb));
                                assert(replay(log@, i as int, m0, st0) == replay(
                                    log@,
                                    end as int,
                                    index@,
                                    stale as int,
                                ));
                            }
                        }
                    }
                    i = end;
                }
            }
        }
        let store = KvStore { log, index, stale_size: stale };
        Ok(store)
    }

    /// Append one set-record for `key` and `value` and index it; compact
    /// when more than THRESHOLD bytes have gone stale. Always succeeds, and
    /// afterwards the store maps `key` to `value` and all else is unchanged.
    pub fn set(&mut self, key: String, value: String) -> (r: Result<LogEffect, KvError>)
        requires
            old(self).wf(),
        ensures
            final(self).wf(),
            r is Ok,
            final(self).kv() == old(self).kv().insert(encode_utf8(key@), encode_utf8(value@)),
            final(self).stale_size <= THRESHOLD,
            match r {
                Ok(LogEffect::Appended(d)) => final(self).log@ == old(self).log@ + d@ && d@
                    == spec_encode(
                    RecModel::Put { key: encode_utf8(key@), value: encode_utf8(value@) },
                ),
                Ok(LogEffect::Compacted) => final(self).is_compacted() && final(self).log@.len()
                    == live_size(final(self).index.entries_view()),
                Err(_) => false,
            },
    {
        let kb: Vec<u8> = key.as_str().as_bytes_vec();
        let vb: Vec<u8> = value.as_str().as_bytes_vec();
        let ghost kbs = kb@;
        let ghost vbs = vb@;
        proof {
            vstd::std_specs::vec::axiom_spec_len(&kb);
            vstd::std_specs::vec::axiom_spec_len(&vb);
        }
        let rec = Record::Put { key: kb, value: vb };
        let delta = encode_record(&rec);
        let pos: usize = self.log.len();
        let ghost b0 = self.log@;
        let ghost m0 = self.index@;
        let ghost st0 = self.stale_size as int;
        let ghost lv0 = live_size(self.index.entries_view());
        proof {
            self.index.lemma_live_bounds();
            lemma_replay_valid(b0, 0, Map::empty(), 0);
            lemma_round_trip(rec@);
            lemma_replay_append(b0, delta@, 0, Map::empty(), 0);
            lemma_parse_encode(b0, rec@, Seq::empty());
            assert(b0 + delta@ + Seq::<u8>::empty() =~= b0 + delta@);
        }
        push_bytes(&mut self.log, &delta);
        let kb2: Vec<u8> = match rec {
            Record::Put { key: k, value: _v } => k,
            Record::Remove { key: k } => k,
        };
        let dlen: u64 = delta.len() as u64;
        let prior = self.index.insert(kb2, pos as u64, dlen);
        match prior {
            Some(l) => {
                self.stale_size = self.stale_size + l;
            }
            None => {}
        }
        proof {
            vstd::std_specs::vec::axiom_spec_len(&self.log);
            assert(self.log@ == b0 + delta@);
            assert(self.index@ == m0.insert(
                kbs,
                Span { pos: pos as int, len: dlen as int },
            ));
            assert(replay(self.log@, 0, Map::empty(), 0) == Some(
                (self.index@, self.stale_size as int),
            ));
            assert(parse_at(self.log@, pos as int) == Some(
                (RecModel::Put { key: kbs, value: vbs }, pos as int + delta@.len() as int),
            ));
            assert(set_value_at(self.log@, Span { pos: pos as int, len: dlen as int }) == vbs);
            assert forall|k: Seq<u8>|
                #[trigger] self.index@.contains_key(k) && k != kbs implies set_value_at(
                self.log@,
                self.index@[k],
            ) == set_value_at(b0, m0[k]) by {
                assert(m0.contains_key(k));
                assert(entry_ok(b0, k, m0[k]));
                let sp = m0[k];
                assert(self.log@.subrange(sp.pos, sp.pos + sp.len) =~= b0.subrange(
                    sp.pos,
                    sp.pos + sp.len,
                ));
                lemma_parse_translate(b0, sp.pos, self.log@, sp.pos);
            }
            assert(self.kv() =~= old(self).kv().insert(kbs, vbs));
        }
        if self.stale_size > THRESHOLD {
            self.compact();
            Ok(LogEffect::Compacted)
        } else {
            Ok(LogEffect::Appended(delta))
        }
    }

    /// Remove `key`: fails with `KeyNotFound` when the key is absent and then
    /// changes nothing; otherwise appends one remove-record and accounts it
    /// and the removed set-record as stale, compacting past the threshold.
    pub fn remove(&mut self, key: String) -> (r: Result<LogEffect, KvError>)
        requires
            old(self).wf(),
        ensures
            final(self).wf(),
            match r {
                Ok(eff) => {
                    &&& old(self).kv().contains_key(encode_utf8(key@))
                    &&& final(self).kv() == old(self).kv().remove(encode_utf8(key@))
                    &&& final(self).stale_size <= THRESHOLD
                    &&& match eff {
                        LogEffect::Appended(d) => final(self).log@ == old(self).log@ + d@ && d@
                            == spec_encode(RecModel::Remove { key: encode_utf8(key@) }),
                        LogEffect::Compacted => final(self).is_compacted() && final(self).log@.len()
                            == live_size(final(self).index.entries_view()),
                    }
                },
                Err(e) => {
                    &&& e == KvError::KeyNotFound
                    &&& !old(self).kv().contains_key(encode_utf8(key@))
                    &&& *final(self) == *old(self)
                },
            },
    {
        let kb: Vec<u8> = key.as_str().as_bytes_vec();
        let ghost kbs = kb@;
        proof {
            vstd::std_specs::vec::axiom_spec_len(&kb);
        }
        match self.index.get(&kb) {
            None => {
                return Err(KvError::KeyNotFound);
            }
            Some(_) => {}
        }
        let rec = Record::Remove { key: kb };
        let delta = encode_record(&rec);
        let ghost b0 = self.log@;
        let ghost m0 = self.index@;
        let ghost st0 = self.stale_size as int;
        proof {
            self.index.lemma_live_bounds();
            lemma_replay_valid(b0, 0, Map::empty(), 0);
            lemma_round_trip(rec@);
            lemma_replay_append(b0, delta@, 0, Map::empty(), 0);
        }
        push_bytes(&mut self.log, &delta);
        let kb2: Vec<u8> = match rec {
            Record::Put { key: k, value: _v } => k,
            Record::Remove { key: k } => k,
        };
        let prior = self.index.remove(&kb2);
        let l: u64 = match prior {
            Some(l) => l,
            None => 0,
        };
        proof {
            assert(prior is Some);
        }
        let dlen: u64 = delta.len() as u64;
        proof {
            vstd::std_specs::vec::axiom_spec_len(&self.log);
            assert(self.log@ == b0 + delta@);
        }
        self.stale_size = self.stale_size + dlen + l;
        proof {
            assert(self.log@ == b0 + delta@);
            assert(self.index@ == m0.remove(kbs));
            assert(replay(self.log@, 0, Map::empty(), 0) == Some(
                (self.index@, self.stale_size as int),
            ));
            assert forall|k: Seq<u8>| #[trigger] self.index@.contains_key(k) implies set_value_at(
                self.log@,
                self.index@[k],
            ) == set_value_at(b0, m0[k]) by {
                assert(m0.contains_key(k));
                assert(entry_ok(b0, k, m0[k]));
                let sp = m0[k];
                assert(self.log@.subrange(sp.pos, sp.pos + sp.len) =~= b0.subrange(
                    sp.pos,
                    sp.pos + sp.len,
                ));
                lemma_parse_translate(b0, sp.pos, self.log@, sp.pos);
            }
            assert(self.kv() =~= old(self).kv().remove(kbs));
        }
        if self.stale_size > THRESHOLD {
            self.compact();
            Ok(LogEffect::Compacted)
        } else {
            Ok(LogEffect::Appended(delta))
        }
    }

    /// Look a key up: the value of the most recent set of that key, `None`
    /// when the key is absent, and a corruption error exactly when the
    /// stored value bytes are not valid UTF-8.
    pub fn get(&self, key: String) -> (r: Result<Option<String>, KvError>)
        requires
            self.wf(),
        ensures
            match r {
                Ok(Some(v)) => self.kv().contains_key(encode_utf8(key@)) && encode_utf8(v@)
                    == self.kv()[encode_utf8(key@)],
                Ok(None) => !self.kv().contains_key(encode_utf8(key@)),
                Err(e) => e == KvError::Corruption && self.kv().contains_key(encode_utf8(key@))
                    && !valid_utf8(self.kv()[encode_utf8(key@)]),
            },
    {
        let kb: Vec<u8> = key.as_str().as_bytes_vec();
        proof {
            lemma_replay_valid(self.log@, 0, Map::empty(), 0);
        }
        match self.index.get(&kb) {
            None => Ok(None),
            Some((pos, len)) => {
                proof {
                    assert(self.index@.contains_key(kb@));
                    assert(entry_ok(self.log@, kb@, self.index@[kb@]));
                }
                match parse_record(&self.log, pos as usize) {
                    Err(_) => {
                        proof {
                            assert(false);
                        }
                        Err(KvError::Corruption)
                    }
                    Ok((rec, _end)) => {
                        match rec {
                            Record::Put { key: _k, value } => {
                                match bytes_to_string(value) {
                                    Some(s) => Ok(Some(s)),
                                    None => Err(KvError::Corruption),
                                }
                            }
                            Record::Remove { .. } => {
                                proof {
                                    assert(false);
                                }
                                Err(KvError::Corruption)
                            }
                        }
                    }
                }
            }
        }
    }
}

} // verus!

verus! {

/// The log that compaction writes: the live records of `log`, in index
/// order, and nothing else.
pub open spec fn compact_log(log: Seq<u8>, s: Seq<(Seq<u8>, Span)>) -> Seq<u8>
    decreases s.len(),
{
    if s.len() == 0 {
        Seq::empty()
    } else {
        compact_log(log, s.drop_last()) + log.subrange(
            s.last().1.pos,
            s.last().1.pos + s.last().1.len,
        )
    }
}

/// The entries after compaction: same keys and lengths, each record placed
/// directly after the previous one.
pub open spec fn compact_entries(s: Seq<(Seq<u8>, Span)>) -> Seq<(Seq<u8>, Span)>
    decreases s.len(),
{
    if s.len() == 0 {
        Seq::empty()
    } else {
        compact_entries(s.drop_last()).push(
            (s.last().0, Span { pos: live_size(s.drop_last()), len: s.last().1.len }),
        )
    }
}

/// The entries tile the byte range `[0, upto)` in storage order: each record
/// starts where the previous one ends, with no gap before, between or after.
pub open spec fn entries_packed(s: Seq<(Seq<u8>, Span)>, upto: int) -> bool
    decreases s.len(),
{
    if s.len() == 0 {
        upto == 0
    } else {
        &&& s.last().1.pos == upto - s.last().1.len
        &&& entries_packed(s.drop_last(), upto - s.last().1.len)
    }
}

/// What compaction writes is packed and carries the same number of live
/// bytes.
pub proof fn lemma_compact_entries_props(s: Seq<(Seq<u8>, Span)>)
    requires
        forall|i: int| 0 <= i < s.len() ==> (#[trigger] s[i]).1.len >= 0,
    ensures
        live_size(compact_entries(s)) == live_size(s),
        entries_packed(compact_entries(s), live_size(s)),
    decreases s.len(),
{
    if s.len() > 0 {
        assert forall|i: int| 0 <= i < s.drop_last().len() implies (#[trigger] s.drop_last()[
            i]).1.len >= 0 by {
            assert(s.drop_last()[i] == s[i]);
        }
        lemma_compact_entries_props(s.drop_last());
        let ce = compact_entries(s);
        assert(ce.drop_last() =~= compact_entries(s.drop_last()));
        assert(ce.last() == (s.last().0, Span {
            pos: live_size(s.drop_last()),
            len: s.last().1.len,
        }));
    }
}

/// A packed index covers exactly its live total.
pub proof fn lemma_packed_live(s: Seq<(Seq<u8>, Span)>, upto: int)
    requires
        entries_packed(s, upto),
        forall|i: int| 0 <= i < s.len() ==> (#[trigger] s[i]).1.len >= 0,
    ensures
        live_size(s) == upto,
        upto >= 0,
    decreases s.len(),
{
    if s.len() > 0 {
        assert forall|i: int| 0 <= i < s.drop_last().len() implies (#[trigger] s.drop_last()[
            i]).1.len >= 0 by {
            assert(s.drop_last()[i] == s[i]);
        }
        assert(s.last().1.len >= 0) by {
            assert(s[s.len() - 1].1.len >= 0);
        }
        lemma_packed_live(s.drop_last(), upto - s.last().1.len);
    }
}

/// Over a packed index the compaction output is the log itself and every
/// entry keeps its place.
pub proof fn lemma_packed_identity(log: Seq<u8>, s: Seq<(Seq<u8>, Span)>, upto: int)
    requires
        entries_packed(s, upto),
        0 <= upto <= log.len(),
        forall|i: int| 0 <= i < s.len() ==> (#[trigger] s[i]).1.len >= 0,
    ensures
        live_size(s) == upto,
        compact_log(log, s) == log.subrange(0, upto),
        compact_entries(s) == s,
    decreases s.len(),
{
    lemma_packed_live(s, upto);
    if s.len() == 0 {
        assert(log.subrange(0, 0) =~= Seq::<u8>::empty());
    } else {
        let sp = s.last().1;
        assert forall|i: int| 0 <= i < s.drop_last().len() implies (#[trigger] s.drop_last()[
            i]).1.len >= 0 by {
            assert(s.drop_last()[i] == s[i]);
        }
        assert(sp.len >= 0) by {
            assert(s[s.len() - 1].1.len >= 0);
        }
        lemma_packed_live(s.drop_last(), upto - sp.len);
        lemma_packed_identity(log, s.drop_last(), upto - sp.len);
        assert(compact_log(log, s) =~= log.subrange(0, upto));
        assert(compact_entries(s) =~= s);
    }
}

impl KvStore {
    /// The log holds exactly the live records, back to back, and no stale
    /// bytes: the state compaction leaves behind.
    pub open spec fn is_compacted(self) -> bool {
        &&& self.stale_size == 0
        &&& entries_packed(self.index.entries_view(), self.log@.len() as int)
    }

    /// Rewrite the log to exactly the live records, in index order, and
    /// reset the stale count. Every lookup is preserved.
    pub fn compact(&mut self)
        requires
            old(self).wf(),
        ensures
            final(self).wf(),
            final(self).kv() == old(self).kv(),
            final(self).stale_size == 0,
            final(self).is_compacted(),
            final(self).log@ == compact_log(old(self).log@, old(self).index.entries_view()),
            final(self).index.entries_view() == compact_entries(old(self).index.entries_view()),
            final(self).log@.len() == live_size(final(self).index.entries_view()),
            live_size(final(self).index.entries_view()) == live_size(
                old(self).index.entries_view(),
            ),
    {
        let ghost b0 = self.log@;
        let ghost s0 = self.index.entries_view();
        let ghost m0 = self.index@;
        proof {
            lemma_replay_valid(b0, 0, Map::empty(), 0);
            self.index.lemma_nonneg();
            self.index.lemma_live_bounds();
        }
        let mut new_log: Vec<u8> = Vec::new();
        let mut new_index = Index::new();
        let count: usize = self.index.len();
        let mut i: usize = 0;
        proof {
            assert(s0.subrange(0, 0) =~= Seq::<(Seq<u8>, Span)>::empty());
            assert(compact_entries(s0.subrange(0, 0)) =~= Seq::<(Seq<u8>, Span)>::empty());
            assert(compact_log(b0, s0.subrange(0, 0)) =~= Seq::<u8>::empty());
            assert(skip_ws(Seq::<u8>::empty(), 0) == 0);
            assert(replay(Seq::<u8>::empty(), 0, Map::<Seq<u8>, Span>::empty(), 0) == Some(
                (Map::<Seq<u8>, Span>::empty(), 0int),
            ));
        }
        while i < count
            invariant
                i <= count,
                count == s0.len(),
                self.log@ == b0,
                self.index.entries_view() == s0,
                self.index@ == m0,
                self.index.wf(),
                b0.len() <= usize::MAX,
                valid_entries(b0, m0),
                forall|q: int| 0 <= q < s0.len() ==> (#[trigger] s0[q]).1.len >= 0,
                new_index.wf(),
                new_index.entries_view() == compact_entries(s0.subrange(0, i as int)),
                new_log@ == compact_log(b0, s0.subrange(0, i as int)),
                new_log@.len() == live_size(s0.subrange(0, i as int)),
                live_size(s0.subrange(0, i as int)) <= live_size(s0),
                replay(new_log@, 0, Map::empty(), 0) == Some((new_index@, 0int)),
                valid_entries(new_log@, new_index@),
                forall|k: Seq<u8>| #[trigger] new_index@.contains_key(k) <==> has_key(
                    s0.subrange(0, i as int),
                    k,
                ),
                forall|k: Seq<u8>| #[trigger] new_index@.contains_key(k) ==> m0.contains_key(k)
                    && set_value_at(new_log@, new_index@[k]) == set_value_at(b0, m0[k]),
            decreases count - i,
        {
            let ghost prefix = s0.subrange(0, i as int);
            let ghost ni0 = new_index@;
            let ghost nl0 = new_log@;
            let (pos, len) = self.index.span_at(i);
            let key = self.index.key_at(i);
            let ghost ks = key@;
            let ghost sp = s0[i as int].1;
            proof {
                lemma_seq_to_map_at(s0, i as int);
                assert(m0.contains_key(ks) && m0[ks] == sp);
                assert(entry_ok(b0, ks, sp));
                self.index.lemma_live_bounds();
            }
            let npos: usize = new_log.len();
            append_range(&mut new_log, &self.log, pos as usize, len as usize);
            let ghost chunk = b0.subrange(sp.pos, sp.pos + sp.len);
            proof {
                assert(chunk.subrange(0, sp.len) =~= chunk);
                lemma_parse_translate(b0, sp.pos, chunk, 0);
                assert(parse_end(chunk, 0) == chunk.len());
                lemma_replay_append(nl0, chunk, 0, Map::empty(), 0int);
                assert(!has_key(prefix, ks)) by {
                    if has_key(prefix, ks) {
                        let w = choose|w: int| 0 <= w < prefix.len() && prefix[w].0 == ks;
                        assert(s0[w].0 == ks);
                        assert(s0[w].0 != s0[i as int].0);
                    }
                }
                assert(!ni0.contains_key(ks));
                lemma_seq_to_map_domain(new_index.entries_view(), ks);
            }
            new_index.push_new(key, npos as u64, len);
            proof {
                let ghost prefix2 = s0.subrange(0, i + 1 as int);
                assert(prefix2.drop_last() =~= prefix);
                assert(prefix2.last() == s0[i as int]);
                assert(new_index.entries_view() =~= compact_entries(prefix2));
                assert(new_log@ =~= compact_log(b0, prefix2));
                assert(new_index@ == ni0.insert(ks, Span { pos: npos as int, len: sp.len }));
                // the freshly copied record parses at its new place
                assert(new_log@.subrange(npos as int, npos as int + sp.len) =~= chunk);
                lemma_parse_translate(chunk, 0, new_log@, npos as int);
                assert(entry_ok(new_log@, ks, Span { pos: npos as int, len: sp.len }));
                assert(set_value_at(new_log@, Span { pos: npos as int, len: sp.len })
                    == set_value_at(b0, sp));
                // the previously copied records still parse where they were
                assert forall|k: Seq<u8>| #[trigger] ni0.contains_key(k) implies entry_ok(
                    new_log@,
                    k,
                    ni0[k],
                ) && set_value_at(new_log@, ni0[k]) == set_value_at(nl0, ni0[k]) by {
                    assert(entry_ok(nl0, k, ni0[k]));
                    let spk = ni0[k];
                    assert(new_log@.subrange(spk.pos, spk.pos + spk.len) =~= nl0.subrange(
                        spk.pos,
                        spk.pos + spk.len,
                    ));
                    lemma_parse_translate(nl0, spk.pos, new_log@, spk.pos);
                }
                assert forall|k: Seq<u8>| #[trigger] new_index@.contains_key(k) implies entry_ok(
                    new_log@,
                    k,
                    new_index@[k],
                ) by {}
                assert forall|k: Seq<u8>| #[trigger] new_index@.contains_key(k) implies (
                has_key(prefix2, k)) by {
                    if k == ks {
                        assert(prefix2[i as int].0 == ks);
                    } else {
                        let w = choose|w: int| 0 <= w < prefix.len() && prefix[w].0 == k;
                        assert(prefix2[w].0 == k);
                    }
                }
                assert forall|k: Seq<u8>| has_key(prefix2, k) implies #[trigger] new_index@
                    .contains_key(k) by {
                    let w = choose|w: int| 0 <= w < prefix2.len() && prefix2[w].0 == k;
                    if w < i {
                        assert(prefix[w].0 == k);
                    }
                }
                assert(live_size(prefix2) == live_size(prefix) + sp.len);
                lemma_live_size_bounds_from(s0, i + 1 as int);
            }
            i = i + 1;
        }
        proof {
            assert(s0.subrange(0, count as int) =~= s0);
        }
        self.log = new_log;
        self.index = new_index;
        self.stale_size = 0;
        proof {
            lemma_compact_entries_props(s0);
            assert forall|k: Seq<u8>| #[trigger] m0.contains_key(k) implies self.index@
                .contains_key(k) by {
                lemma_seq_to_map_domain(s0, k);
            }
            assert forall|k: Seq<u8>| #[trigger] self.index@.contains_key(k) implies m0
                .contains_key(k) by {}
            assert(self.kv() =~= old(self).kv());
        }
    }
}

/// Splitting a sequence of entries splits its live total.
pub proof fn lemma_live_size_split(s: Seq<(Seq<u8>, Span)>, at: int)
    requires
        0 <= at <= s.len(),
    ensures
        live_size(s) == live_size(s.subrange(0, at)) + live_size(s.subrange(at, s.len() as int)),
    decreases s.len() - at,
{
    if at == s.len() {
        assert(s.subrange(0, at) =~= s);
        assert(s.subrange(at, s.len() as int) =~= Seq::<(Seq<u8>, Span)>::empty());
    } else {
        lemma_live_size_split(s, at + 1);
        let a1 = s.subrange(0, at + 1);
        assert(a1.drop_last() =~= s.subrange(0, at));
        assert(a1.last() == s[at]);
        lemma_live_size_first(s.subrange(at, s.len() as int));
        assert(s.subrange(at, s.len() as int)[0] == s[at]);
        assert(s.subrange(at, s.len() as int).subrange(
            1,
            s.subrange(at, s.len() as int).len() as int,
        ) =~= s.subrange(at + 1, s.len() as int));
    }
}

/// The live total is the first entry plus the rest.
pub proof fn lemma_live_size_first(s: Seq<(Seq<u8>, Span)>)
    requires
        s.len() > 0,
    ensures
        live_size(s) == s[0].1.len + live_size(s.subrange(1, s.len() as int)),
    decreases s.len(),
{
    if s.len() == 1 {
        assert(s.drop_last() =~= Seq::<(Seq<u8>, Span)>::empty());
        assert(s.subrange(1, 1) =~= Seq::<(Seq<u8>, Span)>::empty());
    } else {
        lemma_live_size_first(s.drop_last());
        assert(s.drop_last()[0] == s[0]);
        let t = s.subrange(1, s.len() as int);
        assert(t.drop_last() =~= s.drop_last().subrange(1, s.drop_last().len() as int));
        assert(t.last() == s.last());
    }
}

/// A suffix of non-negative entries cannot push the prefix total above the
/// whole total.
pub proof fn lemma_live_size_bounds_from(s: Seq<(Seq<u8>, Span)>, at: int)
    requires
        0 <= at <= s.len(),
        forall|q: int| 0 <= q < s.len() ==> (#[trigger] s[q]).1.len >= 0,
    ensures
        live_size(s.subrange(0, at)) <= live_size(s),
{
    lemma_live_size_split(s, at);
    let t = s.subrange(at, s.len() as int);
    assert forall|q: int| 0 <= q < t.len() implies (#[trigger] t[q]).1.len >= 0 by {
        assert(t[q] == s[at + q]);
    }
    lemma_live_size_bounds(t);
}

} // verus!

verus! {

/// Persistence: two well-formed stores over the same log contents are
/// observably the same store — replay determines the index, the stale count
/// and every lookup, so reopening a persisted log reproduces all `get`s.
pub proof fn lemma_persistence(e1: KvStore, e2: KvStore)
    requires
        e1.wf(),
        e2.wf(),
        e1.log@ == e2.log@,
    ensures
        e1.index@ == e2.index@,
        e1.stale_size == e2.stale_size,
        e1.kv() == e2.kv(),
{
    assert(e1.kv() =~= e2.kv());
}

/// Compaction idempotence: on a store that compaction has just left behind,
/// compacting again writes the log back unchanged, keeps every entry where
/// it stands, and leaves zero stale bytes, so nothing observable moves.
pub proof fn lemma_compact_idempotent(e: KvStore)
    requires
        e.wf(),
        e.is_compacted(),
    ensures
        compact_log(e.log@, e.index.entries_view()) == e.log@,
        compact_entries(e.index.entries_view()) == e.index.entries_view(),
        live_size(e.index.entries_view()) == e.log@.len(),
{
    e.index.lemma_nonneg();
    lemma_packed_identity(e.log@, e.index.entries_view(), e.log@.len() as int);
    assert(e.log@.subrange(0, e.log@.len() as int) =~= e.log@);
}

/// Log-size bound: the log always holds exactly the live records plus the
/// stale bytes, so while the stale count is within the threshold — as it is
/// after every mutation — the log is at most the live records plus one
/// threshold of overhead.
pub proof fn lemma_log_size_bound(e: KvStore)
    requires
        e.wf(),
        e.stale_size <= THRESHOLD,
    ensures
        e.log@.len() <= live_size(e.index.entries_view()) + THRESHOLD,
{
}

} // verus!

