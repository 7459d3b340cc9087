//! The log-structured store engine: an append-only record log, an in-memory
//! index from each key to the offset of its most recent record, and the
//! recovery procedure that rebuilds the index by replaying the log.
//!
//! The log is the source of truth.  The index is a derived cache over it:
//! replaying the same log always rebuilds the same index, and for every key
//! in the index, the record at its stored offset is the latest `Set` record
//! for that key.
//!
//! The engine itself performs no I/O.  It keeps the full log contents in
//! memory; the (unverified) caller that owns the backing file reads it into
//! [`KvStorePersist::load_database_from_logs`] on open and mirrors
//! [`KvStorePersist::log_contents`] back to disk after each mutation.
//! Concurrent engines over one file are unsupported.

use vstd::hash_map::StringHashMap;
use vstd::prelude::*;
use vstd::string::StringExecFns;

use crate::codec::{copy_range, decode, encode, encode_spec, find_from, find_newline};
use crate::errors::KvsError;
use crate::log::{
    lemma_find_from_prefix, lemma_log_of_push, lemma_read_record_here, log_of, parse_log,
    read_record_at, wf_history,
};
use crate::record::{delete_record, set_record, Operation, Record, RecordView};

verus! {

/// The result of replaying a history of records: each live key mapped to
/// the offset of its most recent `Set` record in the log of that history,
/// together with the value that record carries.  A key whose most recent
/// record is a `Delete` is absent.
pub open spec fn replay(h: Seq<RecordView>) -> Map<Seq<char>, (int, Seq<char>)>
    decreases h.len(),
{
    if h.len() == 0 {
        Map::empty()
    } else {
        let m = replay(h.drop_last());
        let r = h.last();
        match r.value {
            Some(v) => m.insert(r.key, (log_of(h.drop_last()).len() as int, v)),
            None => m.remove(r.key),
        }
    }
}

/// The key-to-value view of a history: [`replay`] without the offsets.
pub open spec fn kv_of(h: Seq<RecordView>) -> Map<Seq<char>, Seq<char>>
    decreases h.len(),
{
    if h.len() == 0 {
        Map::empty()
    } else {
        let m = kv_of(h.drop_last());
        let r = h.last();
        match r.value {
            Some(v) => m.insert(r.key, v),
            None => m.remove(r.key),
        }
    }
}

/// The index `m` is exactly the offset column of replaying `h`.
pub open spec fn index_ok(m: Map<Seq<char>, usize>, h: Seq<RecordView>) -> bool {
    &&& forall|k: Seq<char>| #![auto] m.dom().contains(k) <==> replay(h).dom().contains(k)
    &&& forall|k: Seq<char>| #![auto]
        m.dom().contains(k) ==> m[k] as int == replay(h)[k].0
}

/// The two views of a history agree: same live keys, and the value view is
/// the value column of the replay.
pub proof fn lemma_kv_replay(h: Seq<RecordView>)
    ensures
        forall|k: Seq<char>| #![auto]
            kv_of(h).dom().contains(k) <==> replay(h).dom().contains(k),
        forall|k: Seq<char>| #![auto]
            replay(h).dom().contains(k) ==> kv_of(h)[k] == replay(h)[k].1,
    decreases h.len(),
{
    if h.len() > 0 {
        lemma_kv_replay(h.drop_last());
        let hp = h.drop_last();
        let r = h.last();
        assert forall|k: Seq<char>| #![auto]
            kv_of(h).dom().contains(k) <==> replay(h).dom().contains(k) by {
            match r.value {
                Some(v) => {
                    assert(kv_of(h) == kv_of(hp).insert(r.key, v));
                },
                None => {
                    assert(kv_of(h) == kv_of(hp).remove(r.key));
                },
            }
        }
        assert forall|k: Seq<char>| #![auto]
            replay(h).dom().contains(k) implies kv_of(h)[k] == replay(h)[k].1 by {
            match r.value {
                Some(v) => {
                    assert(kv_of(h) == kv_of(hp).insert(r.key, v));
                },
                None => {
                    assert(kv_of(h) == kv_of(hp).remove(r.key));
                },
            }
        }
    }
}

/// The index/log consistency invariant, as a theorem about replaying: for
/// every key the replay holds, the record read at its stored offset is a
/// `Set` record for exactly that key carrying exactly its replayed value.
pub proof fn lemma_replay_points(h: Seq<RecordView>, k: Seq<char>)
    requires
        wf_history(h),
        replay(h).dom().contains(k),
    ensures
        ({
            let off = replay(h)[k].0;
            0 <= off < log_of(h).len() && read_record_at(log_of(h), off) == Some(
                set_record(k, replay(h)[k].1),
            )
        }),
    decreases h.len(),
{
    let hp = h.drop_last();
    let r = h.last();
    assert(wf_history(hp)) by {
        assert(forall|i: int| 0 <= i < hp.len() ==> hp[i] == h[i]);
    }
    if r.value is Some && k == r.key {
        let v = r.value->Some_0;
        lemma_read_record_here(log_of(hp), r, Seq::empty());
        assert(log_of(hp) + encode_spec(r) + Seq::empty() =~= log_of(h));
        assert(r.wf());
        assert(r == set_record(k, v));
    } else {
        assert(replay(h)[k] == replay(hp)[k]);
        lemma_replay_points(hp, k);
        let off = replay(hp)[k].0;
        let e = find_from(log_of(hp), '\n', off)->Some_0;
        crate::codec::lemma_find_from_range(log_of(hp), '\n', off);
        lemma_find_from_prefix(log_of(hp), encode_spec(r), '\n', off);
        assert(log_of(h) == log_of(hp) + encode_spec(r));
        assert(log_of(h).subrange(off, e + 1) =~= log_of(hp).subrange(off, e + 1));
    }
}

/// The persistent store: the in-memory mirror of the append log, the index,
/// the backing file's path, and (in ghost state) the history of records the
/// log serializes.
pub struct KvStorePersist {
    db_file: String,
    log: Vec<char>,
    map_store: StringHashMap<usize>,
    hist: Ghost<Seq<RecordView>>,
}

impl KvStorePersist {
    /// The history of records appended so far, oldest first.
    pub closed spec fn history(&self) -> Seq<RecordView> {
        self.hist@
    }

    /// The full contents of the append log.
    pub closed spec fn log_view(&self) -> Seq<char> {
        self.log@
    }

    /// The in-memory index: each live key's offset into the log.
    pub closed spec fn index(&self) -> Map<Seq<char>, usize> {
        self.map_store@
    }

    /// The path of the backing file, as handed to [`Self::new`].
    pub closed spec fn path(&self) -> Seq<char> {
        self.db_file@
    }

    /// The key-to-value contents of the store.
    pub open spec fn kv(&self) -> Map<Seq<char>, Seq<char>> {
        kv_of(self.history())
    }

    /// The engine's invariant: every appended record is valid, the log is
    /// exactly the serialization of the history, and the index is exactly
    /// the offsets that replaying the history yields.
    pub open spec fn wf(&self) -> bool {
        &&& wf_history(self.history())
        &&& self.log_view() == log_of(self.history())
        &&& index_ok(self.index(), self.history())
    }

    /// A fresh engine over the backing file at `db_file`, with an empty log
    /// and an empty index.  Creating the file itself, if absent, is the
    /// caller's task, as is replaying an existing file through
    /// [`Self::load_database_from_logs`].
    pub fn new(db_file: String) -> (s: Self)
        ensures
            s.wf(),
            s.history() == Seq::<RecordView>::empty(),
            s.log_view() == Seq::<char>::empty(),
            s.kv() == Map::<Seq<char>, Seq<char>>::empty(),
            s.path() == db_file@,
    {
        let s = KvStorePersist {
            db_file,
            log: Vec::new(),
            map_store: StringHashMap::new(),
            hist: Ghost(Seq::empty()),
        };
        s
    }

    /// The log contents, for the caller that mirrors them to disk.
    pub fn log_contents(&self) -> (r: &Vec<char>)
        ensures
            r@ == self.log_view(),
    {
        &self.log
    }

    /// Points `key` at offset `value` in the index, leaving the log alone.
    fn set_in_memory(&mut self, key: String, value: usize)
        ensures
            final(self).index() == old(self).index().insert(key@, value),
            final(self).history() == old(self).history(),
            final(self).log_view() == old(self).log_view(),
            final(self).path() == old(self).path(),
    {
        self.map_store.insert(key, value);
    }

    /// Drops `key` from the index, leaving the log alone.
    fn rm_in_memory(&mut self, key: String)
        ensures
            final(self).index() == old(self).index().remove(key@),
            final(self).history() == old(self).history(),
            final(self).log_view() == old(self).log_view(),
            final(self).path() == old(self).path(),
    {
        self.map_store.remove(key.as_str());
    }

    /// Appends one serialized record to the log (and to the history), the
    /// only way the log ever changes: one record, at the end.
    fn save_entry_in_logs(&mut self, entry: Record)
        requires
            entry@.wf(),
        ensures
            final(self).history() == old(self).history().push(entry@),
            final(self).log_view() == old(self).log_view() + encode_spec(entry@),
            final(self).index() == old(self).index(),
            final(self).path() == old(self).path(),
    {
        let ghost entry_view = entry@;
        let mut line = encode(&entry);
        self.log.append(&mut line);
        self.hist = Ghost(self.hist@.push(entry_view));
    }

    /// Reads the one record that starts at offset `pos` of the log:
    /// the line from `pos` up to its terminating newline, decoded.  Fails
    /// with `TruncatedOrMissingRecord` exactly when no newline follows
    /// `pos`, and with `CorruptRecord` exactly when the line there is not
    /// the encoding of a valid record.
    pub fn get_entry_from_pos(&self, pos: usize) -> (r: Result<Record, KvsError>)
        ensures
            match r {
                Ok(rec) => read_record_at(self.log_view(), pos as int) == Some(rec@),
                Err(e) => match e {
                    KvsError::TruncatedOrMissingRecord => find_from(
                        self.log_view(),
                        '\n',
                        pos as int,
                    ) is None,
                    KvsError::CorruptRecord => find_from(self.log_view(), '\n', pos as int)
                        is Some && read_record_at(self.log_view(), pos as int) is None,
                    _ => false,
                },
            },
    {
        let n = self.log.len();
        let e = match find_newline(&self.log, pos) {
            Some(e) => e,
            None => {
                return Err(KvsError::TruncatedOrMissingRecord);
            },
        };
        proof {
            assert(e < n);
        }
        let line = copy_range(&self.log, pos, e + 1);
        match decode(&line) {
            Ok(rec) => Ok(rec),
            Err(_) => Err(KvsError::CorruptRecord),
        }
    }

    /// Recovery: rebuilds the store wholesale from the full contents of the
    /// backing file, replaying every record in order — a `Set` points its
    /// key at the record's offset, a `Delete` drops its key.  A line that
    /// fails to decode aborts the whole recovery with `CorruptLog` and
    /// leaves the store untouched: a partially replayed index would be
    /// silently inconsistent with the log.
    pub fn load_database_from_logs(&mut self, contents: Vec<char>) -> (r: Result<
        (),
        KvsError,
    >)
        ensures
            match r {
                Ok(()) => parse_log(contents@) is Some
                    && final(self).history() == parse_log(contents@)->Some_0
                    && final(self).log_view() == contents@
                    && final(self).path() == old(self).path()
                    && final(self).wf(),
                Err(e) => e == KvsError::CorruptLog && parse_log(contents@) is None
                    && *final(self) == *old(self),
            },
    {
        let n = contents.len();
        let mut map: StringHashMap<usize> = StringHashMap::new();
        let ghost mut gh: Seq<RecordView> = Seq::empty();
        let mut p: usize = 0;
        proof {
            assert(contents@.take(0) =~= log_of(gh));
        }
        while p < n
            invariant
                p <= n == contents@.len(),
                contents@.take(p as int) == log_of(gh),
                wf_history(gh),
                index_ok(map@, gh),
                crate::log::parse_from(contents@, p as int) is Some ==> parse_log(contents@)
                    == Some(gh + crate::log::parse_from(contents@, p as int)->Some_0),
                crate::log::parse_from(contents@, p as int) is None ==> parse_log(contents@)
                    is None,
            decreases n - p,
        {
            let e = match find_newline(&contents, p) {
                Some(e) => e,
                None => {
                    return Err(KvsError::CorruptLog);
                },
            };
            let line = copy_range(&contents, p, e + 1);
            let rec = match decode(&line) {
                Ok(rec) => rec,
                Err(_) => {
                    return Err(KvsError::CorruptLog);
                },
            };
            proof {
                crate::codec::lemma_encode_decode(line@);
                assert(contents@.take(e as int + 1) =~= contents@.take(p as int)
                    + contents@.subrange(p as int, e as int + 1));
                lemma_log_of_push(gh, rec@);
                assert(contents@.take(p as int).len() == p);
                assert(gh.push(rec@).drop_last() =~= gh);
            }
            match &rec.value {
                Some(_) => {
                    map.insert(rec.key, p);
                },
                None => {
                    map.remove(rec.key.as_str());
                },
            }
            proof {
                let gh2 = gh.push(rec@);
                match crate::log::parse_from(contents@, e as int + 1) {
                    Some(rest) => {
                        assert(crate::log::parse_from(contents@, p as int) == Some(seq![rec@]
                            + rest));
                        assert(gh + (seq![rec@] + rest) =~= gh2 + rest);
                    },
                    None => {
                        assert(crate::log::parse_from(contents@, p as int) is None);
                    },
                }
                gh = gh2;
            }
            p = e + 1;
        }
        proof {
            assert(crate::log::parse_from(contents@, p as int) == Some(
                Seq::<RecordView>::empty(),
            ));
            assert(gh + Seq::<RecordView>::empty() =~= gh);
            assert(contents@.take(p as int) =~= contents@);
        }
        self.log = contents;
        self.map_store = map;
        self.hist = Ghost(gh);
        Ok(())
    }
}

/// The capability interface of the persistent store: open it, then set, get
/// and remove string keys and values.
pub trait KvStore: Sized {
    /// The history of records the store has appended, oldest first.
    spec fn records(&self) -> Seq<RecordView>;

    /// The store's internal invariant.
    spec fn inv(&self) -> bool;

    /// Stores `value` under `key`: exactly one `Set` record is appended to
    /// the history, so that afterwards `key` maps to `value`.
    fn set(&mut self, key: String, value: String) -> (r: Result<(), KvsError>)
        requires
            old(self).inv(),
            key@.len() > 0,
        ensures
            final(self).inv(),
            r is Ok,
            final(self).records() == old(self).records().push(set_record(key@, value@)),
            kv_of(final(self).records()) == kv_of(old(self).records()).insert(key@, value@),
    ;

    /// Looks `key` up: `Some` of its current value when the key is live,
    /// `None` when it is absent — absence is success, not an error — and
    /// never an error or a panic.  Does not change the store.
    fn get(&mut self, key: String) -> (r: Result<Option<String>, KvsError>)
        requires
            old(self).inv(),
        ensures
            *final(self) == *old(self),
            match r {
                Ok(Some(v)) => kv_of(old(self).records()).contains_key(key@) && v@ == kv_of(
                    old(self).records(),
                )[key@],
                Ok(None) => !kv_of(old(self).records()).contains_key(key@),
                Err(_) => false,
            },
    ;

    /// Removes `key`: when the key is live, exactly one `Delete` record
    /// (tombstone) is appended and the key becomes absent; when it is not,
    /// fails with `KeyNotFound` and changes nothing.
    fn remove(&mut self, key: String) -> (r: Result<(), KvsError>)
        requires
            old(self).inv(),
        ensures
            final(self).inv(),
            match r {
                Ok(()) => kv_of(old(self).records()).contains_key(key@)
                    && final(self).records() == old(self).records().push(delete_record(key@))
                    && kv_of(final(self).records()) == kv_of(old(self).records()).remove(
                    key@),
                Err(e) => e == KvsError::KeyNotFound
                    && !kv_of(old(self).records()).contains_key(key@)
                    && *final(self) == *old(self),
            },
    ;

    /// A fresh, empty store over the default backing file.  The caller
    /// replays an existing file through
    /// [`KvStorePersist::load_database_from_logs`] before use.
    fn open() -> (r: Result<KvStorePersist, KvsError>)
        ensures
            match r {
                Ok(s) => s.wf() && s.history() == Seq::<RecordView>::empty() && s.log_view()
                    == Seq::<char>::empty() && s.path() == "db.db"@,
                Err(_) => false,
            },
    ;
}

impl KvStore for KvStorePersist {
    open spec fn records(&self) -> Seq<RecordView> {
        self.history()
    }

    open spec fn inv(&self) -> bool {
        self.wf()
    }

    fn set(&mut self, key: String, value: String) -> (r: Result<(), KvsError>) {
        let ghost h = self.history();
        let offset = self.log.len();
        let entry = Record { key: key.clone(), value: Some(value), op: Operation::Insert };
        proof {
            assert(entry@ == set_record(key@, entry.value->Some_0@));
        }
        self.save_entry_in_logs(entry);
        self.set_in_memory(key, offset);
        proof {
            let h2 = self.history();
            assert(h2.drop_last() =~= h);
            lemma_log_of_push(h, h2.last());
            assert(forall|i: int| 0 <= i < h2.len() ==> h2[i].wf());
        }
        Ok(())
    }

    fn get(&mut self, key: String) -> (r: Result<Option<String>, KvsError>) {
        proof {
            lemma_kv_replay(self.history());
        }
        let pos = match self.map_store.get(key.as_str()) {
            Some(pos) => *pos,
            None => {
                return Ok(None);
            },
        };
        proof {
            lemma_replay_points(self.history(), key@);
        }
        match self.get_entry_from_pos(pos) {
            Ok(rec) => {
                proof {
                    assert(rec@ == set_record(key@, replay(self.history())[key@].1));
                }
                match rec.value {
                    Some(v) => Ok(Some(v)),
                    None => {
                        proof {
                            assert(false);
                        }
                        Ok(None)
                    },
                }
            },
            Err(e) => {
                proof {
                    assert(false);
                }
                Err(e)
            },
        }
    }

    fn remove(&mut self, key: String) -> (r: Result<(), KvsError>) {
        proof {
            lemma_kv_replay(self.history());
        }
        if !self.map_store.contains_key(key.as_str()) {
            return Err(KvsError::KeyNotFound);
        }
        let ghost h = self.history();
        proof {
            lemma_replay_points(h, key@);
            crate::codec::lemma_decode_wf(
                crate::log::line_at(log_of(h), replay(h)[key@].0)->Some_0,
            );
            assert(key@.len() > 0);
        }
        let entry = Record { key: key.clone(), value: None, op: Operation::Delete };
        self.save_entry_in_logs(entry);
        self.rm_in_memory(key);
        proof {
            let h2 = self.history();
            assert(h2.drop_last() =~= h);
            lemma_log_of_push(h, h2.last());
            assert(forall|i: int| 0 <= i < h2.len() ==> h2[i].wf());
        }
        Ok(())
    }

    fn open() -> (r: Result<KvStorePersist, KvsError>) {
        Ok(KvStorePersist::new(String::from_str("db.db")))
    }
}

} // verus!
