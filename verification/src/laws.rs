//! The store's laws, stated and proved once and for all over the record
//! history model that the engine's contracts speak of.

use vstd::prelude::*;

use crate::engine::{kv_of, replay, KvStorePersist};
use crate::log::{lemma_parse_log_of, log_of, parse_log, wf_history};
use crate::record::{delete_record, set_record, RecordView};

verus! {

/// Recovery idempotence: two engines rebuilt from the same log contents
/// hold the same history, the same index, and the same key-value view.
pub proof fn lemma_recovery_idempotent(
    a: KvStorePersist,
    b: KvStorePersist,
    contents: Seq<char>,
)
    requires
        a.wf(),
        b.wf(),
        parse_log(contents) == Some(a.history()),
        parse_log(contents) == Some(b.history()),
    ensures
        a.history() == b.history(),
        a.index() == b.index(),
        a.kv() == b.kv(),
{
    assert(a.history() == b.history());
    assert forall|k: Seq<char>| #![auto]
        a.index().dom().contains(k) <==> b.index().dom().contains(k) by {
        assert(a.index().dom().contains(k) <==> replay(a.history()).dom().contains(k));
    }
    assert forall|k: Seq<char>| #![auto]
        a.index().dom().contains(k) implies a.index()[k] == b.index()[k] by {
        assert(a.index()[k] as int == replay(a.history())[k].0);
        assert(b.index()[k] as int == replay(b.history())[k].0);
    }
    assert(a.index() =~= b.index());
}

/// Set-then-get: after appending a `Set` record for `key`, the store maps
/// `key` to the new value; and the log after that append still parses back
/// to exactly the new history, so the same holds after a fresh open of the
/// same file.
pub proof fn lemma_set_then_get(h: Seq<RecordView>, key: Seq<char>, value: Seq<char>)
    requires
        wf_history(h),
        key.len() > 0,
    ensures
        kv_of(h.push(set_record(key, value))).contains_key(key),
        kv_of(h.push(set_record(key, value)))[key] == value,
        parse_log(log_of(h.push(set_record(key, value)))) == Some(
            h.push(set_record(key, value)),
        ),
{
    let h2 = h.push(set_record(key, value));
    assert(h2.drop_last() =~= h);
    assert(wf_history(h2)) by {
        assert(forall|i: int| 0 <= i < h.len() ==> h2[i] == h[i]);
    }
    lemma_parse_log_of(h2);
}

/// Overwrite: after two `Set` records for the same key, the store maps the
/// key to the second value.
pub proof fn lemma_overwrite(
    h: Seq<RecordView>,
    key: Seq<char>,
    v1: Seq<char>,
    v2: Seq<char>,
)
    ensures
        kv_of(h.push(set_record(key, v1)).push(set_record(key, v2))).contains_key(key),
        kv_of(h.push(set_record(key, v1)).push(set_record(key, v2)))[key] == v2,
{
    let h1 = h.push(set_record(key, v1));
    let h2 = h1.push(set_record(key, v2));
    assert(h2.drop_last() =~= h1);
    assert(h1.drop_last() =~= h);
}

/// Delete semantics: after appending a `Delete` record for `key`, the key
/// is absent — so a lookup yields `None`, and by `remove`'s contract a
/// subsequent remove of the same key fails with `KeyNotFound`.
pub proof fn lemma_delete_then_absent(h: Seq<RecordView>, key: Seq<char>)
    ensures
        !kv_of(h.push(delete_record(key))).contains_key(key),
{
    assert(h.push(delete_record(key)).drop_last() =~= h);
}

/// Missing key: a key that no record of the history ever names is absent,
/// so looking it up yields `None` — never an error.
pub proof fn lemma_never_set_absent(h: Seq<RecordView>, key: Seq<char>)
    requires
        forall|i: int| 0 <= i < h.len() ==> h[i].key != key,
    ensures
        !kv_of(h).contains_key(key),
    decreases h.len(),
{
    if h.len() > 0 {
        let hp = h.drop_last();
        assert(forall|i: int| 0 <= i < hp.len() ==> hp[i] == h[i]);
        lemma_never_set_absent(hp, key);
    }
}

/// Durability across restart: an engine whose history was recovered from
/// another engine's log holds exactly the other's history, and so the same
/// keys and values.
pub proof fn lemma_durability(e: KvStorePersist, f: KvStorePersist)
    requires
        e.wf(),
        f.wf(),
        parse_log(e.log_view()) == Some(f.history()),
    ensures
        f.history() == e.history(),
        f.kv() == e.kv(),
{
    lemma_parse_log_of(e.history());
}

} // verus!

