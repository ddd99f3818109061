//! The compaction state tracker: an offset cursor recording the last
//! processed position in the file-list stream, and a tombstone set of
//! identifiers pending physical deletion.  Both live in the injected
//! key-value store under a fixed key namespace; the tracker holds no state
//! of its own.

use vstd::prelude::*;
use vstd::string::StrSliceExecFns;
use vstd::string::StringExecFns;

use crate::decimal::dec_int;
use crate::decimal::lemma_dec_int_round_trip;
use crate::decimal::parse_i64;
use crate::decimal::parse_i64_spec;
use crate::decimal::render_i64;
use crate::store::KvStore;
use crate::store::StoreError;

verus! {

/// The fixed key of the offset cursor.
pub open spec fn offset_key() -> Seq<char> {
    "/compact/file_list/offset"@
}

/// The shared prefix under which each tombstone is its own key.
pub open spec fn delete_prefix() -> Seq<char> {
    "/compact/file_list/delete/"@
}

/// The key recording that `id` is marked for deferred deletion.
pub open spec fn delete_key(id: Seq<char>) -> Seq<char> {
    delete_prefix() + id
}

/// The sentinel written under a tombstone key; it carries no meaning and is
/// ignored on read.
pub open spec fn marker_value() -> Seq<char> {
    "OK"@
}

/// A tracker failure.  The offset key holding a value that is no integer is
/// corrupted state and surfaces as its own kind, never coerced to a
/// default; any store failure other than the two tolerated not-found cases
/// is passed through unchanged.
#[derive(Clone, Copy, PartialEq, Eq, Structural, Debug)]
pub enum TrackError {
    DecodeFailure,
    Store(StoreError),
}

/// What the stored offset state decodes to: an absent key is the defined
/// default of zero, a malformed or out-of-range value is `None`.
pub open spec fn stored_offset(m: Map<Seq<char>, Seq<char>>) -> Option<i64> {
    if m.contains_key(offset_key()) {
        parse_i64_spec(m[offset_key()])
    } else {
        Some(0i64)
    }
}

/// Reads the offset cursor.  An absent key is zero, not an error; a value
/// that does not decode is a distinct decode failure.
pub fn get_offset(db: &KvStore) -> (r: Result<i64, TrackError>)
    requires
        db.wf(),
    ensures
        match r {
            Ok(v) => stored_offset(db@) == Some(v),
            Err(e) => e == TrackError::DecodeFailure && stored_offset(db@) is None,
        },
        !db@.contains_key(offset_key()) ==> r == Ok::<i64, TrackError>(0i64),
{
    match db.get("/compact/file_list/offset") {
        Ok(value) => match parse_i64(value.as_str()) {
            Some(v) => Ok(v),
            None => Err(TrackError::DecodeFailure),
        },
        Err(StoreError::NotFound) => Ok(0),
        Err(e) => Err(TrackError::Store(e)),
    }
}

/// Writes the offset cursor as decimal text, overwriting any prior value.
pub fn set_offset(db: &mut KvStore, offset: i64) -> (r: Result<(), TrackError>)
    requires
        old(db).wf(),
    ensures
        final(db).wf(),
        final(db)@ == old(db)@.insert(offset_key(), dec_int(offset as int)),
        r is Ok,
{
    let value = render_i64(offset);
    db.put("/compact/file_list/offset", value.as_str());
    Ok(())
}

/// The full store key of one tombstone identifier.
fn tombstone_key(id: &str) -> (r: String)
    ensures
        r@ == delete_key(id@),
{
    String::from_str("/compact/file_list/delete/").concat(id)
}

/// Marks `key` for deferred deletion.  Marking an already marked
/// identifier overwrites the same store key: a no-op in effect.
pub fn set_delete(db: &mut KvStore, key: &str) -> (r: Result<(), TrackError>)
    requires
        old(db).wf(),
    ensures
        final(db).wf(),
        final(db)@ == old(db)@.insert(delete_key(key@), marker_value()),
        r is Ok,
{
    let k = tombstone_key(key);
    db.put(k.as_str(), "OK");
    Ok(())
}

/// Clears the tombstone of `key`.  An identifier that was never marked is
/// success, not an error: the store's not-found kind is detected and
/// swallowed here, and only here.
pub fn del_delete(db: &mut KvStore, key: &str) -> (r: Result<(), TrackError>)
    requires
        old(db).wf(),
    ensures
        final(db).wf(),
        final(db)@ == old(db)@.remove(delete_key(key@)),
        r is Ok,
{
    let k = tombstone_key(key);
    match db.delete(k.as_str()) {
        Ok(()) => Ok(()),
        Err(StoreError::NotFound) => {
            proof {
                assert(db@ =~= db@.remove(delete_key(key@)));
            }
            Ok(())
        },
        Err(e) => Err(TrackError::Store(e)),
    }
}

/// A key under the tombstone prefix splits back into prefix and identifier.
proof fn lemma_split_key(k: Seq<char>)
    requires
        delete_prefix().is_prefix_of(k),
    ensures
        delete_key(k.subrange(delete_prefix().len() as int, k.len() as int)) == k,
{
    assert(delete_key(k.subrange(delete_prefix().len() as int, k.len() as int)) =~= k);
}

/// Law: distinct identifiers are stored under distinct keys.
pub proof fn lemma_delete_key_injective(a: Seq<char>, b: Seq<char>)
    requires
        delete_key(a) == delete_key(b),
    ensures
        a == b,
{
    let p = delete_prefix();
    assert(delete_key(a).len() == delete_key(b).len());
    assert((p + a).len() == p.len() + a.len());
    assert((p + b).len() == p.len() + b.len());
    assert(a.len() == b.len());
    assert forall|i: int| 0 <= i < a.len() implies a[i] == b[i] by {
        assert(delete_key(a)[p.len() + i] == a[i]);
        assert(delete_key(b)[p.len() + i] == b[i]);
    }
    assert(a =~= b);
}

/// `ids` is exactly the set of marked identifiers of `m`, each once.
pub open spec fn lists_tombstones(m: Map<Seq<char>, Seq<char>>, ids: Seq<String>) -> bool {
    &&& forall|a: int| 0 <= a < ids.len() ==> m.contains_key(delete_key(#[trigger] ids[a]@))
    &&& forall|id: Seq<char>|
        m.contains_key(#[trigger] delete_key(id)) ==> exists|a: int|
            0 <= a < ids.len() && ids[a]@ == id
    &&& forall|a: int, b: int| 0 <= a < b < ids.len() ==> ids[a]@ != ids[b]@
}

/// Enumerates the pending identifiers: the suffixes of every key under the
/// tombstone prefix.  Exactly the marked identifiers come back, each once;
/// their order carries no meaning.
#[verifier::rlimit(50)]
pub fn list_delete(db: &KvStore) -> (r: Result<Vec<String>, TrackError>)
    requires
        db.wf(),
    ensures
        r is Ok,
        r matches Ok(ids) ==> lists_tombstones(db@, ids@),
{
    let prefix = "/compact/file_list/delete/";
    let pairs = db.list_prefix(prefix);
    let plen = prefix.unicode_len();
    let n = pairs.len();
    let mut ids: Vec<String> = Vec::new();
    let mut i: usize = 0;
    while i < n
        invariant
            i <= n,
            n == pairs@.len(),
            plen == delete_prefix().len(),
            ids@.len() == i,
            forall|a: int|
                0 <= a < n ==> delete_prefix().is_prefix_of(#[trigger] pairs@[a].0@),
            forall|a: int|
                0 <= a < i ==> #[trigger] ids@[a]@ == pairs@[a].0@.subrange(
                    plen as int,
                    pairs@[a].0@.len() as int,
                ),
        decreases n - i,
    {
        let key_len = pairs[i].0.as_str().unicode_len();
        let suffix = pairs[i].0.as_str().substring_char(plen, key_len);
        ids.push(String::from_str(suffix));
        i = i + 1;
    }
    proof {
        assert forall|a: int|
            0 <= a < ids@.len() implies db@.contains_key(
            delete_key(#[trigger] ids@[a]@),
        ) by {
            lemma_split_key(pairs@[a].0@);
        }
        assert forall|id: Seq<char>|
            db@.contains_key(#[trigger] delete_key(id)) implies exists|a: int|
            0 <= a < ids@.len() && ids@[a]@ == id by {
            assert(delete_key(id).subrange(plen as int, delete_key(id).len() as int) =~= id);
            assert(delete_prefix().is_prefix_of(delete_key(id))) by {
                assert(delete_key(id).subrange(0, plen as int) =~= delete_prefix());
            }
            let a = choose|a: int| 0 <= a < pairs@.len() && pairs@[a].0@ == delete_key(id);
            assert(ids@[a]@ == id);
        }
        assert forall|a: int, b: int| 0 <= a < b < ids@.len() implies ids@[a]@ != ids@[b]@ by {
            lemma_split_key(pairs@[a].0@);
            lemma_split_key(pairs@[b].0@);
            if ids@[a]@ == ids@[b]@ {
                assert(pairs@[a].0@ == delete_key(ids@[a]@));
                assert(pairs@[b].0@ == delete_key(ids@[b]@));
            }
        }
    }
    proof {
        assert(lists_tombstones(db@, ids@));
    }
    Ok(ids)
}

/// Law: writing an offset and then reading the offset state back yields
/// exactly the value written, for every `i64`.
pub proof fn lemma_offset_round_trip(m: Map<Seq<char>, Seq<char>>, v: i64)
    ensures
        stored_offset(m.insert(offset_key(), dec_int(v as int))) == Some(v),
{
    lemma_dec_int_round_trip(v as int);
}

/// Law: marking an identifier twice leaves the same state as marking it
/// once, so a later enumeration holds it exactly once.
pub proof fn lemma_mark_idempotent(m: Map<Seq<char>, Seq<char>>, id: Seq<char>)
    ensures
        m.insert(delete_key(id), marker_value()).insert(delete_key(id), marker_value())
            == m.insert(delete_key(id), marker_value()),
{
    assert(m.insert(delete_key(id), marker_value()).insert(delete_key(id), marker_value())
        =~= m.insert(delete_key(id), marker_value()));
}

/// Law: marking and then unmarking an identifier removes it entirely,
/// whatever the prior state held for it.
pub proof fn lemma_mark_then_unmark(m: Map<Seq<char>, Seq<char>>, id: Seq<char>)
    ensures
        !m.insert(delete_key(id), marker_value()).remove(delete_key(id)).contains_key(
            delete_key(id),
        ),
        m.insert(delete_key(id), marker_value()).remove(delete_key(id)) == m.remove(
            delete_key(id),
        ),
{
    assert(m.insert(delete_key(id), marker_value()).remove(delete_key(id)) =~= m.remove(
        delete_key(id),
    ));
}

/// Law: unmarking an identifier that was never marked changes nothing; the
/// operation itself reports success.
pub proof fn lemma_unmark_absent(m: Map<Seq<char>, Seq<char>>, id: Seq<char>)
    requires
        !m.contains_key(delete_key(id)),
    ensures
        m.remove(delete_key(id)) == m,
{
    assert(m.remove(delete_key(id)) =~= m);
}

/// Law: marking two distinct identifiers and unmarking the first leaves
/// exactly the second marked, and touches no other identifier.
pub proof fn lemma_tombstones_disjoint(m: Map<Seq<char>, Seq<char>>, a: Seq<char>, b: Seq<char>)
    requires
        a != b,
    ensures
        ({
            let m2 = m.insert(delete_key(a), marker_value()).insert(
                delete_key(b),
                marker_value(),
            ).remove(delete_key(a));
            &&& m2.contains_key(delete_key(b))
            &&& !m2.contains_key(delete_key(a))
            &&& forall|c: Seq<char>|
                c != a && c != b ==> m2.contains_key(#[trigger] delete_key(c))
                    == m.contains_key(delete_key(c))
        }),
{
    if delete_key(a) == delete_key(b) {
        lemma_delete_key_injective(a, b);
    }
    assert forall|c: Seq<char>| c != a && c != b implies m.insert(delete_key(a), marker_value())
        .insert(delete_key(b), marker_value()).remove(delete_key(a)).contains_key(
        #[trigger] delete_key(c),
    ) == m.contains_key(delete_key(c)) by {
        if delete_key(c) == delete_key(a) {
            lemma_delete_key_injective(c, a);
        }
        if delete_key(c) == delete_key(b) {
            lemma_delete_key_injective(c, b);
        }
    }
}

} // verus!
