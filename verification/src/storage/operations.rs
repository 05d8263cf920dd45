//! The operations of the engine on the index, each within a transaction
//! that leaves a write record in the log where the index was changed.

use crate::index::insert::{grown, has_room};
use crate::index::layout::Entry;
use crate::index::order::{has_key, inserted, removed, replaced, sorted};
use crate::index::shape::{changed, lemma_small_layout, small};
use crate::index::tree::{BTree, pairs_view};
use crate::storage::buffer_pool::{all_clean, BufferPool};
use crate::storage::error::DatabaseError;
use crate::storage::transaction::Transaction;
use crate::storage::value::{sum, Value, ValueView};
use crate::storage::wal::{LogRecord, RecordView, WriteAheadLog};
use vstd::prelude::*;
use vstd::string::*;
use vstd::utf8::*;

verus! {

/// The write record that a change of the index leaves in the log: the
/// transaction, the root page of the index, and the bytes of the new value,
/// or no bytes where an entry was taken out.
pub open spec fn write_record(txn: Transaction, root: u32, data: Seq<u8>) -> RecordView {
    RecordView::Write { txn_id: txn.spec_id().0, page_id: root, offset: 0, data }
}

/// Writes the write record of a change to the log.
fn log_write(txn: &Transaction, btree: &BTree, wal: &mut WriteAheadLog, data: Vec<u8>) -> (res:
    Result<(), DatabaseError>)
    requires
        data@.len() <= u32::MAX,
    ensures
        old(wal)@.sequence < u64::MAX ==> res is Ok && final(wal)@ == old(wal)@.logged(
            write_record(*txn, btree.root(), data@),
        ),
        old(wal)@.sequence == u64::MAX ==> res is Err && final(wal)@ == old(wal)@,
{
    wal.log(
        LogRecord::Write { txn_id: txn.id().0, page_id: btree.root_page_id(), offset: 0, data },
    )
}

/// Puts an entry into the index, and leaves a write record with the bytes
/// of the value in the log.
pub fn insert(
    txn: &mut Transaction,
    btree: &mut BTree,
    pool: &mut BufferPool,
    wal: &mut WriteAheadLog,
    key: i32,
    value: &Value,
) -> (res: Result<(), DatabaseError>)
    ensures
        *final(txn) == *old(txn),
        final(pool)@.capacity == old(pool)@.capacity,
        old(btree).wf(old(pool)@) ==> {
            &&& final(btree).wf(final(pool)@)
            &&& all_clean(old(pool)@) ==> all_clean(final(pool)@)
            &&& grown(
                old(pool)@,
                final(pool)@,
                old(btree).root(),
                old(btree).height(),
                final(btree).root(),
                final(btree).height(),
                res is Ok,
            )
            &&& final(pool)@.pages.len() <= old(pool)@.pages.len() + (final(pool)@.disk.next_page_id
                - old(pool)@.disk.next_page_id)
            &&& res is Ok ==> inserted(
                old(btree).entries(old(pool)@),
                final(btree).entries(final(pool)@),
                (key, value@),
            ) && final(wal)@ == old(wal)@.logged(
                write_record(*old(txn), final(btree).root(), value@.encode()),
            )
            &&& res is Err ==> final(wal)@ == old(wal)@ && (final(btree).entries(final(pool)@)
                == old(btree).entries(old(pool)@) || old(wal)@.sequence == u64::MAX)
            &&& small((key, value@)) && has_room(old(pool)@, old(btree).height() + 3) && old(btree).height() < usize::MAX && old(wal)@.sequence < u64::MAX ==> res is Ok
        },
{
    match btree.insert(key, value.clone(), pool) {
        Ok(()) => {
            proof {
                lemma_small_layout((key, value@));
            }
            log_write(txn, btree, wal, value.serialize())
        },
        Err(e) => Err(e),
    }
}

/// Takes an entry with the key out of the index, if there is one, and
/// leaves a write record without bytes in the log.
pub fn delete(
    txn: &mut Transaction,
    btree: &mut BTree,
    pool: &mut BufferPool,
    wal: &mut WriteAheadLog,
    key: i32,
) -> (res: Result<(), DatabaseError>)
    ensures
        *final(txn) == *old(txn),
        final(pool)@.capacity == old(pool)@.capacity,
        old(btree).wf(old(pool)@) ==> {
            &&& final(btree).wf(final(pool)@)
            &&& all_clean(old(pool)@) ==> all_clean(final(pool)@)
            &&& removed(old(btree).entries(old(pool)@), final(btree).entries(final(pool)@), key)
            &&& old(wal)@.sequence < u64::MAX ==> res is Ok && final(wal)@ == old(wal)@.logged(
                write_record(*old(txn), final(btree).root(), Seq::empty()),
            )
            &&& old(wal)@.sequence == u64::MAX ==> res is Err && final(wal)@ == old(wal)@
        },
{
    match btree.delete(key, pool) {
        Ok(()) => log_write(txn, btree, wal, Vec::new()),
        Err(e) => Err(e),
    }
}

/// The value stored against the key, if there is one.
pub fn get(btree: &BTree, pool: &mut BufferPool, key: i32) -> (res: Result<
    Option<Value>,
    DatabaseError,
>)
    ensures
        final(pool)@.capacity == old(pool)@.capacity,
        final(pool)@.disk == old(pool)@.disk,
        btree.wf(old(pool)@) ==> {
            &&& final(pool)@ == old(pool)@
            &&& res matches Ok(found)
            &&& match found {
                Some(value) => btree.entries(old(pool)@).contains((key, value@)),
                None => !has_key(btree.entries(old(pool)@), key),
            }
        },
{
    btree.search(key, pool)
}

/// Puts `value` in the place of what is stored against `key`, and leaves a
/// write record with the bytes of the value in the log. Where the new entry
/// cannot be put in, the old one stays out.
pub fn update(
    txn: &mut Transaction,
    btree: &mut BTree,
    pool: &mut BufferPool,
    wal: &mut WriteAheadLog,
    key: i32,
    value: &Value,
) -> (res: Result<(), DatabaseError>)
    ensures
        *final(txn) == *old(txn),
        final(pool)@.capacity == old(pool)@.capacity,
        old(btree).wf(old(pool)@) ==> {
            &&& final(btree).wf(final(pool)@)
            &&& all_clean(old(pool)@) ==> all_clean(final(pool)@)
            &&& res is Ok ==> replaced(
                old(btree).entries(old(pool)@),
                final(btree).entries(final(pool)@),
                (key, value@),
            ) && final(wal)@ == old(wal)@.logged(
                write_record(*old(txn), final(btree).root(), value@.encode()),
            )
            &&& res is Err ==> final(wal)@ == old(wal)@ && (removed(
                old(btree).entries(old(pool)@),
                final(btree).entries(final(pool)@),
                key,
            ) || old(wal)@.sequence == u64::MAX)
            &&& small((key, value@)) && has_room(old(pool)@, old(btree).height() + 3) && old(btree).height() < usize::MAX && old(wal)@.sequence < u64::MAX ==> res is Ok
        },
{
    match btree.update(key, value.clone(), pool) {
        Ok(()) => {
            proof {
                lemma_small_layout((key, value@));
            }
            log_write(txn, btree, wal, value.serialize())
        },
        Err(e) => Err(e),
    }
}

/// All that the index holds, in key order.
pub fn all(btree: &BTree, pool: &mut BufferPool) -> (res: Result<Vec<(i32, Value)>, DatabaseError>)
    ensures
        final(pool)@.capacity == old(pool)@.capacity,
        final(pool)@.disk == old(pool)@.disk,
        btree.wf(old(pool)@) ==> {
            &&& final(pool)@ == old(pool)@
            &&& res matches Ok(pairs)
            &&& pairs_view(pairs@) == btree.entries(old(pool)@)
            &&& sorted(pairs_view(pairs@))
        },
{
    btree.all(pool)
}

/// Whether the entries hold `value` against `key`.
pub open spec fn held(entries: Seq<Entry>, key: i32, value: ValueView) -> bool {
    entries.contains((key, value))
}

/// Whether the entries hold the string `s` against `key`.
pub open spec fn held_string(entries: Seq<Entry>, key: i32, s: Seq<char>) -> bool {
    entries.contains((key, ValueView::String(s)))
}

/// Whether `res` is what the length of the string stored against `key` is
/// asked for gives: the length of a string that the entries hold against
/// the key; `KeyNotFound` where they hold nothing against it; and
/// `InvalidOperation` where they hold a value that is no string.
pub open spec fn length_outcome(
    entries: Seq<Entry>,
    key: i32,
    res: Result<Option<usize>, DatabaseError>,
) -> bool {
    match res {
        Ok(Some(n)) => exists|s: Seq<char>|
            #[trigger] held_string(entries, key, s) && n == encode_utf8(s).len(),
        Ok(None) => false,
        Err(DatabaseError::KeyNotFound(k)) => k == key && !has_key(entries, key),
        Err(DatabaseError::InvalidOperation(_)) => exists|v: ValueView|
            #[trigger] held(entries, key, v) && !(v is String),
        Err(_) => false,
    }
}

/// Whether every value that the entries hold against `key` has a sum with
/// `value` that is small enough for the index.
pub open spec fn joinable(entries: Seq<Entry>, key: i32, value: ValueView) -> bool {
    forall|v: ValueView| #[trigger]
        held(entries, key, v) ==> sum(v, value) is Some && small((key, sum(v, value).unwrap()))
}

/// Whether no value that the entries hold against `key` has a sum with
/// `value`.
pub open spec fn unjoinable(entries: Seq<Entry>, key: i32, value: ValueView) -> bool {
    forall|v: ValueView| #[trigger] held(entries, key, v) ==> sum(v, value) is None
}

/// Whether every value that the entries hold against `key` is a string.
pub open spec fn only_strings(entries: Seq<Entry>, key: i32) -> bool {
    forall|v: ValueView| #[trigger] held(entries, key, v) ==> v is String
}

/// Whether no value that the entries hold against `key` is a string.
pub open spec fn no_strings(entries: Seq<Entry>, key: i32) -> bool {
    forall|v: ValueView| #[trigger] held(entries, key, v) ==> !(v is String)
}

/// Whether `after` is `before` with `joined`, the sum of a value held
/// against `key` and `value`, in the place of that value.
pub open spec fn joined_to(
    before: Seq<Entry>,
    after: Seq<Entry>,
    key: i32,
    value: ValueView,
    joined: ValueView,
) -> bool {
    &&& exists|stored: ValueView| #[trigger]
        held(before, key, stored) && sum(stored, value) == Some(joined)
    &&& replaced(before, after, (key, joined))
}

/// Whether `after` is `before` with a part of the string `s`, which is
/// held against `key`, in the place of the string.
pub open spec fn cut_to(
    before: Seq<Entry>,
    after: Seq<Entry>,
    key: i32,
    s: Seq<char>,
    start: int,
    length: int,
) -> bool {
    &&& held_string(before, key, s)
    &&& replaced(before, after, (key, ValueView::String(byte_slice(s, start, length))))
}

/// The part of a string from the byte offset `start` on that is `length`
/// bytes long; the empty string where the string has no such part, or where
/// the part does not begin and end between two characters.
pub open spec fn byte_slice(s: Seq<char>, start: int, length: int) -> Seq<char> {
    let bytes = encode_utf8(s);
    let end = start + length;
    if 0 <= start <= end <= bytes.len() && is_char_boundary(bytes, start) && is_char_boundary(
        bytes,
        end,
    ) {
        decode_utf8(bytes.subrange(start, end))
    } else {
        Seq::empty()
    }
}

/// The part of a string from the byte offset `start` on that is `length`
/// bytes long.
pub fn slice_string(s: &String, start: usize, length: usize) -> (part: String)
    ensures
        part@ == byte_slice(s@, start as int, length as int),
        encode_utf8(part@).len() <= encode_utf8(s@).len(),
{
    broadcast use {
        encode_utf8_valid_utf8,
        valid_utf8_split,
        is_char_boundary_start_end_of_seq,
        is_char_boundary_iff_not_is_continuation_byte,
    };

    let text = s.as_str();
    let len = text.as_bytes().len();
    if length > len || start > len - length {
        return String::new();
    }
    let end = start + length;
    if !text.is_char_boundary(start) || !text.is_char_boundary(end) {
        return String::new();
    }
    let ghost bytes = encode_utf8(s@);
    let (head, _) = text.split_at(end);
    proof {
        let front = bytes.subrange(0, end as int);
        assert(head.spec_bytes() == front);
        encode_utf8_valid_utf8(s@);
        valid_utf8_split(bytes, end as int);
        if start < end {
            assert(front[start as int] == bytes[start as int]);
            is_char_boundary_iff_not_is_continuation_byte(bytes, start as int);
            is_char_boundary_iff_not_is_continuation_byte(front, start as int);
        } else {
            is_char_boundary_start_end_of_seq(front);
        }
        assert(is_char_boundary(front, start as int));
    }
    let (_, part) = head.split_at(start);
    proof {
        assert(part.spec_bytes() =~= bytes.subrange(start as int, end as int));
        encode_utf8_decode_utf8(part@);
    }
    String::from_str(part)
}

/// The length in bytes of the string stored against the key.
pub fn strlen(btree: &BTree, pool: &mut BufferPool, key: i32) -> (res: Result<
    Option<usize>,
    DatabaseError,
>)
    ensures
        final(pool)@.capacity == old(pool)@.capacity,
        final(pool)@.disk == old(pool)@.disk,
        btree.wf(old(pool)@) ==> {
            &&& final(pool)@ == old(pool)@
            &&& length_outcome(btree.entries(old(pool)@), key, res)
        },
{
    match btree.search(key, pool) {
        Ok(Some(Value::String(s))) => {
            assert(btree.wf(old(pool)@) ==> held_string(btree.entries(old(pool)@), key, s@));
            Ok(Some(s.as_str().as_bytes().len()))
        },
        Ok(Some(other)) => {
            assert(btree.wf(old(pool)@) ==> held(btree.entries(old(pool)@), key, other@) && !(
            other@ is String));
            Err(DatabaseError::InvalidOperation(String::from_str("Value is not a string")))
        },
        _ => Err(DatabaseError::KeyNotFound(key)),
    }
}

/// Puts the sum of what is stored against the key and `value` in its
/// place: for two strings, the one with the other behind it.
pub fn strcat(
    txn: &mut Transaction,
    btree: &mut BTree,
    pool: &mut BufferPool,
    wal: &mut WriteAheadLog,
    key: i32,
    value: &Value,
) -> (res: Result<(), DatabaseError>)
    ensures
        *final(txn) == *old(txn),
        final(pool)@.capacity == old(pool)@.capacity,
        old(btree).wf(old(pool)@) ==> {
            &&& final(btree).wf(final(pool)@)
            &&& all_clean(old(pool)@) ==> all_clean(final(pool)@)
            &&& res is Ok ==> exists|joined: ValueView|
                #[trigger] joined_to(
                    old(btree).entries(old(pool)@),
                    final(btree).entries(final(pool)@),
                    key,
                    value@,
                    joined,
                ) && final(wal)@ == old(wal)@.logged(
                    write_record(*old(txn), final(btree).root(), joined.encode()),
                )
            &&& !has_key(old(btree).entries(old(pool)@), key) ==> (res matches Err(
                DatabaseError::KeyNotFound(_),
            )) && final(btree).entries(final(pool)@) == old(btree).entries(old(pool)@)
                && final(wal)@ == old(wal)@
            &&& has_key(old(btree).entries(old(pool)@), key) && unjoinable(
                old(btree).entries(old(pool)@),
                key,
                value@,
            ) ==> (res matches Err(DatabaseError::InvalidOperation(_))) && final(btree).entries(
                final(pool)@,
            ) == old(btree).entries(old(pool)@)
            &&& res is Err ==> final(wal)@ == old(wal)@
            &&& has_key(old(btree).entries(old(pool)@), key) && joinable(
                old(btree).entries(old(pool)@),
                key,
                value@,
            ) && has_room(old(pool)@, old(btree).height() + 3) && old(btree).height() < usize::MAX
                && old(wal)@.sequence < u64::MAX ==> res is Ok
        },
{
    let ghost before = btree.entries(pool@);
    match btree.search(key, pool) {
        Ok(Some(stored)) => {
            assert(old(btree).wf(old(pool)@) ==> held(before, key, stored@));
            let joined = stored.add(value)?;
            let res = update(txn, btree, pool, wal, key, &joined);
            proof {
                if old(btree).wf(old(pool)@) && res is Ok {
                    assert(held(before, key, stored@) && sum(stored@, value@) == Some(joined@));
                    assert(joined_to(before, btree.entries(pool@), key, value@, joined@));
                }
            }
            res
        },
        _ => Err(DatabaseError::KeyNotFound(key)),
    }
}

/// Puts a part of the string stored against the key in its place: the
/// part from the byte offset `start` on that is `length` bytes long, or the
/// empty string where there is no such part.
pub fn substr(
    txn: &mut Transaction,
    btree: &mut BTree,
    pool: &mut BufferPool,
    wal: &mut WriteAheadLog,
    key: i32,
    start: usize,
    length: usize,
) -> (res: Result<(), DatabaseError>)
    ensures
        *final(txn) == *old(txn),
        final(pool)@.capacity == old(pool)@.capacity,
        old(btree).wf(old(pool)@) ==> {
            &&& final(btree).wf(final(pool)@)
            &&& all_clean(old(pool)@) ==> all_clean(final(pool)@)
            &&& res is Ok ==> exists|s: Seq<char>|
                #[trigger] cut_to(
                    old(btree).entries(old(pool)@),
                    final(btree).entries(final(pool)@),
                    key,
                    s,
                    start as int,
                    length as int,
                ) && final(wal)@ == old(wal)@.logged(
                    write_record(
                        *old(txn),
                        final(btree).root(),
                        ValueView::String(byte_slice(s, start as int, length as int)).encode(),
                    ),
                )
            &&& !has_key(old(btree).entries(old(pool)@), key) ==> (res matches Err(
                DatabaseError::KeyNotFound(_),
            )) && final(btree).entries(final(pool)@) == old(btree).entries(old(pool)@)
                && final(wal)@ == old(wal)@
            &&& has_key(old(btree).entries(old(pool)@), key) && no_strings(
                old(btree).entries(old(pool)@),
                key,
            ) ==> (res matches Err(DatabaseError::InvalidOperation(_))) && final(btree).entries(
                final(pool)@,
            ) == old(btree).entries(old(pool)@)
            &&& res is Err ==> final(wal)@ == old(wal)@
            &&& has_key(old(btree).entries(old(pool)@), key) && only_strings(
                old(btree).entries(old(pool)@),
                key,
            ) && has_room(old(pool)@, old(btree).height() + 3) && old(btree).height() < usize::MAX
                && old(wal)@.sequence < u64::MAX ==> res is Ok
        },
{
    let ghost before = btree.entries(pool@);
    match btree.search(key, pool) {
        Ok(Some(Value::String(s))) => {
            assert(old(btree).wf(old(pool)@) ==> held(before, key, ValueView::String(s@)));
            let part = Value::String(slice_string(&s, start, length));
            assert(small((key, ValueView::String(s@))) ==> small((key, part@)));
            let res = update(txn, btree, pool, wal, key, &part);
            proof {
                if old(btree).wf(old(pool)@) && res is Ok {
                    assert(cut_to(
                        before,
                        btree.entries(pool@),
                        key,
                        s@,
                        start as int,
                        length as int,
                    ));
                }
            }
            res
        },
        Ok(Some(other)) => {
            assert(old(btree).wf(old(pool)@) ==> held(before, key, other@));
            Err(DatabaseError::InvalidOperation(String::from_str("Value is not a string")))
        },
        _ => Err(DatabaseError::KeyNotFound(key)),
    }
}

} // verus!
