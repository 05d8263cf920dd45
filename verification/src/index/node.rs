//! A B-tree node in memory, and its reading and writing as bytes.

use crate::bytes::{get_i32, get_u16, get_u32, put_i32, put_u16, put_u32};
use crate::index::layout::{
    decode_entries, decode_entry, encode_children, encode_entries, Entry,
    lemma_encode_children_push, lemma_encode_entries_push, NodeView,
};
use crate::storage::error::DatabaseError;
use crate::storage::value::Value;
use vstd::prelude::*;
use vstd::slice::*;
use vstd::string::*;

verus! {

/// The most children that a node has.
pub const ORDER: usize = 4;

/// The most entries that a node has.
pub const MAX_KEYS: usize = 3;

/// The fewest entries that a node other than the root has.
pub const MIN_KEYS: usize = 1;

/// A key and the value stored against it.
#[derive(Debug)]
pub struct KeyValue {
    pub key: i32,
    pub value: Value,
}

impl View for KeyValue {
    type V = Entry;

    open spec fn view(&self) -> Entry {
        (self.key, self.value@)
    }
}

impl Clone for KeyValue {
    fn clone(&self) -> (res: Self)
        ensures
            res == *self,
    {
        Self { key: self.key, value: self.value.clone() }
    }
}

/// A node of the tree: its entries in ascending order of their keys and,
/// unless it is a leaf, the page ids of its children.
#[derive(Debug)]
pub struct BTreeNode {
    pub page_id: u32,
    pub is_leaf: bool,
    pub entries: Vec<KeyValue>,
    pub children: Vec<u32>,
}

impl View for BTreeNode {
    type V = NodeView;

    open spec fn view(&self) -> NodeView {
        NodeView {
            page_id: self.page_id,
            is_leaf: self.is_leaf,
            entries: self.entries@.map_values(|e: KeyValue| e@),
            children: self.children@,
        }
    }
}

/// The first index from `from` on whose entry has a key of at least `key`
/// or, if `strict`, above `key`; the number of entries where there is none.
pub open spec fn first_from(entries: Seq<Entry>, key: i32, strict: bool, from: int) -> int
    decreases entries.len() - from,
{
    if from < 0 || from >= entries.len() {
        entries.len() as int
    } else if (strict && entries[from].0 > key) || (!strict && entries[from].0 >= key) {
        from
    } else {
        first_from(entries, key, strict, from + 1)
    }
}

/// The index of the first entry whose key is `key` or more.
pub open spec fn lower_bound(entries: Seq<Entry>, key: i32) -> int {
    first_from(entries, key, false, 0)
}

/// The index of the first entry whose key is more than `key`.
pub open spec fn upper_bound(entries: Seq<Entry>, key: i32) -> int {
    first_from(entries, key, true, 0)
}

/// What `first_from` finds: an index from `from` to the number of entries,
/// with no entry of the kind looked for before it, and one at it unless it
/// is the number of entries.
pub proof fn lemma_first_from(entries: Seq<Entry>, key: i32, strict: bool, from: int)
    requires
        0 <= from <= entries.len(),
    ensures
        from <= first_from(entries, key, strict, from) <= entries.len(),
        forall|j: int|
            from <= j < first_from(entries, key, strict, from) ==> if strict {
                (#[trigger] entries[j]).0 <= key
            } else {
                entries[j].0 < key
            },
        first_from(entries, key, strict, from) < entries.len() ==> if strict {
            entries[first_from(entries, key, strict, from)].0 > key
        } else {
            entries[first_from(entries, key, strict, from)].0 >= key
        },
    decreases entries.len() - from,
{
    if from < entries.len() && !((strict && entries[from].0 > key) || (!strict && entries[from].0
        >= key)) {
        lemma_first_from(entries, key, strict, from + 1);
    }
}

impl BTreeNode {
    /// A node without entries and children.
    pub fn new(page_id: u32, is_leaf: bool) -> (node: Self)
        ensures
            node@ == (NodeView {
                page_id,
                is_leaf,
                entries: Seq::<Entry>::empty(),
                children: Seq::<u32>::empty(),
            }),
    {
        let node = Self {
            page_id,
            is_leaf,
            entries: Vec::with_capacity(MAX_KEYS),
            children: Vec::with_capacity(ORDER),
        };
        assert(node@.entries =~= Seq::<Entry>::empty());
        node
    }

    /// The index of the first entry whose key is `key` or more, or above
    /// `key` if `strict`.
    pub fn find(&self, key: i32, strict: bool) -> (idx: usize)
        ensures
            idx == first_from(self@.entries, key, strict, 0),
            idx <= self.entries@.len(),
    {
        let mut idx: usize = 0;
        while idx < self.entries.len() && ((strict && self.entries[idx].key <= key) || (!strict
            && self.entries[idx].key < key))
            invariant
                idx <= self.entries@.len(),
                first_from(self@.entries, key, strict, 0) == first_from(
                    self@.entries,
                    key,
                    strict,
                    idx as int,
                ),
            decreases self.entries@.len() - idx,
        {
            idx += 1;
        }
        idx
    }

    /// The value of the first entry with the key, if the node holds one.
    pub fn search(&self, key: i32) -> (res: Result<Option<Value>, DatabaseError>)
        ensures
            res matches Ok(found) && ({
                let idx = lower_bound(self@.entries, key);
                if idx < self@.entries.len() && self@.entries[idx].0 == key {
                    found matches Some(value) && value@ == self@.entries[idx].1
                } else {
                    found is None
                }
            }),
    {
        let idx = self.find(key, false);
        if idx < self.entries.len() && key == self.entries[idx].key {
            Ok(Some(self.entries[idx].value.clone()))
        } else {
            Ok(None)
        }
    }

    /// Puts the entry into a leaf, before the first entry with a greater
    /// key. An internal node stays as it is.
    pub fn insert_non_full(&mut self, key: i32, value: Value) -> (res: Result<(), DatabaseError>)
        ensures
            res is Ok,
            final(self)@ == if old(self).is_leaf {
                NodeView {
                    entries: old(self)@.entries.insert(
                        upper_bound(old(self)@.entries, key),
                        (key, value@),
                    ),
                    ..old(self)@
                }
            } else {
                old(self)@
            },
    {
        if self.is_leaf {
            let idx = self.find(key, true);
            self.entries.insert(idx, KeyValue { key, value });
            assert(self@.entries =~= old(self)@.entries.insert(idx as int, (key, value@)));
        }
        Ok(())
    }

    /// Whether the node has as many entries as a node may have.
    pub fn is_full(&self) -> (full: bool)
        ensures
            full == (self@.entries.len() >= MAX_KEYS),
    {
        self.entries.len() >= MAX_KEYS
    }

    /// The byte layout of the node.
    pub fn serialize(&self) -> (buffer: Vec<u8>)
        requires
            self@.encodable(),
        ensures
            buffer@ == self@.encode(),
    {
        let mut buffer: Vec<u8> = Vec::new();
        put_u32(&mut buffer, self.page_id);
        buffer.push(if self.is_leaf { 1 } else { 0 });
        put_u16(&mut buffer, self.entries.len() as u16);
        let ghost head = buffer@;
        let mut i: usize = 0;
        while i < self.entries.len()
            invariant
                i <= self.entries@.len(),
                self@.encodable(),
                buffer@ == head + encode_entries(self@.entries.take(i as int)),
            decreases self.entries@.len() - i,
        {
            let entry = &self.entries[i];
            assert(self@.entries[i as int].1.encodable());
            put_i32(&mut buffer, entry.key);
            let bytes = entry.value.serialize();
            let mut j: usize = 0;
            let ghost before = buffer@;
            while j < bytes.len()
                invariant
                    j <= bytes@.len(),
                    buffer@ == before + bytes@.take(j as int),
                decreases bytes@.len() - j,
            {
                buffer.push(bytes[j]);
                j += 1;
                assert(bytes@.take(j as int) =~= bytes@.take(j - 1).push(bytes@[j - 1]));
            }
            proof {
                assert(bytes@.take(j as int) =~= bytes@);
                lemma_encode_entries_push(self@.entries.take(i as int), self@.entries[i as int]);
                assert(self@.entries.take(i + 1) =~= self@.entries.take(i as int).push(
                    self@.entries[i as int],
                ));
                assert(buffer@ =~= head + encode_entries(self@.entries.take(i + 1)));
            }
            i += 1;
        }
        assert(self@.entries.take(i as int) =~= self@.entries);
        let ghost mid = buffer@;
        let mut k: usize = 0;
        while k < self.children.len()
            invariant
                k <= self.children@.len(),
                buffer@ == mid + encode_children(self.children@.take(k as int)),
            decreases self.children@.len() - k,
        {
            put_u32(&mut buffer, self.children[k]);
            proof {
                lemma_encode_children_push(self.children@.take(k as int), self.children@[k as int]);
                assert(self.children@.take(k + 1) =~= self.children@.take(k as int).push(
                    self.children@[k as int],
                ));
                assert(buffer@ =~= mid + encode_children(self.children@.take(k + 1)));
            }
            k += 1;
        }
        assert(self.children@.take(k as int) =~= self.children@);
        assert(buffer@ =~= self@.encode());
        buffer
    }

    /// Reads the entry that starts at `pos`, and says where the next one
    /// starts.
    fn read_entry(buffer: &[u8], pos: usize) -> (res: Result<(KeyValue, usize), DatabaseError>)
        requires
            pos <= buffer@.len(),
        ensures
            match decode_entry(buffer@, pos as int) {
                Some((entry, next)) => res matches Ok((kv, end)) && kv@ == entry && end == next
                    && pos < end <= buffer@.len(),
                None => res matches Err(DatabaseError::InvalidData(_)),
            },
    {
        let len = buffer.len();
        if len - pos < 4 {
            return Err(DatabaseError::InvalidData(String::from_str("Buffer too short for key")));
        }
        let key = get_i32(buffer, pos);
        let rest = slice_subrange(buffer, pos + 4, len);
        assert(rest@ =~= buffer@.skip(pos + 4));
        match Value::deserialize(rest) {
            Ok((value, used)) => Ok((KeyValue { key, value }, pos + 4 + used)),
            Err(_) => Err(DatabaseError::InvalidData(String::from_str("Invalid value"))),
        }
    }

    /// Reads the node at the start of `buffer`. Bytes behind the node are
    /// not looked at.
    pub fn deserialize(buffer: &[u8]) -> (res: Result<Self, DatabaseError>)
        ensures
            match NodeView::decode(buffer@) {
                Some(n) => res matches Ok(node) && node@ == n,
                None => res matches Err(DatabaseError::InvalidData(_)),
            },
    {
        let len = buffer.len();
        if len < 7 {
            return Err(
                DatabaseError::InvalidData(
                    String::from_str("Buffer too short for BTreeNode header"),
                ),
            );
        }
        let page_id = get_u32(buffer, 0);
        let is_leaf = buffer[4] == 1;
        let entry_count = get_u16(buffer, 5) as usize;
        let mut entries: Vec<KeyValue> = Vec::new();
        let mut pos: usize = 7;
        let mut i: usize = 0;
        assert(entries@.map_values(|e: KeyValue| e@) =~= Seq::<Entry>::empty());
        while i < entry_count
            invariant
                i <= entry_count,
                7 <= pos <= len == buffer@.len(),
                entry_count as nat == crate::bytes::le_value(buffer@.subrange(5, 7)),
                decode_entries(buffer@, 7, entry_count as nat, Seq::empty()) == decode_entries(
                    buffer@,
                    pos as int,
                    (entry_count - i) as nat,
                    entries@.map_values(|e: KeyValue| e@),
                ),
            decreases entry_count - i,
        {
            let (entry, next) = match Self::read_entry(buffer, pos) {
                Ok(pair) => pair,
                Err(e) => {
                    assert(decode_entries(
                        buffer@,
                        pos as int,
                        (entry_count - i) as nat,
                        entries@.map_values(|e: KeyValue| e@),
                    ) is None);
                    return Err(e);
                },
            };
            assert(entries@.push(entry).map_values(|e: KeyValue| e@) =~= entries@.map_values(
                |e: KeyValue| e@,
            ).push(entry@));
            entries.push(entry);
            pos = next;
            i += 1;
        }
        let mut children: Vec<u32> = Vec::new();
        if !is_leaf {
            if (len - pos) / 4 < entry_count + 1 {
                return Err(
                    DatabaseError::InvalidData(String::from_str("Buffer too short for children")),
                );
            }
            let mut k: usize = 0;
            while k < entry_count + 1
                invariant
                    k <= entry_count + 1,
                    pos + 4 * (entry_count + 1) <= len == buffer@.len(),
                    children@ == Seq::new(
                        k as nat,
                        |c: int|
                            crate::bytes::le_value(
                                buffer@.subrange(pos + 4 * c, pos + 4 * c + 4),
                            ) as u32,
                    ),
                decreases entry_count + 1 - k,
            {
                let child = get_u32(buffer, pos + 4 * k);
                children.push(child);
                k += 1;
                assert(children@ =~= Seq::new(
                    k as nat,
                    |c: int|
                        crate::bytes::le_value(buffer@.subrange(pos + 4 * c, pos + 4 * c + 4)) as u32,
                ));
            }
        }
        let node = Self { page_id, is_leaf, entries, children };
        proof {
            if is_leaf {
                assert(node@.children =~= Seq::<u32>::empty());
            }
        }
        Ok(node)
    }
}

} // verus!
