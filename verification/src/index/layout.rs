//! The byte layout of a B-tree node within a page's payload.
//!
//! A node is written as its page id (four bytes), a leaf flag (one byte),
//! the number of its entries (two bytes), the entries (each a key of four
//! bytes and a value), and, for an internal node, its child page ids (four
//! bytes each, one more than there are entries). All integers are
//! little-endian.

use crate::bytes::{
    le_bytes, le_value, lemma_le_bytes_len, lemma_le_value_of_bytes, lemma_limits,
    lemma_twos_round_trip, twos, untwos,
};
use crate::storage::value::{decode, lemma_decode_encode, ValueView};
use vstd::prelude::*;

verus! {

/// An entry of a node: a key and the value stored against it.
pub type Entry = (i32, ValueView);

/// The mathematical content of a node.
pub struct NodeView {
    pub page_id: u32,
    pub is_leaf: bool,
    pub entries: Seq<Entry>,
    pub children: Seq<u32>,
}

/// The bytes of one entry: the key, then the value.
pub open spec fn encode_entry(entry: Entry) -> Seq<u8> {
    le_bytes(twos(entry.0 as int, 4), 4) + entry.1.encode()
}

/// The bytes of the entries, one after the other.
pub open spec fn encode_entries(entries: Seq<Entry>) -> Seq<u8>
    decreases entries.len(),
{
    if entries.len() == 0 {
        Seq::empty()
    } else {
        encode_entry(entries[0]) + encode_entries(entries.skip(1))
    }
}

/// The bytes of the child page ids, one after the other.
pub open spec fn encode_children(children: Seq<u32>) -> Seq<u8>
    decreases children.len(),
{
    if children.len() == 0 {
        Seq::empty()
    } else {
        le_bytes(children[0] as nat, 4) + encode_children(children.skip(1))
    }
}

/// The entry that starts at `pos` in `bytes`, and the position behind it;
/// `None` where no entry starts there.
pub open spec fn decode_entry(bytes: Seq<u8>, pos: int) -> Option<(Entry, int)> {
    if pos < 0 || bytes.len() < pos + 4 {
        None
    } else {
        match decode(bytes.skip(pos + 4)) {
            None => None,
            Some((value, used)) => Some(
                ((untwos(le_value(bytes.subrange(pos, pos + 4)), 4) as i32, value), pos + 4 + used),
            ),
        }
    }
}

/// The entries in `acc`, then the `count` entries that start at `pos` in
/// `bytes`, and the position behind them; `None` where the bytes do not
/// hold as many.
pub open spec fn decode_entries(bytes: Seq<u8>, pos: int, count: nat, acc: Seq<Entry>) -> Option<
    (Seq<Entry>, int),
>
    decreases count,
{
    if count == 0 {
        Some((acc, pos))
    } else {
        match decode_entry(bytes, pos) {
            None => None,
            Some((entry, next)) => decode_entries(bytes, next, (count - 1) as nat, acc.push(entry)),
        }
    }
}

/// The `count` child page ids that start at `pos` in `bytes`; `None` where
/// the bytes do not hold as many.
pub open spec fn decode_children(bytes: Seq<u8>, pos: int, count: nat) -> Option<Seq<u32>> {
    if bytes.len() < pos + 4 * count {
        None
    } else {
        Some(
            Seq::new(count, |i: int| le_value(bytes.subrange(pos + 4 * i, pos + 4 * i + 4)) as u32),
        )
    }
}

impl NodeView {
    /// Whether the node has a byte layout: the number of entries fits two
    /// bytes, and every value has a layout.
    pub open spec fn encodable(self) -> bool {
        &&& self.entries.len() <= u16::MAX
        &&& forall|i: int| 0 <= i < self.entries.len() ==> (#[trigger] self.entries[i]).1.encodable()
    }

    /// Whether a leaf has no children and an internal node one more than it
    /// has entries.
    pub open spec fn shaped(self) -> bool {
        if self.is_leaf {
            self.children.len() == 0
        } else {
            self.children.len() == self.entries.len() + 1
        }
    }

    /// The byte layout of the node.
    pub open spec fn encode(self) -> Seq<u8> {
        le_bytes(self.page_id as nat, 4) + seq![
            if self.is_leaf {
                1u8
            } else {
                0u8
            },
        ] + le_bytes(self.entries.len(), 2) + encode_entries(self.entries) + encode_children(
            self.children,
        )
    }

    /// The node at the start of `bytes`, or `None` where the bytes start
    /// with no node. Bytes behind the node are not looked at.
    pub open spec fn decode(bytes: Seq<u8>) -> Option<NodeView> {
        if bytes.len() < 7 {
            None
        } else {
            let page_id = le_value(bytes.subrange(0, 4)) as u32;
            let is_leaf = bytes[4] == 1;
            let count = le_value(bytes.subrange(5, 7));
            match decode_entries(bytes, 7, count, Seq::empty()) {
                None => None,
                Some((entries, pos)) => if is_leaf {
                    Some(NodeView { page_id, is_leaf, entries, children: Seq::empty() })
                } else {
                    match decode_children(bytes, pos, count + 1) {
                        None => None,
                        Some(children) => Some(NodeView { page_id, is_leaf, entries, children }),
                    }
                },
            }
        }
    }
}

/// The bytes of entries with one more at the end are the bytes of the
/// entries, then those of the last.
pub proof fn lemma_encode_entries_push(entries: Seq<Entry>, entry: Entry)
    ensures
        encode_entries(entries.push(entry)) == encode_entries(entries) + encode_entry(entry),
    decreases entries.len(),
{
    let all = entries.push(entry);
    if entries.len() == 0 {
        assert(all.skip(1) =~= Seq::<Entry>::empty());
        assert(encode_entries(all.skip(1)) =~= Seq::<u8>::empty());
        assert(encode_entries(all) =~= encode_entries(entries) + encode_entry(entry));
    } else {
        assert(all.skip(1) =~= entries.skip(1).push(entry));
        lemma_encode_entries_push(entries.skip(1), entry);
        assert(encode_entries(all) =~= encode_entries(entries) + encode_entry(entry));
    }
}

/// The bytes of child ids with one more at the end are the bytes of the
/// ids, then those of the last.
pub proof fn lemma_encode_children_push(children: Seq<u32>, child: u32)
    ensures
        encode_children(children.push(child)) == encode_children(children) + le_bytes(
            child as nat,
            4,
        ),
        encode_children(children.push(child)).len() == 4 * (children.len() + 1),
    decreases children.len(),
{
    let all = children.push(child);
    lemma_le_bytes_len(child as nat, 4);
    if children.len() == 0 {
        assert(all.skip(1) =~= Seq::<u32>::empty());
        assert(encode_children(all.skip(1)) =~= Seq::<u8>::empty());
        assert(encode_children(all) =~= encode_children(children) + le_bytes(child as nat, 4));
    } else {
        assert(all.skip(1) =~= children.skip(1).push(child));
        lemma_encode_children_push(children.skip(1), child);
        lemma_le_bytes_len(children[0] as nat, 4);
        assert(encode_children(all) =~= encode_children(children) + le_bytes(child as nat, 4));
    }
}

pub proof fn lemma_encode_children_len(children: Seq<u32>)
    ensures
        encode_children(children).len() == 4 * children.len(),
    decreases children.len(),
{
    if children.len() > 0 {
        lemma_le_bytes_len(children[0] as nat, 4);
        lemma_encode_children_len(children.skip(1));
    }
}

/// Entries are read back from where their bytes stand.
pub proof fn lemma_decode_encode_entries(
    bytes: Seq<u8>,
    pos: int,
    entries: Seq<Entry>,
    acc: Seq<Entry>,
)
    requires
        0 <= pos,
        pos + encode_entries(entries).len() <= bytes.len(),
        bytes.subrange(pos, pos + encode_entries(entries).len()) == encode_entries(entries),
        forall|i: int| 0 <= i < entries.len() ==> (#[trigger] entries[i]).1.encodable(),
    ensures
        decode_entries(bytes, pos, entries.len(), acc) == Some(
            (acc + entries, pos + encode_entries(entries).len()),
        ),
    decreases entries.len(),
{
    if entries.len() > 0 {
        let first = entries[0];
        let tail = entries.skip(1);
        let all = encode_entries(entries);
        let key_bytes = le_bytes(twos(first.0 as int, 4), 4);
        let value_bytes = first.1.encode();
        lemma_limits();
        lemma_le_bytes_len(twos(first.0 as int, 4), 4);
        lemma_twos_round_trip(first.0 as int, 4);
        lemma_le_value_of_bytes(twos(first.0 as int, 4), 4);
        assert(all.len() == 4 + value_bytes.len() + encode_entries(tail).len());
        assert(bytes.subrange(pos, pos + 4) =~= all.subrange(0, 4));
        assert(all.subrange(0, 4) =~= key_bytes);
        let vlen = value_bytes.len() as int;
        let next = pos + 4 + vlen;
        assert(bytes.skip(pos + 4) =~= value_bytes + bytes.skip(next)) by {
            assert(bytes.subrange(pos + 4, next) =~= all.subrange(4, 4 + vlen));
            assert(all.subrange(4, 4 + vlen) =~= value_bytes);
            assert(bytes.skip(pos + 4) =~= bytes.subrange(pos + 4, next) + bytes.skip(next));
        }
        lemma_decode_encode(first.1, bytes.skip(next));
        assert(bytes.subrange(next, next + encode_entries(tail).len()) =~= encode_entries(tail))
            by {
            assert(bytes.subrange(next, next + encode_entries(tail).len()) =~= all.subrange(
                4 + vlen,
                all.len() as int,
            ));
        }
        assert forall|i: int| 0 <= i < tail.len() implies (#[trigger] tail[i]).1.encodable() by {
            assert(tail[i] == entries[i + 1]);
        }
        lemma_decode_encode_entries(bytes, next, tail, acc.push(first));
        assert(acc.push(first) + tail =~= acc + entries);
    } else {
        assert(acc + entries =~= acc);
    }
}

/// Child ids are read back from where their bytes stand.
pub proof fn lemma_decode_encode_children(bytes: Seq<u8>, pos: int, children: Seq<u32>)
    requires
        0 <= pos,
        pos + encode_children(children).len() <= bytes.len(),
        bytes.subrange(pos, pos + encode_children(children).len()) == encode_children(children),
    ensures
        decode_children(bytes, pos, children.len()) == Some(children),
{
    lemma_encode_children_len(children);
    let got = Seq::new(
        children.len(),
        |i: int| le_value(bytes.subrange(pos + 4 * i, pos + 4 * i + 4)) as u32,
    );
    assert forall|i: int| 0 <= i < children.len() implies got[i] == children[i] by {
        lemma_child_bytes(children, i);
        assert(bytes.subrange(pos + 4 * i, pos + 4 * i + 4) =~= bytes.subrange(
            pos,
            pos + encode_children(children).len(),
        ).subrange(4 * i, 4 * i + 4));
        lemma_limits();
        lemma_le_value_of_bytes(children[i] as nat, 4);
    }
    assert(got =~= children);
}

/// The bytes of child `i` stand at offset `4 * i`.
pub proof fn lemma_child_bytes(children: Seq<u32>, i: int)
    requires
        0 <= i < children.len(),
    ensures
        encode_children(children).len() == 4 * children.len(),
        encode_children(children).subrange(4 * i, 4 * i + 4) == le_bytes(children[i] as nat, 4),
    decreases children.len(),
{
    lemma_encode_children_len(children);
    lemma_encode_children_len(children.skip(1));
    lemma_le_bytes_len(children[0] as nat, 4);
    if i == 0 {
        assert(encode_children(children).subrange(0, 4) =~= le_bytes(children[0] as nat, 4));
    } else {
        lemma_child_bytes(children.skip(1), i - 1);
        assert(encode_children(children).subrange(4 * i, 4 * i + 4) =~= encode_children(
            children.skip(1),
        ).subrange(4 * (i - 1), 4 * (i - 1) + 4));
    }
}

/// A node read back from its bytes, whatever follows them, is the node.
pub proof fn lemma_node_round_trip(node: NodeView, rest: Seq<u8>)
    requires
        node.encodable(),
        node.shaped(),
    ensures
        NodeView::decode(node.encode() + rest) == Some(node),
{
    let bytes = node.encode() + rest;
    let count = node.entries.len();
    lemma_limits();
    lemma_le_bytes_len(node.page_id as nat, 4);
    lemma_le_bytes_len(count, 2);
    lemma_le_value_of_bytes(node.page_id as nat, 4);
    lemma_le_value_of_bytes(count, 2);
    lemma_encode_children_len(node.children);
    assert(bytes.subrange(0, 4) =~= le_bytes(node.page_id as nat, 4));
    assert(bytes.subrange(5, 7) =~= le_bytes(count, 2));
    let used = encode_entries(node.entries).len() as int;
    assert(bytes.subrange(7, 7 + used) =~= encode_entries(node.entries));
    lemma_decode_encode_entries(bytes, 7, node.entries, Seq::empty());
    assert(Seq::<Entry>::empty() + node.entries =~= node.entries);
    assert(bytes.subrange(7 + used, 7 + used + encode_children(node.children).len())
        =~= encode_children(node.children));
    lemma_decode_encode_children(bytes, 7 + used, node.children);
    if node.is_leaf {
        assert(node.children =~= Seq::<u32>::empty());
    }
}

/// The bytes of a node are seven for its header, four and the value's for
/// each entry, and four for each child.
pub proof fn lemma_encode_len(node: NodeView, bound: nat)
    requires
        forall|i: int|
            0 <= i < node.entries.len() ==> (#[trigger] node.entries[i]).1.encode().len() <= bound,
    ensures
        node.encode().len() <= 7 + node.entries.len() * (4 + bound) + 4 * node.children.len(),
{
    lemma_le_bytes_len(node.page_id as nat, 4);
    lemma_le_bytes_len(node.entries.len(), 2);
    lemma_encode_children_len(node.children);
    lemma_encode_entries_len(node.entries, bound);
}

/// The bytes of entries are at most four and the longest value's for each.
pub proof fn lemma_encode_entries_len(entries: Seq<Entry>, bound: nat)
    requires
        forall|i: int| 0 <= i < entries.len() ==> (#[trigger] entries[i]).1.encode().len() <= bound,
    ensures
        encode_entries(entries).len() <= entries.len() * (4 + bound),
    decreases entries.len(),
{
    if entries.len() > 0 {
        let tail = entries.skip(1);
        assert forall|i: int| 0 <= i < tail.len() implies (#[trigger] tail[i]).1.encode().len()
            <= bound by {
            assert(tail[i] == entries[i + 1]);
        }
        lemma_encode_entries_len(tail, bound);
        lemma_le_bytes_len(twos(entries[0].0 as int, 4), 4);
        assert(entries.len() * (4 + bound) == tail.len() * (4 + bound) + (4 + bound))
            by (nonlinear_arith)
            requires
                entries.len() == tail.len() + 1,
        ;
    }
}

} // verus!
