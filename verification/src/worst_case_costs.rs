//! Worst case costs of operations within a single merk.
//!
//! Heights of trees that are estimated from a number of elements are arguments
//! here: how they are estimated is up to the caller.
use crate::costs::OperationCost;
use crate::hash::HASH_LENGTH;
use crate::GroveDb;
use vstd::prelude::*;

verus! {

/// The longest key that is reckoned with.
pub const MAX_KEY_SIZE: u32 = 256;

/// The encoded size of a link with a key of the given size: an option byte, the
/// key's length and the key, a hash, and the heights of two children.
pub open spec fn link_size(key_size: nat) -> nat {
    key_size + 36
}

/// The encoded size of a node with both links.
pub open spec fn node_size(key_size: nat, element_size: nat) -> nat {
    2 * link_size(key_size) + element_size + 64
}

/// How much is written of a node: its prefixed key, and itself.
pub open spec fn entry_size(key_size: nat, element_size: nat) -> nat {
    32 + key_size + node_size(key_size, element_size)
}

/// The cost of one more seek that loads a number of bytes from storage.
pub open spec fn with_load(cost: OperationCost, bytes: nat) -> OperationCost {
    OperationCost {
        seek_count: (cost.seek_count + 1) as u16,
        storage_loaded_bytes: (cost.storage_loaded_bytes + bytes) as u32,
        ..cost
    }
}

/// The cost of inserting a node into a tree on top of a cost, where `walks`
/// nodes lie on the way to its place: each of them is loaded, then hashed again
/// and written, and two hashes are made for the new node. `new_hashes` of these
/// two are charged.
pub open spec fn with_insertion(
    cost: OperationCost,
    element_size: nat,
    walks: nat,
    new_hashes: nat,
) -> OperationCost {
    OperationCost {
        seek_count: (cost.seek_count + 2 * walks) as u16,
        storage_loaded_bytes: (cost.storage_loaded_bytes + walks * node_size(
            MAX_KEY_SIZE as nat,
            element_size,
        )) as u32,
        storage_written_bytes: (cost.storage_written_bytes + walks * entry_size(
            MAX_KEY_SIZE as nat,
            element_size,
        )) as u32,
        hash_node_calls: (cost.hash_node_calls + new_hashes + walks) as u16,
        ..cost
    }
}

/// Whether the counters have room for the cost of an insertion.
pub open spec fn insertion_fits(cost: OperationCost, element_size: nat, walks: nat) -> bool {
    &&& cost.seek_count + 2 * walks <= u16::MAX
    &&& cost.storage_loaded_bytes + walks * node_size(MAX_KEY_SIZE as nat, element_size) <= u32::MAX
    &&& cost.storage_written_bytes + walks * entry_size(MAX_KEY_SIZE as nat, element_size)
        <= u32::MAX
    &&& cost.hash_node_calls + 2 + walks <= u16::MAX
    &&& node_size(MAX_KEY_SIZE as nat, element_size) <= u32::MAX
}

/// A part of a product and one factor more is a part of the product.
proof fn lemma_one_more(i: nat, n: nat, size: nat)
    requires
        i < n,
    ensures
        (i + 1) * size == i * size + size,
        i * size + size <= n * size,
{
    assert((i + 1) * size == i * size + size) by (nonlinear_arith);
    assert((i + 1) * size <= n * size) by (nonlinear_arith)
        requires
            i + 1 <= n,
    ;
}

impl GroveDb {
    /// Worst case size of an encoded link. Links are optional values that
    /// represent the right or left node for a given tree.
    fn worst_case_encoded_link_size(key_size: u32) -> (size: u32)
        requires
            link_size(key_size as nat) <= u32::MAX,
        ensures
            size == link_size(key_size as nat),
    {
        // 1 byte to represent the option state, 1 byte to represent key_length,
        // key_length to represent the actual key, 32 bytes for the hash of the
        // node, 1 byte each for the left and the right child height
        1 + 1 + key_size + 32 + 1 + 1
    }

    /// Worst case size of the state of a node.
    fn worst_case_encoded_kv_node_size(max_element_size: u32) -> (size: u32)
        requires
            max_element_size + 64 <= u32::MAX,
        ensures
            size == max_element_size + 64,
    {
        // 32 bytes to encode the hash of the node, 32 bytes to encode the value
        // hash, max_element_size to encode the worst case value size
        32 + 32 + max_element_size
    }

    /// Worst case size of a node with both links present.
    fn worst_case_encoded_node_size(key_size: u32, max_element_size: u32) -> (size: u32)
        requires
            node_size(key_size as nat, max_element_size as nat) <= u32::MAX,
        ensures
            size == node_size(key_size as nat, max_element_size as nat),
    {
        2 * GroveDb::worst_case_encoded_link_size(key_size)
            + GroveDb::worst_case_encoded_kv_node_size(max_element_size)
    }

    /// Add worst case for getting a merk node: the element is not already in
    /// memory, so one direct seek has to be performed to read the node, with
    /// both links present, from storage.
    pub fn add_worst_case_get_merk_node(
        cost: &mut OperationCost,
        key_size: u32,
        max_element_size: u32,
    )
        requires
            old(cost).seek_count < u16::MAX,
            old(cost).storage_loaded_bytes + node_size(key_size as nat, max_element_size as nat)
                <= u32::MAX,
        ensures
            *final(cost) == with_load(
                *old(cost),
                node_size(key_size as nat, max_element_size as nat),
            ),
    {
        cost.seek_count = cost.seek_count + 1;
        let loaded_storage_bytes: u32 = GroveDb::worst_case_encoded_node_size(
            key_size,
            max_element_size,
        );
        cost.storage_loaded_bytes = cost.storage_loaded_bytes + loaded_storage_bytes;
    }

    /// Add worst case for inserting a reference: same as inserting a node but one
    /// less hash node call as that is done on the grovedb layer.
    pub fn add_merk_worst_case_insert_reference(
        cost: &mut OperationCost,
        max_element_size: u32,
        max_tree_height: u32,
    )
        requires
            max_tree_height > 0,
            insertion_fits(*old(cost), max_element_size as nat, (max_tree_height - 1) as nat),
        ensures
            *final(cost) == with_insertion(
                *old(cost),
                max_element_size as nat,
                (max_tree_height - 1) as nat,
                1,
            ),
    {
        GroveDb::add_worst_case_insert_merk_node(cost, max_element_size, max_tree_height);
        cost.hash_node_calls = cost.hash_node_calls - 1;
    }

    /// Add worst case for inserting a node into a tree of the given height, of
    /// which only the root node is in memory: all but the root node are seeked
    /// and loaded on the way down, the new node takes two hashes, and for every
    /// modified node the commit takes a hash and a write.
    pub fn add_worst_case_insert_merk_node(
        cost: &mut OperationCost,
        max_element_size: u32,
        max_tree_height: u32,
    )
        requires
            max_tree_height > 0,
            insertion_fits(*old(cost), max_element_size as nat, (max_tree_height - 1) as nat),
        ensures
            *final(cost) == with_insertion(
                *old(cost),
                max_element_size as nat,
                (max_tree_height - 1) as nat,
                2,
            ),
    {
        // would have to seek all but the root node
        let max_number_of_walks: u32 = max_tree_height - 1;
        let ghost n = max_number_of_walks as nat;
        let ghost loaded = node_size(MAX_KEY_SIZE as nat, max_element_size as nat);
        let ghost written = entry_size(MAX_KEY_SIZE as nat, max_element_size as nat);
        let mut i: u32 = 0;
        assert(0 * loaded == 0) by (nonlinear_arith);
        assert(0 * written == 0) by (nonlinear_arith);
        while i < max_number_of_walks
            invariant
                i <= max_number_of_walks,
                n == max_number_of_walks,
                loaded == node_size(MAX_KEY_SIZE as nat, max_element_size as nat),
                insertion_fits(*old(cost), max_element_size as nat, n),
                *cost == (OperationCost {
                    seek_count: (old(cost).seek_count + i) as u16,
                    storage_loaded_bytes: (old(cost).storage_loaded_bytes + i as nat * loaded) as u32,
                    ..*old(cost)
                }),
                i as nat * loaded <= n * loaded,
            decreases max_number_of_walks - i,
        {
            proof {
                lemma_one_more(i as nat, n, loaded);
            }
            GroveDb::add_worst_case_get_merk_node(cost, MAX_KEY_SIZE, max_element_size);
            i = i + 1;
        }
        // value_hash and kv_hash of the new node are computed
        cost.hash_node_calls = cost.hash_node_calls + 2;
        // the prefix of the key is created during get storage context for merk
        // open
        let prefix_size: u32 = 32;
        let prefixed_key_size: u32 = prefix_size + MAX_KEY_SIZE;
        let value_size: u32 = GroveDb::worst_case_encoded_node_size(MAX_KEY_SIZE, max_element_size);
        let mut j: u32 = 0;
        while j < max_number_of_walks
            invariant
                j <= max_number_of_walks,
                n == max_number_of_walks,
                prefixed_key_size + value_size == written,
                written == entry_size(MAX_KEY_SIZE as nat, max_element_size as nat),
                loaded == node_size(MAX_KEY_SIZE as nat, max_element_size as nat),
                insertion_fits(*old(cost), max_element_size as nat, n),
                *cost == (OperationCost {
                    seek_count: (old(cost).seek_count + n + j) as u16,
                    storage_loaded_bytes: (old(cost).storage_loaded_bytes + n * loaded) as u32,
                    storage_written_bytes: (old(cost).storage_written_bytes + j as nat
                        * written) as u32,
                    hash_node_calls: (old(cost).hash_node_calls + 2 + j) as u16,
                    ..*old(cost)
                }),
                j as nat * written <= n * written,
            decreases max_number_of_walks - j,
        {
            proof {
                lemma_one_more(j as nat, n, written);
            }
            cost.seek_count = cost.seek_count + 1;
            cost.hash_node_calls = cost.hash_node_calls + 1;
            cost.storage_written_bytes = cost.storage_written_bytes + (prefixed_key_size
                + value_size);
            j = j + 1;
        }
    }

    /// Add worst case for getting a merk tree: one seek in meta for the root key,
    /// one for loading that root key, and what building the storage context of
    /// its path costs.
    pub fn add_worst_case_get_merk(
        cost: &mut OperationCost,
        storage_context_cost: OperationCost,
        max_element_size: u32,
    )
        requires
            old(cost).seek_count + 2 <= u16::MAX,
            old(cost).storage_loaded_bytes + max_element_size <= u32::MAX,
            (OperationCost {
                seek_count: (old(cost).seek_count + 2) as u16,
                storage_loaded_bytes: (old(cost).storage_loaded_bytes + max_element_size) as u32,
                ..*old(cost)
            }).fits(storage_context_cost),
        ensures
            *final(cost) == (OperationCost {
                seek_count: (old(cost).seek_count + 2) as u16,
                storage_loaded_bytes: (old(cost).storage_loaded_bytes + max_element_size) as u32,
                ..*old(cost)
            }).plus(storage_context_cost),
    {
        cost.seek_count = cost.seek_count + 2;
        cost.storage_loaded_bytes = cost.storage_loaded_bytes + max_element_size;
        cost.add_assign(storage_context_cost);
    }

    /// Add worst case for checking that a merk tree has an element: one seek,
    /// which loads the key (of its length the counter keeps the low 32 bits) and
    /// the element.
    pub fn add_worst_case_merk_has_element(
        cost: &mut OperationCost,
        key: &[u8],
        max_element_size: u32,
    )
        requires
            old(cost).seek_count < u16::MAX,
            old(cost).storage_loaded_bytes + (key@.len() as u32) + max_element_size <= u32::MAX,
        ensures
            *final(cost) == with_load(*old(cost), (key@.len() as u32 + max_element_size) as nat),
    {
        cost.seek_count = cost.seek_count + 1;
        cost.storage_loaded_bytes = cost.storage_loaded_bytes + ((#[verifier::truncate] (
        key.len() as u32)) + max_element_size);
    }

    /// Add worst case for getting a merk tree root hash: the hash of a node takes
    /// no more than the first block, which is not counted.
    pub fn add_worst_case_merk_root_hash(cost: &mut OperationCost)
        ensures
            *final(cost) == *old(cost),
    {
        cost.hash_node_calls = cost.hash_node_calls + GroveDb::node_hash_update_count();
    }

    /// How many further blocks hashing a node takes.
    fn node_hash_update_count() -> (count: u16)
        ensures
            count == 0,
    {
        // It's a hash of node hash, left and right
        let bytes: usize = HASH_LENGTH * 3;
        let blocks: usize = (bytes - 64 + 1) / 64;
        blocks as u16
    }

    /// Add worst case for insertion into merk: key and value are written and
    /// hashed, and the change is propagated over the given number of levels.
    /// `serialized_len` is the length of the serialized value. Of the number of
    /// bytes the counter keeps the low 32 bits, and of the number of blocks the
    /// low 16 bits.
    pub fn add_worst_case_merk_insert(
        cost: &mut OperationCost,
        key: &[u8],
        serialized_len: usize,
        levels: u32,
    )
        requires
            64 <= key@.len() + serialized_len <= usize::MAX,
            old(cost).storage_written_bytes + ((key@.len() + serialized_len) as u32) + (levels + 2)
                * 32 <= u32::MAX,
            old(cost).hash_node_calls + (((key@.len() + serialized_len - 63) / 64) as u16)
                <= u16::MAX,
        ensures
            *final(cost) == (OperationCost {
                storage_written_bytes: (old(cost).storage_written_bytes + ((key@.len()
                    + serialized_len) as u32) + (levels + 2) * 32) as u32,
                hash_node_calls: (old(cost).hash_node_calls + (((key@.len() + serialized_len - 63)
                    / 64) as u16)) as u16,
                ..*old(cost)
            }),
    {
        let bytes_len: usize = key.len() + serialized_len;
        cost.storage_written_bytes = cost.storage_written_bytes + (#[verifier::truncate] (
        bytes_len as u32));
        // .. and hash computation for the inserted element itself
        cost.hash_node_calls = cost.hash_node_calls + (#[verifier::truncate] (((bytes_len - 64 + 1)
            / 64) as u16));
        GroveDb::add_worst_case_merk_propagate(cost, levels);
    }

    /// Add worst case for propagation over the given number of levels, which
    /// requires to recompute and write hashes up to the root. In AVL tree two
    /// rotation may happen at most on insertion, some of them may update one
    /// more node except one we already have on our path to the root, thus two
    /// more updates.
    pub fn add_worst_case_merk_propagate(cost: &mut OperationCost, levels: u32)
        requires
            old(cost).storage_written_bytes + (levels + 2) * 32 <= u32::MAX,
        ensures
            *final(cost) == (OperationCost {
                storage_written_bytes: (old(cost).storage_written_bytes + (levels + 2) * 32) as u32,
                ..*old(cost)
            }),
    {
        let nodes_updated: u32 = levels + 2;
        cost.storage_written_bytes = cost.storage_written_bytes + nodes_updated * 32;
        // Same number of hash recomputations for propagation
        let count: u16 = GroveDb::node_hash_update_count();
        let nodes: u16 = #[verifier::truncate] (nodes_updated as u16);
        assert(nodes * count == 0) by (nonlinear_arith)
            requires
                count == 0,
        ;
        cost.hash_node_calls = cost.hash_node_calls + nodes * count;
    }
}

/// What getting a node is reckoned with: one seek, and of storage two links, each with an
/// option byte, the length of a key, the key, a hash and two heights, two hashes
/// and the element.
pub proof fn law_worst_case_of_a_node(cost: OperationCost, key_size: u32, element_size: u32)
    requires
        cost.seek_count + 1 <= u16::MAX,
        cost.storage_loaded_bytes + 2 * (1 + 1 + key_size + 32 + 1 + 1) + 32 + 32 + element_size
            <= u32::MAX,
    ensures
        ({
            let now = with_load(cost, node_size(key_size as nat, element_size as nat));
            &&& now.seek_count == cost.seek_count + 1
            &&& now.storage_loaded_bytes == cost.storage_loaded_bytes + 2 * (1 + 1 + key_size + 32
                + 1 + 1) + 32 + 32 + element_size
            &&& now.storage_written_bytes == cost.storage_written_bytes
            &&& now.loaded_bytes == cost.loaded_bytes
            &&& now.hash_byte_calls == cost.hash_byte_calls
            &&& now.hash_node_calls == cost.hash_node_calls
        }),
{
}

/// What inserting a node is reckoned with grows by the same amount for every node on the
/// way: a seek that loads a node with keys of 256 bytes, and a seek and a hash that
/// write it with its prefixed key. With no node on the way only the hashes of the
/// new node are left.
pub proof fn law_worst_case_of_an_insertion(
    cost: OperationCost,
    element_size: u32,
    walks: nat,
    new_hashes: nat,
)
    requires
        insertion_fits(cost, element_size as nat, walks + 1),
        new_hashes <= 2,
    ensures
        ({
            let now = with_insertion(cost, element_size as nat, walks, new_hashes);
            let more = with_insertion(cost, element_size as nat, walks + 1, new_hashes);
            &&& more.seek_count == now.seek_count + 2
            &&& more.storage_loaded_bytes == now.storage_loaded_bytes + 2 * (256 + 36) + 64
                + element_size
            &&& more.storage_written_bytes == now.storage_written_bytes + (32 + 256) + 2 * (256
                + 36) + 64 + element_size
            &&& more.hash_node_calls == now.hash_node_calls + 1
            &&& more.loaded_bytes == cost.loaded_bytes
            &&& more.hash_byte_calls == cost.hash_byte_calls
        }),
        with_insertion(cost, element_size as nat, 0, new_hashes) == (OperationCost {
            hash_node_calls: (cost.hash_node_calls + new_hashes) as u16,
            ..cost
        }),
{
    let loaded = node_size(MAX_KEY_SIZE as nat, element_size as nat);
    let written = entry_size(MAX_KEY_SIZE as nat, element_size as nat);
    lemma_one_more(walks, walks + 1, loaded);
    lemma_one_more(walks, walks + 1, written);
    assert(0 * loaded == 0) by (nonlinear_arith);
    assert(0 * written == 0) by (nonlinear_arith);
}

/// What one more load is reckoned with, however many bytes it has: one seek, and these
/// bytes of storage.
pub proof fn law_worst_case_of_a_load(cost: OperationCost, bytes: nat)
    requires
        cost.seek_count + 1 <= u16::MAX,
        cost.storage_loaded_bytes + bytes <= u32::MAX,
    ensures
        with_load(cost, bytes).seek_count == cost.seek_count + 1,
        with_load(cost, bytes).storage_loaded_bytes == cost.storage_loaded_bytes + bytes,
        with_load(cost, bytes).storage_written_bytes == cost.storage_written_bytes,
        with_load(cost, bytes).loaded_bytes == cost.loaded_bytes,
        with_load(cost, bytes).hash_byte_calls == cost.hash_byte_calls,
        with_load(cost, bytes).hash_node_calls == cost.hash_node_calls,
{
}

/// What inserting a node is reckoned with, with any number of nodes on the way: for each
/// of them two seeks, a hash, a load of a node with keys of 256 bytes, and a write of
/// it with its prefixed key, and the hashes of the new node.
pub proof fn law_worst_case_of_a_way(
    cost: OperationCost,
    element_size: u32,
    walks: nat,
    new_hashes: nat,
)
    requires
        insertion_fits(cost, element_size as nat, walks),
        new_hashes <= 2,
    ensures
        ({
            let now = with_insertion(cost, element_size as nat, walks, new_hashes);
            &&& now.seek_count == cost.seek_count + 2 * walks
            &&& now.storage_loaded_bytes == cost.storage_loaded_bytes + walks * (2 * (256 + 36) + 64
                + element_size)
            &&& now.storage_written_bytes == cost.storage_written_bytes + walks * (32 + 256 + 2 * (
            256 + 36) + 64 + element_size)
            &&& now.hash_node_calls == cost.hash_node_calls + new_hashes + walks
            &&& now.loaded_bytes == cost.loaded_bytes
            &&& now.hash_byte_calls == cost.hash_byte_calls
        }),
{
    let loaded = node_size(MAX_KEY_SIZE as nat, element_size as nat);
    let written = entry_size(MAX_KEY_SIZE as nat, element_size as nat);
    assert(loaded == 2 * (256 + 36) + 64 + element_size);
    assert(written == 32 + 256 + 2 * (256 + 36) + 64 + element_size);
    assert(walks * loaded >= 0 && walks * written >= 0) by (nonlinear_arith);
}

} // verus!
