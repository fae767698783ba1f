//! A cursor over the stored nodes of a merk tree.
use crate::bytes::{bytes_less, lex_less};
use crate::tree::{Link, Tree};
use vstd::prelude::*;

verus! {

/// What a stored node holds: its key and value, and the keys of its children.
pub struct EntryView {
    /// Key of the node.
    pub key: Seq<u8>,
    /// Value of the node.
    pub value: Seq<u8>,
    /// Key of the left child, if there is one.
    pub left: Option<Seq<u8>>,
    /// Key of the right child, if there is one.
    pub right: Option<Seq<u8>>,
}

/// The key that a link slot holds.
pub open spec fn link_key_view(link: Option<Link>) -> Option<Seq<u8>> {
    match link {
        None => None,
        Some(link) => Some(link.key_view()),
    }
}

/// What is stored of a node.
pub open spec fn entry_view(node: Tree) -> EntryView {
    EntryView {
        key: node.key@,
        value: node.value@,
        left: link_key_view(node.left),
        right: link_key_view(node.right),
    }
}

/// What is stored of a list of nodes.
pub open spec fn entries_view(nodes: Seq<Tree>) -> Seq<EntryView> {
    Seq::new(nodes.len(), |i: int| entry_view(nodes[i]))
}

/// The position of the first entry whose key is not below `key`, or the number
/// of entries.
pub open spec fn lower_bound(entries: Seq<EntryView>, key: Seq<u8>) -> nat
    decreases entries.len(),
{
    if entries.len() == 0 {
        0
    } else {
        let before = lower_bound(entries.drop_last(), key);
        if before == entries.len() - 1 && lex_less(entries.last().key, key) {
            entries.len()
        } else {
            before
        }
    }
}

/// A cursor over a snapshot of the stored nodes of a merk tree, which storage
/// hands out in the order of their keys.
#[derive(Debug)]
pub struct RawIterator {
    nodes: Vec<Tree>,
    position: usize,
}

impl RawIterator {
    /// What the snapshot holds.
    pub closed spec fn entries(self) -> Seq<EntryView> {
        entries_view(self.nodes@)
    }

    /// Where the cursor stands: on the entry with this index, where there is
    /// one, or behind the last entry.
    pub closed spec fn position(self) -> nat {
        if self.position < self.nodes@.len() {
            self.position as nat
        } else {
            self.nodes@.len()
        }
    }

    /// The cursor stands on an entry or behind the last one.
    pub proof fn lemma_position(self)
        ensures
            self.position() <= self.entries().len(),
    {
    }

    /// A cursor on the first of the given nodes.
    pub fn new(nodes: Vec<Tree>) -> (iter: RawIterator)
        ensures
            iter.entries() == entries_view(nodes@),
            iter.position() == 0,
    {
        RawIterator { nodes, position: 0 }
    }

    /// Moves the cursor to the first entry.
    pub fn seek_to_first(&mut self)
        ensures
            final(self).entries() == old(self).entries(),
            final(self).position() == 0,
    {
        self.position = 0;
    }

    /// Moves the cursor to the first entry whose key is not below `key`, or
    /// behind the last entry, where there is none.
    pub fn seek(&mut self, key: &[u8])
        ensures
            final(self).entries() == old(self).entries(),
            final(self).position() == lower_bound(old(self).entries(), key@),
    {
        let mut i: usize = 0;
        let ghost entries = self.entries();
        assert(entries.take(0) =~= seq![]);
        while i < self.nodes.len() && bytes_less(self.nodes[i].key.as_slice(), key)
            invariant
                i <= self.nodes@.len(),
                entries == self.entries(),
                self.entries() == old(self).entries(),
                lower_bound(entries.take(i as int), key@) == i,
            decreases self.nodes@.len() - i,
        {
            assert(entries.take(i as int + 1).drop_last() =~= entries.take(i as int));
            i = i + 1;
        }
        proof {
            lemma_lower_bound_found(entries, i as nat, key@);
        }
        self.position = i;
    }

    /// Moves the cursor to the next entry, or behind the last one. A cursor
    /// that stands behind the last entry stays there.
    pub fn next(&mut self)
        ensures
            final(self).entries() == old(self).entries(),
            final(self).position() == if old(self).position() < old(self).entries().len() {
                old(self).position() + 1
            } else {
                old(self).position()
            },
    {
        if self.position < self.nodes.len() {
            self.position = self.position + 1;
        }
    }

    /// Whether the cursor stands on an entry.
    pub fn valid(&self) -> (valid: bool)
        ensures
            valid == (self.position() < self.entries().len()),
    {
        self.position < self.nodes.len()
    }

    /// The key of the entry that the cursor stands on, if any.
    pub fn key(&self) -> (key: Option<&[u8]>)
        ensures
            match key {
                Some(key) => self.position() < self.entries().len() && key@
                    == self.entries()[self.position() as int].key,
                None => self.position() >= self.entries().len(),
            },
    {
        if self.valid() {
            Some(self.nodes[self.position].key.as_slice())
        } else {
            None
        }
    }

    /// The node that the cursor stands on, if any.
    pub fn value(&self) -> (value: Option<&Tree>)
        ensures
            match value {
                Some(node) => self.position() < self.entries().len() && entry_view(*node)
                    == self.entries()[self.position() as int],
                None => self.position() >= self.entries().len(),
            },
    {
        if self.valid() {
            Some(&self.nodes[self.position])
        } else {
            None
        }
    }
}

/// Where all entries before position `i` are below a key and the entry there is
/// not, `i` is the lower bound.
pub proof fn lemma_lower_bound_found(entries: Seq<EntryView>, i: nat, key: Seq<u8>)
    requires
        i <= entries.len(),
        lower_bound(entries.take(i as int), key) == i,
        i < entries.len() ==> !lex_less(entries[i as int].key, key),
    ensures
        lower_bound(entries, key) == i,
    decreases entries.len(),
{
    if i < entries.len() {
        let short = entries.drop_last();
        assert(short.take(i as int) =~= entries.take(i as int));
        if i < short.len() {
            lemma_lower_bound_found(short, i, key);
        } else {
            assert(short =~= entries.take(i as int));
        }
    } else {
        assert(entries.take(i as int) =~= entries);
    }
}

/// Seeking a key finds the first entry that is not below it: all before it are below,
/// and it is not.
pub proof fn law_seeking_finds_the_first(entries: Seq<EntryView>, key: Seq<u8>)
    ensures
        lower_bound(entries, key) <= entries.len(),
        forall|i: int|
            0 <= i < lower_bound(entries, key) ==> lex_less((#[trigger] entries[i]).key, key),
        lower_bound(entries, key) < entries.len() ==> !lex_less(
            entries[lower_bound(entries, key) as int].key,
            key,
        ),
    decreases entries.len(),
{
    if entries.len() > 0 {
        let short = entries.drop_last();
        law_seeking_finds_the_first(short, key);
        assert forall|i: int| 0 <= i < lower_bound(entries, key) implies lex_less(
            (#[trigger] entries[i]).key,
            key,
        ) by {
            if i < short.len() {
                assert(short[i] == entries[i]);
            }
        }
        if lower_bound(short, key) < short.len() {
            assert(short[lower_bound(short, key) as int] == entries[lower_bound(
                short,
                key,
            ) as int]);
        }
    }
}

/// What is stored of a node: its key and value, and the keys of its children, be they in
/// memory or not.
pub proof fn law_what_is_stored_of_nodes(nodes: Seq<Tree>, i: int)
    requires
        0 <= i < nodes.len(),
    ensures
        entries_view(nodes).len() == nodes.len(),
        entries_view(nodes)[i].key == nodes[i].key@,
        entries_view(nodes)[i].value == nodes[i].value@,
        entries_view(nodes)[i].left == match nodes[i].left {
            None => None,
            Some(Link::Reference { key, hash }) => Some(key@),
            Some(Link::Loaded { hash, tree }) => Some(tree.key@),
        },
        entries_view(nodes)[i].right == match nodes[i].right {
            None => None,
            Some(Link::Reference { key, hash }) => Some(key@),
            Some(Link::Loaded { hash, tree }) => Some(tree.key@),
        },
{
}

} // verus!
