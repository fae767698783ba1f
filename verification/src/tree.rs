//! Merk tree nodes and the walker that loads them on demand.
use crate::hash::{
    kv_hash, kv_hash_view, node_hash, node_hash_view, null_hash, null_hash_view, NodeHash,
};
use vstd::prelude::*;

verus! {

/// A node of a merk tree, with the links to its children.
#[derive(Debug)]
pub struct Tree {
    /// Key of the node.
    pub key: Vec<u8>,
    /// Value of the node.
    pub value: Vec<u8>,
    /// Link to the left child, if there is one.
    pub left: Option<Link>,
    /// Link to the right child, if there is one.
    pub right: Option<Link>,
}

/// A link to a child node.
#[derive(Debug)]
pub enum Link {
    /// The child is in storage only.
    Reference {
        /// Key of the child.
        key: Vec<u8>,
        /// Node hash of the child.
        hash: NodeHash,
    },
    /// The child is in memory.
    Loaded {
        /// Node hash of the child.
        hash: NodeHash,
        /// The child.
        tree: Box<Tree>,
    },
}

/// Why a node could not be fetched from storage.
#[derive(Debug, PartialEq, Eq)]
pub struct FetchError {
    /// What the storage reported.
    pub message: String,
}

/// A source of nodes that are not in memory.
pub trait Fetch {
    /// Fetches the node that `link` refers to.
    fn fetch(&self, link: &Link) -> Result<Tree, FetchError>;
}

/// The hash that a link slot contributes to its parent's node hash.
pub open spec fn link_hash_view(link: Option<Link>) -> Seq<u8> {
    match link {
        None => null_hash_view(),
        Some(Link::Reference { key, hash }) => hash@,
        Some(Link::Loaded { hash, tree }) => hash@,
    }
}

/// Whether a link slot holds a child that is in storage only.
pub open spec fn is_reference(link: Option<Link>) -> bool {
    link matches Some(Link::Reference { key, hash })
}

/// Whether `source` may answer a fetch of `link` with `outcome`.
pub open spec fn fetched<S: Fetch>(
    source: &S,
    link: Link,
    outcome: Result<Tree, FetchError>,
) -> bool {
    call_ensures(S::fetch, (source, &link), outcome)
}

/// Whether `link` is a reference in a link slot, or below it within reach.
pub open spec fn slot_lacks(slot: Option<Link>, link: Link, depth: nat, edge: bool) -> bool
    decreases slot,
{
    match slot {
        None => false,
        Some(Link::Reference { key, hash }) => slot == Some(link),
        Some(Link::Loaded { hash, tree }) => lacks(*tree, link, depth, edge),
    }
}

/// Whether `link` is a reference that stands within reach in a tree in place of a
/// child: down to `depth` layers below the root or, where `edge` is set, along
/// the left edge.
pub open spec fn lacks(tree: Tree, link: Link, depth: nat, edge: bool) -> bool
    decreases tree,
{
    let below = if depth > 0 {
        (depth - 1) as nat
    } else {
        0
    };
    ||| (depth > 0 || edge) && slot_lacks(tree.left, link, below, edge)
    ||| depth > 0 && slot_lacks(tree.right, link, below, false)
}

/// Whether `source` may answer with the error `e` when it is asked for a node that
/// a tree lacks within reach.
pub open spec fn fetch_fails<S: Fetch>(
    source: &S,
    tree: Tree,
    depth: nat,
    edge: bool,
    e: FetchError,
) -> bool {
    exists|link: Link| #[trigger] fetched(source, link, Err(e)) && lacks(tree, link, depth, edge)
}

/// Where a child lacks a node within reach, so does its parent, one layer above.
pub proof fn lemma_child_fetch_fails<S: Fetch>(
    source: &S,
    tree: Tree,
    left: bool,
    depth: nat,
    edge: bool,
    e: FetchError,
)
    requires
        tree.link_view(left) matches Some(Link::Loaded { hash, tree: child }) && fetch_fails(
            source,
            *child,
            if depth > 0 {
                (depth - 1) as nat
            } else {
                0
            },
            left && edge,
            e,
        ),
        depth > 0 || (left && edge),
    ensures
        fetch_fails(source, tree, depth, edge, e),
{
    let child = *tree.link_view(left)->0->tree;
    let below = if depth > 0 {
        (depth - 1) as nat
    } else {
        0
    };
    let link = choose|link: Link| #[trigger]
        fetched(source, link, Err(e)) && lacks(child, link, below, left && edge);
    assert(slot_lacks(tree.link_view(left), link, below, left && edge));
    assert(lacks(tree, link, depth, edge));
}

/// Whether `after` is `before` or, where `before` is a reference, that
/// reference with the node in its place that `source` answered with, in which
/// more may have been loaded within reach.
pub open spec fn link_loads<S: Fetch>(
    source: &S,
    before: Option<Link>,
    after: Option<Link>,
    depth: nat,
    edge: bool,
) -> bool
    decreases after,
{
    match before {
        None => after is None,
        Some(Link::Reference { key, hash }) => after == before || (after matches Some(
            Link::Loaded { hash: loaded_hash, tree },
        ) && loaded_hash == hash && exists|fresh: Tree|
            #[trigger] fetched(source, before->0, Ok(fresh)) && loads(
                source,
                fresh,
                *tree,
                depth,
                edge,
            )),
        Some(Link::Loaded { hash, tree }) => after matches Some(
            Link::Loaded { hash: after_hash, tree: after_tree },
        ) && after_hash == hash && loads(source, *tree, *after_tree, depth, edge),
    }
}

/// Whether `after` is `before` with nodes from `source` loaded in place of some
/// references within reach: down to `depth` layers below the root and, where
/// `edge` is set, along the left edge.
pub open spec fn loads<S: Fetch>(
    source: &S,
    before: Tree,
    after: Tree,
    depth: nat,
    edge: bool,
) -> bool
    decreases after,
{
    let below = if depth > 0 {
        (depth - 1) as nat
    } else {
        0
    };
    &&& after.key == before.key
    &&& after.value == before.value
    &&& if depth > 0 || edge {
        link_loads(source, before.left, after.left, below, edge)
    } else {
        after.left == before.left
    }
    &&& if depth > 0 {
        link_loads(source, before.right, after.right, below, false)
    } else {
        after.right == before.right
    }
}

/// Every tree loads to itself.
pub proof fn lemma_loads_reflexive<S: Fetch>(source: &S, tree: Tree, depth: nat, edge: bool)
    ensures
        loads(source, tree, tree, depth, edge),
    decreases tree,
{
    let below = if depth > 0 {
        (depth - 1) as nat
    } else {
        0
    };
    if let Some(Link::Loaded { hash, tree: child }) = tree.left {
        lemma_loads_reflexive(source, *child, below, edge);
    }
    if let Some(Link::Loaded { hash, tree: child }) = tree.right {
        lemma_loads_reflexive(source, *child, below, false);
    }
}

/// Every link slot loads to itself.
pub proof fn lemma_link_loads_reflexive<S: Fetch>(
    source: &S,
    link: Option<Link>,
    depth: nat,
    edge: bool,
)
    ensures
        link_loads(source, link, link, depth, edge),
{
    if let Some(Link::Loaded { hash, tree: child }) = link {
        lemma_loads_reflexive(source, *child, depth, edge);
    }
}

/// What is loaded within reach is loaded within a wider reach.
pub proof fn lemma_loads_wider<S: Fetch>(
    source: &S,
    before: Tree,
    after: Tree,
    depth: nat,
    edge: bool,
    wider_depth: nat,
    wider_edge: bool,
)
    requires
        loads(source, before, after, depth, edge),
        depth <= wider_depth,
        edge ==> wider_edge,
    ensures
        loads(source, before, after, wider_depth, wider_edge),
    decreases after,
{
    let below = if depth > 0 {
        (depth - 1) as nat
    } else {
        0
    };
    let wider_below = if wider_depth > 0 {
        (wider_depth - 1) as nat
    } else {
        0
    };
    if depth > 0 || edge {
        lemma_link_loads_wider(
            source,
            before.left,
            after.left,
            below,
            edge,
            wider_below,
            wider_edge,
        );
    } else {
        lemma_link_loads_reflexive(source, before.left, wider_below, wider_edge);
    }
    if depth > 0 {
        lemma_link_loads_wider(
            source,
            before.right,
            after.right,
            below,
            false,
            wider_below,
            false,
        );
    } else {
        lemma_link_loads_reflexive(source, before.right, wider_below, false);
    }
}

/// What is loaded in a link slot within reach is loaded within a wider reach.
pub proof fn lemma_link_loads_wider<S: Fetch>(
    source: &S,
    before: Option<Link>,
    after: Option<Link>,
    depth: nat,
    edge: bool,
    wider_depth: nat,
    wider_edge: bool,
)
    requires
        link_loads(source, before, after, depth, edge),
        depth <= wider_depth,
        edge ==> wider_edge,
    ensures
        link_loads(source, before, after, wider_depth, wider_edge),
    decreases after,
{
    match before {
        None => {},
        Some(Link::Loaded { hash, tree }) => {
            lemma_loads_wider(
                source,
                *tree,
                *after->0->tree,
                depth,
                edge,
                wider_depth,
                wider_edge,
            );
        },
        Some(Link::Reference { key, hash }) => {
            if after != before {
                let loaded = *after->0->tree;
                let fresh = choose|fresh: Tree| #[trigger]
                    fetched(source, before->0, Ok(fresh)) && loads(source, fresh, loaded, depth, edge);
                lemma_loads_wider(source, fresh, loaded, depth, edge, wider_depth, wider_edge);
            }
        },
    }
}

/// Loading more after loading some is loading.
pub proof fn lemma_loads_transitive<S: Fetch>(
    source: &S,
    a: Tree,
    b: Tree,
    c: Tree,
    depth: nat,
    edge: bool,
)
    requires
        loads(source, a, b, depth, edge),
        loads(source, b, c, depth, edge),
    ensures
        loads(source, a, c, depth, edge),
    decreases c,
{
    let below = if depth > 0 {
        (depth - 1) as nat
    } else {
        0
    };
    if depth > 0 || edge {
        lemma_link_loads_transitive(source, a.left, b.left, c.left, below, edge);
    }
    if depth > 0 {
        lemma_link_loads_transitive(source, a.right, b.right, c.right, below, false);
    }
}

/// Loading more in a link slot after loading some is loading.
pub proof fn lemma_link_loads_transitive<S: Fetch>(
    source: &S,
    a: Option<Link>,
    b: Option<Link>,
    c: Option<Link>,
    depth: nat,
    edge: bool,
)
    requires
        link_loads(source, a, b, depth, edge),
        link_loads(source, b, c, depth, edge),
    ensures
        link_loads(source, a, c, depth, edge),
    decreases c,
{
    match a {
        None => {},
        Some(Link::Loaded { hash, tree }) => {
            lemma_loads_transitive(source, *tree, *b->0->tree, *c->0->tree, depth, edge);
        },
        Some(Link::Reference { key, hash }) => {
            if b != a {
                let middle = *b->0->tree;
                let fresh = choose|fresh: Tree| #[trigger]
                    fetched(source, a->0, Ok(fresh)) && loads(source, fresh, middle, depth, edge);
                lemma_loads_transitive(source, fresh, middle, *c->0->tree, depth, edge);
            }
        },
    }
}

/// A tree with one child loaded is loaded within every reach that has the child
/// in it.
proof fn lemma_loaded_child<S: Fetch>(source: &S, before: Tree, after: Tree, left: bool)
    requires
        after.key == before.key,
        after.value == before.value,
        after.link_view(!left) == before.link_view(!left),
        before.link_view(left) matches Some(Link::Reference { key, hash }) && (after.link_view(
            left,
        ) matches Some(Link::Loaded { hash: loaded_hash, tree }) && loaded_hash == hash && fetched(
            source,
            before.link_view(left)->0,
            Ok(*tree),
        )),
    ensures
        forall|depth: nat, edge: bool|
            depth > 0 || (left && edge) ==> #[trigger] loads(source, before, after, depth, edge),
{
    assert forall|depth: nat, edge: bool| depth > 0 || (left && edge) implies #[trigger] loads(
        source,
        before,
        after,
        depth,
        edge,
    ) by {
        let below = if depth > 0 {
            (depth - 1) as nat
        } else {
            0
        };
        let child = *after.link_view(left)->0->tree;
        if left {
            lemma_loads_reflexive(source, child, below, edge);
            lemma_link_loads_reflexive(source, before.right, below, false);
        } else {
            lemma_loads_reflexive(source, child, below, false);
            lemma_link_loads_reflexive(source, before.left, below, edge);
        }
    }
}

impl Link {
    /// The key of the child.
    pub open spec fn key_view(self) -> Seq<u8> {
        match self {
            Link::Reference { key, hash } => key@,
            Link::Loaded { hash, tree } => tree.key@,
        }
    }

    /// The key of the child.
    pub fn key(&self) -> (key: &Vec<u8>)
        ensures
            key@ == self.key_view(),
    {
        match self {
            Link::Reference { key, .. } => key,
            Link::Loaded { tree, .. } => &tree.key,
        }
    }

    /// The node hash of the child.
    pub fn hash(&self) -> (hash: &NodeHash)
        ensures
            hash@ == link_hash_view(Some(*self)),
    {
        match self {
            Link::Reference { hash, .. } => hash,
            Link::Loaded { hash, .. } => hash,
        }
    }
}

impl Tree {
    /// The link to the left child (`true`) or to the right child (`false`).
    pub open spec fn link_view(self, left: bool) -> Option<Link> {
        if left {
            self.left
        } else {
            self.right
        }
    }

    /// The node hash.
    pub open spec fn hash_view(self) -> Seq<u8> {
        node_hash_view(
            kv_hash_view(self.key@, self.value@),
            link_hash_view(self.left),
            link_hash_view(self.right),
        )
    }

    /// A node without children.
    pub fn new(key: Vec<u8>, value: Vec<u8>) -> (tree: Tree)
        ensures
            tree == (Tree { key, value, left: None, right: None }),
    {
        Tree { key, value, left: None, right: None }
    }

    /// Attaches a child, if there is one, to the empty left slot (`true`) or to
    /// the empty right slot (`false`).
    pub fn attach(self, left: bool, child: Option<Tree>) -> (tree: Tree)
        requires
            self.link_view(left) is None,
        ensures
            tree.key == self.key,
            tree.value == self.value,
            tree.link_view(!left) == self.link_view(!left),
            match child {
                None => tree.link_view(left) is None,
                Some(child) => tree.link_view(left) matches Some(Link::Loaded { hash, tree: c })
                    && hash@ == child.hash_view() && *c == child,
            },
    {
        let link = match child {
            None => None,
            Some(child) => {
                let hash = child.hash();
                Some(Link::Loaded { hash, tree: Box::new(child) })
            },
        };
        if left {
            Tree { key: self.key, value: self.value, left: link, right: self.right }
        } else {
            Tree { key: self.key, value: self.value, left: self.left, right: link }
        }
    }

    /// The link to the left child (`true`) or to the right child (`false`).
    pub fn link(&self, left: bool) -> (link: Option<&Link>)
        ensures
            link == (match self.link_view(left) {
                None => None::<&Link>,
                Some(l) => Some(&l),
            }),
    {
        if left {
            self.left.as_ref()
        } else {
            self.right.as_ref()
        }
    }

    /// The hash of the node's key and value.
    pub fn kv_hash(&self) -> (hash: NodeHash)
        ensures
            hash@ == kv_hash_view(self.key@, self.value@),
    {
        kv_hash(self.key.as_slice(), self.value.as_slice())
    }

    /// The node hash, from the key, the value and the hashes in the links.
    pub fn hash(&self) -> (hash: NodeHash)
        ensures
            hash@ == self.hash_view(),
    {
        let kv = self.kv_hash();
        let left = match &self.left {
            Some(link) => *link.hash(),
            None => null_hash(),
        };
        let right = match &self.right {
            Some(link) => *link.hash(),
            None => null_hash(),
        };
        node_hash(&kv, &left, &right)
    }

    /// Makes sure that the child on the given side, if there is one, is in
    /// memory: a child that is in storage only is fetched from `source`.
    pub fn load_child<S: Fetch>(&mut self, left: bool, source: &S) -> (result: Result<(), FetchError>)
        ensures
            final(self).key == old(self).key,
            final(self).value == old(self).value,
            final(self).link_view(!left) == old(self).link_view(!left),
            match old(self).link_view(left) {
                Some(Link::Reference { key, hash }) => match result {
                    Ok(()) => {
                        &&& final(self).link_view(left) matches Some(
                            Link::Loaded { hash: loaded_hash, tree },
                        )
                        &&& loaded_hash == hash
                        &&& fetched(source, old(self).link_view(left)->0, Ok(*tree))
                    },
                    Err(e) => {
                        &&& fetched(source, old(self).link_view(left)->0, Err(e))
                        &&& *final(self) == *old(self)
                    },
                },
                _ => result is Ok && *final(self) == *old(self),
            },
            forall|depth: nat, edge: bool|
                depth > 0 || (left && edge) ==> #[trigger] loads(
                    source,
                    *old(self),
                    *final(self),
                    depth,
                    edge,
                ),
    {
        let ghost before = *self;
        proof {
            assert forall|depth: nat, edge: bool| #[trigger] loads(
                source,
                before,
                before,
                depth,
                edge,
            ) by {
                lemma_loads_reflexive(source, before, depth, edge);
            }
        }
        if left {
            match self.left.take() {
                Some(Link::Reference { key, hash }) => {
                    let link = Link::Reference { key, hash };
                    match source.fetch(&link) {
                        Ok(tree) => {
                            assert(fetched(source, link, Ok(tree)));
                            self.left = Some(Link::Loaded { hash, tree: Box::new(tree) });
                            proof {
                                lemma_loaded_child(source, before, *self, true);
                            }
                            Ok(())
                        },
                        Err(e) => {
                            assert(fetched(source, link, Err(e)));
                            self.left = Some(link);
                            Err(e)
                        },
                    }
                },
                other => {
                    self.left = other;
                    Ok(())
                },
            }
        } else {
            match self.right.take() {
                Some(Link::Reference { key, hash }) => {
                    let link = Link::Reference { key, hash };
                    match source.fetch(&link) {
                        Ok(tree) => {
                            assert(fetched(source, link, Ok(tree)));
                            self.right = Some(Link::Loaded { hash, tree: Box::new(tree) });
                            proof {
                                lemma_loaded_child(source, before, *self, false);
                            }
                            Ok(())
                        },
                        Err(e) => {
                            assert(fetched(source, link, Err(e)));
                            self.right = Some(link);
                            Err(e)
                        },
                    }
                },
                other => {
                    self.right = other;
                    Ok(())
                },
            }
        }
    }
}

/// Walks a tree in place, fetching from its source the nodes that are not in
/// memory.
pub struct RefWalker<'a, S: Fetch> {
    /// The node that the walker stands on.
    pub tree: &'a mut Tree,
    /// Where nodes that are not in memory come from.
    pub source: S,
}

impl<'a, S: Fetch> RefWalker<'a, S> {
    /// A walker that stands on `tree`.
    pub fn new(tree: &'a mut Tree, source: S) -> (walker: RefWalker<'a, S>)
        ensures
            *walker.tree == *old(tree),
            *final(walker.tree) == *final(tree),
            walker.source == source,
    {
        RefWalker { tree, source }
    }
}

/// The hash of a node is made of its key and value and of the hashes that its links
/// carry, the left one first, with zeros where there is no child.
pub proof fn law_hash_of_a_node(tree: Tree, left: Seq<u8>, right: Seq<u8>)
    requires
        match tree.left {
            None => left == Seq::new(32, |i: int| 0u8),
            Some(Link::Reference { key, hash }) => left == hash@,
            Some(Link::Loaded { hash, tree }) => left == hash@,
        },
        match tree.right {
            None => right == Seq::new(32, |i: int| 0u8),
            Some(Link::Reference { key, hash }) => right == hash@,
            Some(Link::Loaded { hash, tree }) => right == hash@,
        },
    ensures
        tree.hash_view() == node_hash_view(kv_hash_view(tree.key@, tree.value@), left, right),
{
    assert(null_hash_view() =~= Seq::new(32, |i: int| 0u8));
}

/// A link has the key and the hash of its child, be it in memory or not.
pub proof fn law_what_a_link_holds(link: Link)
    ensures
        match link {
            Link::Reference { key, hash } => link.key_view() == key@ && link_hash_view(Some(link))
                == hash@,
            Link::Loaded { hash, tree } => link.key_view() == tree.key@ && link_hash_view(
                Some(link),
            ) == hash@,
        },
{
}

/// The two links of a node are its left and its right one.
pub proof fn law_which_link_is_which(tree: Tree)
    ensures
        tree.link_view(true) == tree.left,
        tree.link_view(false) == tree.right,
{
}

} // verus!
