//! Paths of subtrees: order, equality, copying and sets.
use crate::bytes::{
    bytes_equal, bytes_less, copy_bytes, lemma_lex_irreflexive, lemma_lex_total,
    lemma_lex_transitive, lex_less,
};
use vstd::prelude::*;

verus! {

/// A path as byte strings.
pub open spec fn path_view(path: Seq<Vec<u8>>) -> Seq<Seq<u8>> {
    Seq::new(path.len(), |i: int| path[i]@)
}

/// Whether two paths agree on their first `k` parts and `a` has the smaller
/// part at position `k`.
pub open spec fn path_less_at(a: Seq<Seq<u8>>, b: Seq<Seq<u8>>, k: int) -> bool {
    &&& 0 <= k < a.len()
    &&& k < b.len()
    &&& forall|i: int| 0 <= i < k ==> a[i] == b[i]
    &&& lex_less(a[k], b[k])
}

/// The order on paths: shallow ones first, and paths of one depth in
/// lexicographic order.
pub open spec fn path_less(a: Seq<Seq<u8>>, b: Seq<Seq<u8>>) -> bool {
    a.len() < b.len() || (a.len() == b.len() && exists|k: int| path_less_at(a, b, k))
}

/// No path is below itself.
pub proof fn lemma_path_irreflexive(a: Seq<Seq<u8>>)
    ensures
        !path_less(a, a),
{
    if path_less(a, a) {
        let k = choose|k: int| path_less_at(a, a, k);
        lemma_lex_irreflexive(a[k]);
    }
}

/// The order on paths is transitive.
pub proof fn lemma_path_transitive(a: Seq<Seq<u8>>, b: Seq<Seq<u8>>, c: Seq<Seq<u8>>)
    requires
        path_less(a, b),
        path_less(b, c),
    ensures
        path_less(a, c),
{
    if a.len() == b.len() && b.len() == c.len() {
        let i = choose|k: int| path_less_at(a, b, k);
        let j = choose|k: int| path_less_at(b, c, k);
        let m = if i <= j {
            i
        } else {
            j
        };
        if i == j {
            lemma_lex_transitive(a[i], b[i], c[i]);
        }
        assert(path_less_at(a, c, m));
    }
}

/// At most one of two paths is below the other.
pub proof fn lemma_path_asymmetric(a: Seq<Seq<u8>>, b: Seq<Seq<u8>>)
    requires
        path_less(a, b),
    ensures
        !path_less(b, a),
        a != b,
{
    if path_less(b, a) {
        lemma_path_transitive(a, b, a);
    }
    lemma_path_irreflexive(a);
}

/// Two paths, neither of which is below the other, are equal.
pub proof fn lemma_path_total(a: Seq<Seq<u8>>, b: Seq<Seq<u8>>)
    ensures
        path_less(a, b) || a == b || path_less(b, a),
{
    if a.len() == b.len() && a != b {
        let k = lemma_first_different_part(a, b, a.len());
        if k == a.len() {
            assert(a =~= b);
        } else {
            lemma_lex_total(a[k as int], b[k as int]);
            if lex_less(a[k as int], b[k as int]) {
                assert(path_less_at(a, b, k as int));
            } else {
                assert(path_less_at(b, a, k as int));
            }
        }
    }
}

/// The first position below `m` at which two paths differ, or `m`.
proof fn lemma_first_different_part(a: Seq<Seq<u8>>, b: Seq<Seq<u8>>, m: nat) -> (k: nat)
    requires
        m <= a.len(),
        m <= b.len(),
    ensures
        k <= m,
        forall|i: int| 0 <= i < k ==> a[i] == b[i],
        k < m ==> a[k as int] != b[k as int],
    decreases m,
{
    if m == 0 {
        0
    } else {
        let k = lemma_first_different_part(a, b, (m - 1) as nat);
        if k < m - 1 {
            k
        } else if a[m - 1] == b[m - 1] {
            m
        } else {
            (m - 1) as nat
        }
    }
}

/// Shallow paths come first, whatever their parts.
pub proof fn law_shallow_paths_come_first(a: Seq<Seq<u8>>, b: Seq<Seq<u8>>)
    ensures
        a.len() < b.len() ==> path_less(a, b) && !path_less(b, a),
{
}

/// Paths of one depth come in the order of the first parts in which they differ.
pub proof fn law_paths_of_one_depth(a: Seq<Seq<u8>>, b: Seq<Seq<u8>>, k: int)
    requires
        a.len() == b.len(),
        0 <= k < a.len(),
        a.take(k) == b.take(k),
        a[k] != b[k],
    ensures
        path_less(a, b) <==> lex_less(a[k], b[k]),
{
    assert forall|i: int| 0 <= i < k implies a[i] == b[i] by {
        assert(a.take(k)[i] == b.take(k)[i]);
    }
    if lex_less(a[k], b[k]) {
        assert(path_less_at(a, b, k));
    }
    if path_less(a, b) {
        let j = choose|j: int| path_less_at(a, b, j);
        if j < k {
            lemma_lex_irreflexive(a[j]);
        }
    }
}

/// Whether `a` comes before `b`.
pub fn path_before(a: &[Vec<u8>], b: &[Vec<u8>]) -> (before: bool)
    ensures
        before == path_less(path_view(a@), path_view(b@)),
{
    let ghost av = path_view(a@);
    let ghost bv = path_view(b@);
    if a.len() != b.len() {
        return a.len() < b.len();
    }
    let mut i: usize = 0;
    while i < a.len()
        invariant
            i <= a@.len(),
            a@.len() == b@.len(),
            av == path_view(a@),
            bv == path_view(b@),
            forall|j: int| 0 <= j < i ==> av[j] == bv[j],
        decreases a@.len() - i,
    {
        if bytes_less(a[i].as_slice(), b[i].as_slice()) {
            assert(path_less_at(av, bv, i as int));
            return true;
        }
        if bytes_less(b[i].as_slice(), a[i].as_slice()) {
            assert(path_less_at(bv, av, i as int));
            proof {
                lemma_path_asymmetric(bv, av);
            }
            return false;
        }
        proof {
            lemma_lex_total(av[i as int], bv[i as int]);
        }
        i = i + 1;
    }
    assert(av =~= bv);
    proof {
        lemma_path_irreflexive(av);
    }
    false
}

/// Whether two paths are equal.
pub fn paths_equal(a: &[Vec<u8>], b: &[Vec<u8>]) -> (equal: bool)
    ensures
        equal == (path_view(a@) == path_view(b@)),
{
    let ghost av = path_view(a@);
    let ghost bv = path_view(b@);
    if a.len() != b.len() {
        assert(av.len() != bv.len());
        return false;
    }
    let mut i: usize = 0;
    while i < a.len()
        invariant
            i <= a@.len(),
            a@.len() == b@.len(),
            av == path_view(a@),
            bv == path_view(b@),
            forall|j: int| 0 <= j < i ==> av[j] == bv[j],
        decreases a@.len() - i,
    {
        if !bytes_equal(a[i].as_slice(), b[i].as_slice()) {
            assert(av[i as int] != bv[i as int]);
            return false;
        }
        i = i + 1;
    }
    assert(av =~= bv);
    true
}

/// A copy of a path.
pub fn copy_path(path: &[Vec<u8>]) -> (copy: Vec<Vec<u8>>)
    ensures
        path_view(copy@) == path_view(path@),
{
    let mut copy: Vec<Vec<u8>> = Vec::new();
    let mut i: usize = 0;
    while i < path.len()
        invariant
            i <= path@.len(),
            copy@.len() == i,
            forall|j: int| 0 <= j < i ==> (#[trigger] copy@[j])@ == path@[j]@,
        decreases path@.len() - i,
    {
        copy.push(copy_bytes(path[i].as_slice()));
        i = i + 1;
    }
    assert(path_view(copy@) =~= path_view(path@));
    copy
}

/// The path of what lies under `key` in the subtree at `path`.
pub fn child_path(path: &[Vec<u8>], key: &[u8]) -> (child: Vec<Vec<u8>>)
    ensures
        path_view(child@) == path_view(path@).push(key@),
{
    let mut child = copy_path(path);
    let ghost before = path_view(child@);
    child.push(copy_bytes(key));
    assert(path_view(child@) =~= before.push(key@));
    child
}

/// The path of the subtree that holds what lies at `path`, and the key that it
/// lies under.
pub fn split_path(path: &[Vec<u8>]) -> (split: (Vec<Vec<u8>>, Vec<u8>))
    requires
        path@.len() > 0,
    ensures
        path_view(split.0@) == path_view(path@).drop_last(),
        split.1@ == path_view(path@).last(),
{
    let mut parent = copy_path(path);
    let ghost whole = path_view(parent@);
    assert(whole.len() == parent@.len());
    let ghost parts = parent@;
    let key = parent.pop();
    assert(path_view(parent@) =~= whole.drop_last());
    match key {
        Some(key) => {
            assert(whole.last() == parts.last()@);
            (parent, key)
        },
        None => (parent, Vec::new()),
    }
}

/// A set of paths, each of which is held once.
#[derive(Debug)]
pub struct PathSet {
    paths: Vec<Vec<Vec<u8>>>,
}

impl View for PathSet {
    type V = Set<Seq<Seq<u8>>>;

    closed spec fn view(&self) -> Set<Seq<Seq<u8>>> {
        Set::new(|path: Seq<Seq<u8>>| exists|i: int|
            0 <= i < self.paths@.len() && path_view((#[trigger] self.paths@[i])@) == path)
    }
}

impl PathSet {
    /// Whether no path is held twice.
    pub closed spec fn well_formed(self) -> bool {
        forall|i: int, j: int|
            0 <= i < j < self.paths@.len() ==> path_view((#[trigger] self.paths@[i])@) != path_view(
                (#[trigger] self.paths@[j])@,
            )
    }

    /// The empty set.
    pub fn new() -> (set: PathSet)
        ensures
            set.well_formed(),
            set@ == Set::<Seq<Seq<u8>>>::empty(),
    {
        let set = PathSet { paths: Vec::new() };
        assert(set@ =~= Set::<Seq<Seq<u8>>>::empty());
        set
    }

    /// Where the set holds a path, if it does.
    fn find(&self, path: &[Vec<u8>]) -> (found: Option<usize>)
        ensures
            match found {
                Some(i) => i < self.paths@.len() && path_view(self.paths@[i as int]@) == path_view(
                    path@,
                ),
                None => !self@.contains(path_view(path@)),
            },
    {
        let mut i: usize = 0;
        while i < self.paths.len()
            invariant
                i <= self.paths@.len(),
                forall|j: int|
                    0 <= j < i ==> path_view((#[trigger] self.paths@[j])@) != path_view(path@),
            decreases self.paths@.len() - i,
        {
            if paths_equal(self.paths[i].as_slice(), path) {
                return Some(i);
            }
            i = i + 1;
        }
        None
    }

    /// Whether the set holds a path.
    pub fn contains(&self, path: &[Vec<u8>]) -> (contains: bool)
        ensures
            contains == self@.contains(path_view(path@)),
    {
        self.find(path).is_some()
    }

    /// Adds a path.
    pub fn insert(&mut self, path: Vec<Vec<u8>>)
        requires
            old(self).well_formed(),
        ensures
            final(self).well_formed(),
            final(self)@ == old(self)@.insert(path_view(path@)),
    {
        if self.find(path.as_slice()).is_none() {
            let ghost before = self.paths@;
            let ghost added = path_view(path@);
            let ghost old_set = self@;
            self.paths.push(path);
            proof {
                let now = self.paths@;
                assert forall|p: Seq<Seq<u8>>| self@.contains(p) == old_set.insert(added).contains(
                    p,
                ) by {
                    if old_set.contains(p) {
                        let i = choose|i: int|
                            0 <= i < before.len() && path_view((#[trigger] before[i])@) == p;
                        assert(path_view(now[i]@) == p);
                    }
                    if p == added {
                        assert(path_view(now[before.len() as int]@) == p);
                    }
                    if self@.contains(p) && p != added {
                        let i = choose|i: int|
                            0 <= i < now.len() && path_view((#[trigger] now[i])@) == p;
                        assert(path_view(before[i]@) == p);
                    }
                }
                assert(self@ =~= old_set.insert(added));
                assert forall|i: int, j: int| 0 <= i < j < now.len() implies path_view(
                    (#[trigger] now[i])@,
                ) != path_view((#[trigger] now[j])@) by {
                    assert(path_view(before[i]@) == path_view(now[i]@));
                    if j < before.len() {
                        assert(path_view(before[j]@) == path_view(now[j]@));
                    }
                }
            }
        } else {
            assert(self@ =~= self@.insert(path_view(path@)));
        }
    }

    /// Removes a path, if it is there.
    pub fn remove(&mut self, path: &[Vec<u8>])
        requires
            old(self).well_formed(),
        ensures
            final(self).well_formed(),
            final(self)@ == old(self)@.remove(path_view(path@)),
    {
        match self.find(path) {
            Some(i) => {
                let ghost before = self.paths@;
                let ghost removed = path_view(path@);
                let ghost old_set = self@;
                self.paths.swap_remove(i);
                proof {
                    let now = self.paths@;
                    let last = before.len() - 1;
                    assert forall|j: int| 0 <= j < now.len() implies path_view(
                        (#[trigger] now[j])@,
                    ) == path_view(before[if j == i { last } else { j }]@) by {}
                    assert forall|p: Seq<Seq<u8>>| self@.contains(p) == old_set.remove(
                        removed,
                    ).contains(p) by {
                        if self@.contains(p) {
                            let j = choose|j: int|
                                0 <= j < now.len() && path_view((#[trigger] now[j])@) == p;
                            let k = if j == i {
                                last
                            } else {
                                j
                            };
                            assert(path_view(before[k]@) == p);
                            assert(path_view(before[i as int]@) == removed);
                        }
                        if old_set.contains(p) && p != removed {
                            let k = choose|k: int|
                                0 <= k < before.len() && path_view((#[trigger] before[k])@) == p;
                            let j = if k == last {
                                i as int
                            } else {
                                k
                            };
                            assert(path_view(now[j]@) == p);
                        }
                    }
                    assert(self@ =~= old_set.remove(removed));
                    assert forall|a: int, b: int| 0 <= a < b < now.len() implies path_view(
                        (#[trigger] now[a])@,
                    ) != path_view((#[trigger] now[b])@) by {
                        let x = if a == i {
                            last
                        } else {
                            a
                        };
                        let y = if b == i {
                            last
                        } else {
                            b
                        };
                        assert(path_view(before[x]@) == path_view(now[a]@));
                        assert(path_view(before[y]@) == path_view(now[b]@));
                    }
                }
            },
            None => {
                assert(self@ =~= self@.remove(path_view(path@)));
            },
        }
    }
}

/// A path in memory shows its parts, one for one.
pub proof fn law_what_a_path_holds(path: Seq<Vec<u8>>, i: int)
    requires
        0 <= i < path.len(),
    ensures
        path_view(path).len() == path.len(),
        path_view(path)[i] == path[i]@,
{
}

} // verus!
