use vstd::prelude::*;
use vstd::string::StrSliceExecFns;

verus! {

/// Error raised when a key inserted into the trie is already a member.
#[derive(Debug, Clone, Copy, PartialEq, Eq, Structural)]
pub enum PatriciaError {
    KeyAlreadyExists,
}

/// A node of an ordered radix tree over strings. `prefix` is the substring
/// accumulated on the path from the parent to this node; `is_leaf` marks
/// that the concatenated prefixes from the root down to here spell exactly
/// one inserted key. No two sibling children share a first character, and
/// every child's prefix is non-empty.
#[derive(Debug)]
pub struct PatriciaNode {
    pub prefix: String,
    pub children: Vec<PatriciaNode>,
    pub is_leaf: bool,
}

/// Some child in `cs` spells `t`.
pub open spec fn spells_below(cs: Seq<PatriciaNode>, t: Seq<char>) -> bool
    decreases cs,
{
    exists|i: int| 0 <= i < cs.len() && (#[trigger] cs[i]).spells(t)
}

impl PatriciaNode {
    /// The subtree rooted here spells the complete key `key`: `key` starts
    /// with this node's prefix and the remainder is either empty at a
    /// terminal node or spelled by a child.
    pub open spec fn spells(self, key: Seq<char>) -> bool
        decreases self,
    {
        ||| (self.is_leaf && key == self.prefix@)
        ||| (self.prefix@.len() <= key.len() && key.take(self.prefix@.len() as int)
            == self.prefix@ && spells_below(
            self.children@,
            key.skip(self.prefix@.len() as int),
        ))
    }

    /// Radix-tree structural invariant: every child has a non-empty prefix,
    /// no two children start with the same character, and the children are
    /// themselves well formed.
    pub open spec fn wf(self) -> bool
        decreases self,
    {
        &&& (forall|i: int|
            0 <= i < self.children@.len() ==> (#[trigger] self.children@[i]).prefix@.len() > 0)
        &&& (forall|i: int| 0 <= i < self.children@.len() ==> (#[trigger] self.children@[i]).wf())
        &&& (forall|i: int, j: int|
            0 <= i < self.children@.len() && 0 <= j < self.children@.len() && i != j
                ==> self.children@[i].prefix@[0] != self.children@[j].prefix@[0])
    }
}

/// Whatever a node spells starts with the node's prefix.
proof fn lemma_spells_shape(node: PatriciaNode, s: Seq<char>)
    requires
        node.spells(s),
    ensures
        s.len() >= node.prefix@.len(),
        s.take(node.prefix@.len() as int) == node.prefix@,
        node.prefix@.len() > 0 ==> s.len() > 0 && s[0] == node.prefix@[0],
{
    if node.is_leaf && s == node.prefix@ {
        assert(s.take(node.prefix@.len() as int) =~= node.prefix@);
    }
    if node.prefix@.len() > 0 {
        assert(s[0] == s.take(node.prefix@.len() as int)[0]);
    }
}

/// Decomposition algebra for a prefix split `a + b` against a key `s`.
proof fn lemma_affix(a: Seq<char>, b: Seq<char>, s: Seq<char>)
    ensures
        (a.len() <= s.len() && s.take(a.len() as int) == a && s.skip(a.len() as int) == b) <==> s
            == a + b,
        (a.len() + b.len() <= s.len() && s.take((a.len() + b.len()) as int) == a + b) <==> (a.len()
            <= s.len() && s.take(a.len() as int) == a && b.len() <= s.skip(a.len() as int).len()
            && s.skip(a.len() as int).take(b.len() as int) == b),
        a.len() + b.len() <= s.len() ==> s.skip(a.len() as int).skip(b.len() as int) == s.skip(
            (a.len() + b.len()) as int,
        ),
{
    let al = a.len() as int;
    let bl = b.len() as int;
    if a.len() <= s.len() && s.take(al) == a && s.skip(al) == b {
        assert(s =~= a + b);
    }
    if s == a + b {
        assert(s.take(al) =~= a);
        assert(s.skip(al) =~= b);
    }
    if a.len() + b.len() <= s.len() && s.take(al + bl) == a + b {
        assert(s.take(al) =~= (a + b).take(al));
        assert((a + b).take(al) =~= a);
        assert forall|i: int| 0 <= i < bl implies s.skip(al)[i] == b[i] by {
            assert(s.skip(al)[i] == s[al + i]);
            assert(s.take(al + bl)[al + i] == s[al + i]);
            assert((a + b)[al + i] == b[i]);
        }
        assert(s.skip(al).take(bl) =~= b);
    }
    if a.len() <= s.len() && s.take(al) == a && b.len() <= s.skip(al).len() && s.skip(al).take(bl)
        == b {
        assert forall|i: int| 0 <= i < al + bl implies s.take(al + bl)[i] == (a + b)[i] by {
            if i < al {
                assert(s.take(al)[i] == s[i]);
            } else {
                assert(s.skip(al).take(bl)[i - al] == s.skip(al)[i - al]);
                assert(s.skip(al)[i - al] == s[i]);
            }
        }
        assert(s.take(al + bl) =~= a + b);
    }
    if a.len() + b.len() <= s.len() {
        assert(s.skip(al).skip(bl) =~= s.skip(al + bl));
    }
}

/// A node that keeps its prefix and terminality and whose children gain
/// exactly the suffix `rest` spells exactly one more key: prefix + rest.
proof fn lemma_extend_spells(pre: PatriciaNode, post: PatriciaNode, key: Seq<char>, rest: Seq<char>)
    requires
        post.prefix@ == pre.prefix@,
        post.is_leaf == pre.is_leaf,
        pre.prefix@.len() <= key.len(),
        key.take(pre.prefix@.len() as int) == pre.prefix@,
        key.skip(pre.prefix@.len() as int) == rest,
        forall|t: Seq<char>|
            spells_below(post.children@, t) <==> (spells_below(pre.children@, t) || t == rest),
    ensures
        forall|s: Seq<char>| post.spells(s) <==> (pre.spells(s) || s == key),
{
    let pl = pre.prefix@.len() as int;
    lemma_affix(pre.prefix@, rest, key);
    assert(key == pre.prefix@ + rest);
    assert forall|s: Seq<char>| post.spells(s) <==> (pre.spells(s) || s == key) by {
        lemma_affix(pre.prefix@, rest, s);
        let t = s.skip(pl);
        if post.spells(s) {
            if post.is_leaf && s == post.prefix@ {
                assert(pre.spells(s));
            } else {
                assert(spells_below(post.children@, t));
                if spells_below(pre.children@, t) {
                    assert(pre.spells(s));
                } else {
                    assert(t == rest);
                    assert(s == key);
                }
            }
        }
        if pre.spells(s) {
            if pre.is_leaf && s == pre.prefix@ {
                assert(post.spells(s));
            } else {
                assert(spells_below(pre.children@, t));
                assert(spells_below(post.children@, t));
                assert(post.spells(s));
            }
        }
        if s == key {
            assert(s.take(pl) == pre.prefix@ && s.skip(pl) == rest);
            assert(spells_below(post.children@, t));
            assert(post.spells(s));
        }
    }
}

/// Length of the longest common character prefix of `a` and `b`.
fn common_prefix_len(a: &str, b: &str) -> (m: usize)
    ensures
        m <= a@.len() && m <= b@.len(),
        forall|j: int| 0 <= j < m ==> a@[j] == b@[j],
        m < a@.len() && m < b@.len() ==> a@[m as int] != b@[m as int],
{
    let alen = a.unicode_len();
    let blen = b.unicode_len();
    let mut i: usize = 0;
    while i < alen && i < blen
        invariant
            alen == a@.len(),
            blen == b@.len(),
            i <= alen && i <= blen,
            forall|j: int| 0 <= j < i ==> a@[j] == b@[j],
        decreases alen - i,
    {
        if a.get_char(i) != b.get_char(i) {
            return i;
        }
        i += 1;
    }
    i
}

/// Index of the child whose prefix starts with `c`, if one exists.
fn child_index(children: &Vec<PatriciaNode>, c: char) -> (r: Option<usize>)
    requires
        forall|i: int| 0 <= i < children@.len() ==> (#[trigger] children@[i]).prefix@.len() > 0,
    ensures
        r matches Some(j) ==> j < children@.len() && children@[j as int].prefix@[0] == c,
        r is None ==> forall|i: int|
            0 <= i < children@.len() ==> (#[trigger] children@[i]).prefix@[0] != c,
{
    let n = children.len();
    let mut i: usize = 0;
    while i < n
        invariant
            n == children@.len(),
            i <= n,
            forall|i: int| 0 <= i < children@.len() ==> (#[trigger] children@[i]).prefix@.len() > 0,
            forall|j: int| 0 <= j < i ==> (#[trigger] children@[j]).prefix@[0] != c,
        decreases n - i,
    {
        if children[i].prefix.as_str().get_char(0) == c {
            return Some(i);
        }
        i += 1;
    }
    None
}

impl PatriciaNode {
    /// A fresh single-node trie whose only key is `prefix`.
    pub fn new(prefix: &str) -> (node: Self)
        ensures
            node.wf(),
            node.prefix@ == prefix@,
            node.is_leaf,
            node.children@.len() == 0,
            forall|s: Seq<char>| node.spells(s) <==> s == prefix@,
    {
        let node = PatriciaNode { prefix: prefix.to_owned(), children: Vec::new(), is_leaf: true };
        proof {
            assert forall|s: Seq<char>| node.spells(s) <==> s == prefix@ by {
                if node.spells(s) && s != prefix@ {
                    assert(spells_below(node.children@, s.skip(node.prefix@.len() as int)));
                    assert(false);
                }
                if s == prefix@ {
                    assert(node.spells(s));
                }
            }
        }
        node
    }

    /// Exact membership: true iff `key` was previously inserted (spelled by
    /// a terminal node).
    pub fn search(&self, key: &str) -> (found: bool)
        requires
            self.wf(),
        ensures
            found == self.spells(key@),
        decreases *self,
    {
        let plen = self.prefix.as_str().unicode_len();
        let klen = key.unicode_len();
        let m = common_prefix_len(self.prefix.as_str(), key);
        if m < plen {
            proof {
                if self.spells(key@) {
                    lemma_spells_shape(*self, key@);
                    assert(key@[m as int] == key@.take(plen as int)[m as int]);
                    assert(false);
                }
            }
            return false;
        }
        proof {
            if plen <= klen {
                assert(key@.take(plen as int) =~= self.prefix@);
            }
        }
        if klen == plen {
            proof {
                assert(key@ =~= self.prefix@);
                if spells_below(self.children@, key@.skip(plen as int)) {
                    let i = choose|i: int|
                        0 <= i < self.children@.len() && (#[trigger] self.children@[i]).spells(
                            key@.skip(plen as int),
                        );
                    lemma_spells_shape(self.children@[i], key@.skip(plen as int));
                    assert(false);
                }
            }
            return self.is_leaf;
        }
        // the node's prefix is a proper prefix of the key
        let rest = key.substring_char(m, klen);
        proof {
            assert(rest@ =~= key@.skip(plen as int));
        }
        let c = key.get_char(m);
        match child_index(&self.children, c) {
            Some(j) => {
                proof {
                    assert(decreases_to!(*self => self.children));
                    assert(decreases_to!(self.children => self.children[j as int]));
                }
                let found = self.children[j].search(rest);
                proof {
                    if self.spells(key@) {
                        assert(spells_below(self.children@, key@.skip(plen as int)));
                        let i = choose|i: int|
                            0 <= i < self.children@.len() && (#[trigger] self.children@[i]).spells(
                                key@.skip(plen as int),
                            );
                        lemma_spells_shape(self.children@[i], key@.skip(plen as int));
                        assert(key@.skip(plen as int)[0] == key@[plen as int]);
                        assert(self.children@[i].prefix@[0] == c);
                        assert(i == j as int);
                        assert(found);
                    }
                    if found {
                        assert(spells_below(self.children@, key@.skip(plen as int)));
                        assert(self.spells(key@));
                    }
                }
                found
            },
            None => {
                proof {
                    if self.spells(key@) {
                        assert(spells_below(self.children@, key@.skip(plen as int)));
                        let i = choose|i: int|
                            0 <= i < self.children@.len() && (#[trigger] self.children@[i]).spells(
                                key@.skip(plen as int),
                            );
                        lemma_spells_shape(self.children@[i], key@.skip(plen as int));
                        assert(key@.skip(plen as int)[0] == key@[plen as int]);
                        assert(false);
                    }
                }
                false
            },
        }
    }

    /// Adds `key` to the set of keys. Fails with `KeyAlreadyExists`, leaving
    /// the trie untouched, iff `key` is already a member; on success exactly
    /// `key` becomes spelled and nothing else changes.
    pub fn insert(&mut self, key: &str) -> (r: Result<(), PatriciaError>)
        requires
            old(self).wf(),
        ensures
            final(self).wf(),
            r is Ok <==> !old(self).spells(key@),
            r is Err ==> *final(self) == *old(self),
            forall|s: Seq<char>| final(self).spells(s) <==> (old(self).spells(s) || s == key@),
    {
        if self.search(key) {
            return Err(PatriciaError::KeyAlreadyExists);
        }
        self.insert_new(key);
        Ok(())
    }

    /// Insertion worker for a key known not to be a member yet.
    fn insert_new(&mut self, key: &str)
        requires
            old(self).wf(),
            !old(self).spells(key@),
        ensures
            final(self).wf(),
            forall|s: Seq<char>| final(self).spells(s) <==> (old(self).spells(s) || s == key@),
            final(self).prefix@ == old(self).prefix@.take(final(self).prefix@.len() as int),
            (key@.len() > 0 && old(self).prefix@.len() > 0 && key@[0] == old(self).prefix@[0])
                ==> final(self).prefix@.len() > 0,
        decreases *old(self),
    {
        let plen = self.prefix.as_str().unicode_len();
        let klen = key.unicode_len();
        let m = common_prefix_len(self.prefix.as_str(), key);
        if m == plen && m == klen {
            // the key equals this node's full path: mark it terminal
            proof {
                assert(key@ =~= self.prefix@);
                assert(!self.is_leaf) by {
                    if self.is_leaf {
                        assert(old(self).spells(key@));
                    }
                }
            }
            self.is_leaf = true;
            proof {
                assert(self.children@ == old(self).children@);
                assert(key@ == self.prefix@);
                assert forall|s: Seq<char>|
                    self.spells(s) <==> (old(self).spells(s) || s == key@) by {
                    if s == key@ {
                        assert(self.spells(s));
                    }
                    if old(self).spells(s) {
                        assert(self.spells(s));
                    }
                    if self.spells(s) && s != key@ {
                        assert(old(self).spells(s));
                    }
                }
                assert(self.prefix@.take(self.prefix@.len() as int) =~= self.prefix@);
                assert(self.wf());
            }
        } else if m == plen {
            // the key extends this node's prefix: descend or add a leaf child
            let rest = key.substring_char(m, klen);
            proof {
                assert(key@.take(plen as int) =~= self.prefix@);
                assert(rest@ =~= key@.skip(plen as int));
                assert(rest@[0] == key@[plen as int]);
            }
            let c = key.get_char(m);
            let ghost pre = *self;
            match child_index(&self.children, c) {
                Some(j) => {
                    proof {
                        if pre.children@[j as int].spells(rest@) {
                            assert(spells_below(pre.children@, key@.skip(plen as int)));
                            assert(pre.spells(key@));
                            assert(false);
                        }
                        assert(decreases_to!(*old(self) => old(self).children));
                        assert(decreases_to!(
                            old(self).children => old(self).children[j as int]));
                    }
                    let mut child = self.children.remove(j);
                    child.insert_new(rest);
                    let ghost newchild = child;
                    self.children.insert(j, child);
                    proof {
                        assert(self.children@ =~= pre.children@.update(j as int, newchild));
                        assert(newchild.prefix@.len() > 0 && newchild.prefix@[0] == c) by {
                            assert(pre.children@[j as int].prefix@[0] == c);
                            assert(newchild.prefix@[0] == pre.children@[j as int].prefix@.take(
                                newchild.prefix@.len() as int,
                            )[0]);
                        }
                        assert forall|t: Seq<char>|
                            spells_below(self.children@, t) <==> (spells_below(pre.children@, t)
                                || t == rest@) by {
                            if spells_below(self.children@, t) {
                                let i = choose|i: int|
                                    0 <= i < self.children@.len() && (
                                    #[trigger] self.children@[i]).spells(t);
                                if i == j as int {
                                    assert(newchild.spells(t));
                                } else {
                                    assert(self.children@[i] == pre.children@[i]);
                                    assert(spells_below(pre.children@, t));
                                }
                            }
                            if spells_below(pre.children@, t) {
                                let i = choose|i: int|
                                    0 <= i < pre.children@.len() && (
                                    #[trigger] pre.children@[i]).spells(t);
                                if i == j as int {
                                    assert(newchild.spells(t));
                                    assert(self.children@[i].spells(t));
                                } else {
                                    assert(self.children@[i].spells(t));
                                }
                                assert(spells_below(self.children@, t));
                            }
                            if t == rest@ {
                                assert(newchild.spells(t));
                                assert(self.children@[j as int].spells(t));
                                assert(spells_below(self.children@, t));
                            }
                        }
                        lemma_extend_spells(pre, *self, key@, rest@);
                        assert forall|i: int|
                            0 <= i < self.children@.len() implies ((
                        #[trigger] self.children@[i]).prefix@.len() > 0
                            && self.children@[i].wf()) by {
                            if i != j as int {
                                assert(self.children@[i] == pre.children@[i]);
                            }
                        }
                        assert forall|i: int, l: int|
                            0 <= i < self.children@.len() && 0 <= l < self.children@.len() && i
                                != l implies self.children@[i].prefix@[0]
                            != self.children@[l].prefix@[0] by {
                            if i == j as int {
                                assert(self.children@[l] == pre.children@[l]);
                                assert(pre.children@[j as int].prefix@[0] == c);
                            } else if l == j as int {
                                assert(self.children@[i] == pre.children@[i]);
                                assert(pre.children@[j as int].prefix@[0] == c);
                            } else {
                                assert(self.children@[i] == pre.children@[i]);
                                assert(self.children@[l] == pre.children@[l]);
                            }
                        }
                        assert(self.wf());
                        assert(self.prefix@.take(self.prefix@.len() as int) =~= self.prefix@);
                    }
                },
                None => {
                    let node = PatriciaNode::new(rest);
                    let ghost leafnode = node;
                    self.children.push(node);
                    proof {
                        assert(self.children@ =~= pre.children@.push(leafnode));
                        assert forall|t: Seq<char>|
                            spells_below(self.children@, t) <==> (spells_below(pre.children@, t)
                                || t == rest@) by {
                            if spells_below(self.children@, t) {
                                let i = choose|i: int|
                                    0 <= i < self.children@.len() && (
                                    #[trigger] self.children@[i]).spells(t);
                                if i == pre.children@.len() {
                                    assert(leafnode.spells(t));
                                    assert(t == rest@);
                                } else {
                                    assert(self.children@[i] == pre.children@[i]);
                                    assert(spells_below(pre.children@, t));
                                }
                            }
                            if spells_below(pre.children@, t) {
                                let i = choose|i: int|
                                    0 <= i < pre.children@.len() && (
                                    #[trigger] pre.children@[i]).spells(t);
                                assert(self.children@[i].spells(t));
                                assert(spells_below(self.children@, t));
                            }
                            if t == rest@ {
                                assert(leafnode.spells(t));
                                assert(self.children@[pre.children@.len() as int].spells(t));
                                assert(spells_below(self.children@, t));
                            }
                        }
                        lemma_extend_spells(pre, *self, key@, rest@);
                        assert forall|i: int|
                            0 <= i < self.children@.len() implies ((
                        #[trigger] self.children@[i]).prefix@.len() > 0
                            && self.children@[i].wf()) by {
                            if i < pre.children@.len() {
                                assert(self.children@[i] == pre.children@[i]);
                            } else {
                                assert(self.children@[i] == leafnode);
                            }
                        }
                        assert forall|i: int, l: int|
                            0 <= i < self.children@.len() && 0 <= l < self.children@.len() && i
                                != l implies self.children@[i].prefix@[0]
                            != self.children@[l].prefix@[0] by {
                            assert(leafnode.prefix@[0] == c);
                            if i < pre.children@.len() && l < pre.children@.len() {
                                assert(self.children@[i] == pre.children@[i]);
                                assert(self.children@[l] == pre.children@[l]);
                            } else if i < pre.children@.len() {
                                assert(self.children@[i] == pre.children@[i]);
                                assert(pre.children@[i].prefix@[0] != c);
                            } else {
                                assert(l < pre.children@.len());
                                assert(self.children@[l] == pre.children@[l]);
                                assert(pre.children@[l].prefix@[0] != c);
                            }
                        }
                        assert(self.wf());
                        assert(self.prefix@.take(self.prefix@.len() as int) =~= self.prefix@);
                    }
                },
            }
        } else {
            // the prefix must be split at the divergence point `m`
            let head: String = self.prefix.as_str().substring_char(0, m).to_owned();
            let tail: String = self.prefix.as_str().substring_char(m, plen).to_owned();
            let ghost pre = *self;
            let mut kids: Vec<PatriciaNode> = Vec::new();
            core::mem::swap(&mut self.children, &mut kids);
            let was_leaf = self.is_leaf;
            let mid = PatriciaNode { prefix: tail, children: kids, is_leaf: was_leaf };
            let ghost midg = mid;
            let mut newkids: Vec<PatriciaNode> = Vec::new();
            newkids.push(mid);
            proof {
                assert(head@ =~= pre.prefix@.take(m as int));
                assert(head@.len() == m);
                assert(midg.prefix@ =~= pre.prefix@.skip(m as int));
                assert(pre.prefix@ == head@ + midg.prefix@) by {
                    assert(pre.prefix@ =~= head@ + midg.prefix@);
                }
                assert(midg.children@ == pre.children@);
                assert(midg.wf());
                assert forall|s: Seq<char>|
                    (head@.len() <= s.len() && s.take(head@.len() as int) == head@ && midg.spells(
                        s.skip(head@.len() as int),
                    )) <==> pre.spells(s) by {
                    lemma_affix(head@, midg.prefix@, s);
                    if pre.spells(s) {
                        lemma_spells_shape(pre, s);
                        assert(s.take(m as int) =~= head@);
                    }
                }
            }
            if m == klen {
                // the key is a proper prefix of this node's path: the node
                // keeps the key as its own terminal path
                self.prefix = head;
                self.children = newkids;
                self.is_leaf = true;
                proof {
                    assert(key@ =~= pre.prefix@.take(m as int));
                    assert(self.prefix@ == key@);
                    assert(self.children@ =~= seq![midg]);
                    assert forall|s: Seq<char>|
                        self.spells(s) <==> (pre.spells(s) || s == key@) by {
                        let t = s.skip(m as int);
                        if self.spells(s) && s != self.prefix@ {
                            assert(spells_below(self.children@, t));
                            let i = choose|i: int|
                                0 <= i < self.children@.len() && (
                                #[trigger] self.children@[i]).spells(t);
                            assert(self.children@[i] == midg);
                            assert(pre.spells(s));
                        }
                        if pre.spells(s) {
                            assert(midg.spells(t));
                            assert(self.children@[0] == midg);
                            assert(spells_below(self.children@, t));
                            assert(self.spells(s));
                        }
                        if s == key@ {
                            assert(self.spells(s));
                        }
                    }
                    assert(self.prefix@ == pre.prefix@.take(self.prefix@.len() as int));
                    assert(self.wf()) by {
                        assert(self.children@.len() == 1);
                        assert(self.children@[0] == midg);
                    }
                }
            } else {
                // the key and the prefix diverge at `m`: two children
                let krest = key.substring_char(m, klen);
                let leafchild = PatriciaNode::new(krest);
                let ghost leafg = leafchild;
                newkids.push(leafchild);
                self.prefix = head;
                self.children = newkids;
                self.is_leaf = false;
                proof {
                    assert(krest@ =~= key@.skip(m as int));
                    assert(self.children@ =~= seq![midg, leafg]);
                    assert(key@.take(m as int) =~= head@);
                    lemma_affix(head@, krest@, key@);
                    assert(key@ == head@ + krest@) by {
                        assert(key@ =~= head@ + krest@);
                    }
                    assert(midg.prefix@[0] == pre.prefix@[m as int]);
                    assert(leafg.prefix@[0] == key@[m as int]);
                    assert forall|s: Seq<char>|
                        self.spells(s) <==> (pre.spells(s) || s == key@) by {
                        lemma_affix(head@, krest@, s);
                        let t = s.skip(m as int);
                        if self.spells(s) {
                            assert(spells_below(self.children@, t));
                            let i = choose|i: int|
                                0 <= i < self.children@.len() && (
                                #[trigger] self.children@[i]).spells(t);
                            if i == 0 {
                                assert(midg.spells(t));
                                assert(pre.spells(s));
                            } else {
                                assert(self.children@[i] == leafg);
                                assert(t == krest@);
                                assert(s == key@);
                            }
                        }
                        if pre.spells(s) {
                            assert(midg.spells(t));
                            assert(self.children@[0] == midg);
                            assert(spells_below(self.children@, t));
                            assert(self.spells(s));
                        }
                        if s == key@ {
                            assert(leafg.spells(t));
                            assert(self.children@[1] == leafg);
                            assert(spells_below(self.children@, t));
                            assert(self.spells(s));
                        }
                    }
                    assert(self.prefix@ == pre.prefix@.take(self.prefix@.len() as int));
                    assert(self.wf()) by {
                        assert(self.children@.len() == 2);
                        assert(self.children@[0] == midg);
                        assert(self.children@[1] == leafg);
                        assert(midg.prefix@[0] != leafg.prefix@[0]);
                    }
                }
            }
        }
    }
}

} // verus!
