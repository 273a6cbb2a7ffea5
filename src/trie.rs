use std::sync::Arc;
use vstd::prelude::*;

use crate::node::{
    code_of, lemma_children_well_formed, lemma_descend_cons, lemma_empty_node_lookup,
    lemma_holds_value_from_children,
    lemma_unused_path_unreachable, lemma_well_formed_from_parts, lemma_well_formed_top, Node,
};
use crate::value::Value;

verus! {

broadcast use {vstd::std_specs::hash::group_hash_axioms, crate::node::lemma_code_injective};

/// One version of the trie: an optional shared root.
pub struct Trie {
    root: Option<Arc<Node>>,
}

/// The characters of `key`, in order.
fn key_chars(key: &str) -> (r: Vec<char>)
    ensures
        r@ == key@,
{
    let mut v: Vec<char> = Vec::new();
    for c in it: key.chars()
        invariant
            it.seq() == key@,
            v@ == key@.take(it.index() as int),
    {
        v.push(c);
    }
    v
}

/// `s` is what remains of `key` after its first `depth` characters.
spec fn is_rest(s: Seq<char>, key: Seq<char>, depth: int) -> bool {
    s == key.skip(depth)
}

/// A non-empty `s` is the rest of `key` from `depth` exactly when its first
/// character is `key[depth]` and the others are the rest from `depth + 1`.
proof fn lemma_rest_cons(s: Seq<char>, key: Seq<char>, depth: int)
    requires
        0 <= depth < key.len(),
        s.len() > 0,
    ensures
        is_rest(s, key, depth) <==> (s[0] == key[depth] && is_rest(s.drop_first(), key, depth + 1)),
{
    assert(key.skip(depth) =~= seq![key[depth]] + key.skip(depth + 1));
    assert(s =~= seq![s[0]] + s.drop_first());
    if is_rest(s, key, depth) {
        assert(s.drop_first() =~= key.skip(depth + 1));
    }
}

/// A fresh chain of nodes for the characters of `key` from `depth` on,
/// ending in a node that holds `value`.
fn create_path(key: &Vec<char>, depth: usize, value: Value) -> (r: Node)
    requires
        depth <= key.len(),
    ensures
        r.well_formed(),
        forall|s: Seq<char>| #[trigger]
            r.lookup(s) == if is_rest(s, key@, depth as int) {
                Some(value)
            } else {
                None
            },
    decreases key.len() - depth,
{
    let mut node = Node::new();
    if depth == key.len() {
        node.value = Some(value);
        proof {
            assert forall|s: Seq<char>| #[trigger]
                node.lookup(s) == if is_rest(s, key@, depth as int) {
                    Some(value)
                } else {
                    None
                } by {
                if s.len() > 0 {
                    lemma_descend_cons(node, s[0], s.drop_first());
                    assert(s =~= seq![s[0]] + s.drop_first());
                    assert(node.child(s[0]) is None);
                    assert(key@.skip(depth as int).len() == 0);
                } else {
                    assert(node.descend(s) == Some(node));
                    assert(key@.skip(depth as int) =~= s);
                }
            }
        }
    } else {
        let c = key[depth];
        let child = create_path(key, depth + 1, value);
        node.children.insert(c as u32, Arc::new(child));
        proof {
            assert forall|s: Seq<char>| #[trigger]
                node.lookup(s) == if is_rest(s, key@, depth as int) {
                    Some(value)
                } else {
                    None
                } by {
                if s.len() > 0 {
                    lemma_descend_cons(node, s[0], s.drop_first());
                    assert(s =~= seq![s[0]] + s.drop_first());
                    lemma_rest_cons(s, key@, depth as int);
                    if s[0] == c {
                        assert(node.child(c) == Some(child));
                    } else {
                        assert(code_of(s[0]) != code_of(c));
                        assert(node.child(s[0]) is None);
                    }
                } else {
                    assert(node.descend(s) == Some(node));
                    assert(key@.skip(depth as int).len() > 0);
                }
            }
        }
    }
    proof {
        assert(node.lookup(key@.skip(depth as int)) is Some);
        assert forall|k: u32| #[trigger]
            node.children@.contains_key(k) implies exists|c: char| #[trigger] code_of(c) == k by {
            assert(code_of(key@[depth as int]) == k);
        }
        lemma_well_formed_from_parts(node);
    }
    node
}

/// A copy of `node` in which the key made of `key`'s characters from `depth`
/// on holds `value`. The nodes on that path are new; all others are shared.
fn put_helper(node: &Node, key: &Vec<char>, depth: usize, value: Value) -> (r: Node)
    requires
        node.well_formed(),
        depth <= key.len(),
    ensures
        r.well_formed(),
        forall|s: Seq<char>| #[trigger]
            r.lookup(s) == if is_rest(s, key@, depth as int) {
                Some(value)
            } else {
                node.lookup(s)
            },
    decreases key.len() - depth,
{
    proof {
        lemma_well_formed_top(*node);
        lemma_children_well_formed(*node);
    }
    let mut new_node = Node::new();
    new_node.value = node.value.clone();
    new_node.children = node.children.clone();
    if depth == key.len() {
        new_node.value = Some(value);
        proof {
            assert forall|s: Seq<char>| #[trigger]
                new_node.lookup(s) == if is_rest(s, key@, depth as int) {
                    Some(value)
                } else {
                    node.lookup(s)
                } by {
                if s.len() > 0 {
                    lemma_descend_cons(new_node, s[0], s.drop_first());
                    lemma_descend_cons(*node, s[0], s.drop_first());
                    assert(s =~= seq![s[0]] + s.drop_first());
                    assert(key@.skip(depth as int).len() == 0);
                } else {
                    assert(new_node.descend(s) == Some(new_node));
                    assert(key@.skip(depth as int) =~= s);
                }
            }
        }
    } else {
        let c = key[depth];
        let child = match node.children.get(&(c as u32)) {
            Some(ch) => put_helper(ch, key, depth + 1, value),
            None => create_path(key, depth + 1, value),
        };
        new_node.children.insert(c as u32, Arc::new(child));
        proof {
            assert forall|s: Seq<char>| #[trigger]
                new_node.lookup(s) == if is_rest(s, key@, depth as int) {
                    Some(value)
                } else {
                    node.lookup(s)
                } by {
                if s.len() > 0 {
                    lemma_descend_cons(new_node, s[0], s.drop_first());
                    lemma_descend_cons(*node, s[0], s.drop_first());
                    assert(s =~= seq![s[0]] + s.drop_first());
                    lemma_rest_cons(s, key@, depth as int);
                    if s[0] == c {
                        assert(new_node.child(c) == Some(child));
                    } else {
                        assert(new_node.child(s[0]) == node.child(s[0]));
                    }
                } else {
                    assert(new_node.descend(s) == Some(new_node));
                    assert(node.descend(s) == Some(*node));
                    assert(key@.skip(depth as int).len() > 0);
                }
            }
        }
    }
    proof {
        assert(new_node.lookup(key@.skip(depth as int)) is Some);
        assert forall|k: u32| #[trigger] new_node.children@.contains_key(k) implies exists|c: char|
            #[trigger] code_of(c) == k by {
            if !node.children@.contains_key(k) {
                assert(code_of(key@[depth as int]) == k);
            }
        }
        lemma_well_formed_from_parts(new_node);
    }
    new_node
}

/// A copy of `node` without the key made of `key`'s characters from `depth`
/// on, with every node left empty pruned away; `None` where nothing is left.
fn delete_helper(node: &Node, key: &Vec<char>, depth: usize) -> (r: Option<Arc<Node>>)
    requires
        node.well_formed(),
        depth <= key.len(),
    ensures
        r is Some ==> r->0.well_formed(),
        r is Some ==> forall|s: Seq<char>| #[trigger]
            r->0.lookup(s) == if is_rest(s, key@, depth as int) {
                None
            } else {
                node.lookup(s)
            },
        r is None ==> forall|s: Seq<char>| #[trigger]
            node.lookup(s) is Some ==> is_rest(s, key@, depth as int),
    decreases key.len() - depth,
{
    proof {
        lemma_well_formed_top(*node);
        lemma_children_well_formed(*node);
    }
    if depth == key.len() {
        proof {
            assert forall|s: Seq<char>| #[trigger] node.lookup(s) is Some && s.len() > 0 implies
                node.children@.contains_key(code_of(s[0])) by {
                lemma_descend_cons(*node, s[0], s.drop_first());
                assert(s =~= seq![s[0]] + s.drop_first());
            }
            assert(key@.skip(depth as int) =~= Seq::<char>::empty());
        }
        if !node.children.is_empty() {
            let mut new_node = Node::new();
            new_node.children = node.children.clone();
            proof {
                assert forall|s: Seq<char>| #[trigger]
                    new_node.lookup(s) == if is_rest(s, key@, depth as int) {
                        None
                    } else {
                        node.lookup(s)
                    } by {
                    if s.len() > 0 {
                        lemma_descend_cons(new_node, s[0], s.drop_first());
                        lemma_descend_cons(*node, s[0], s.drop_first());
                        assert(s =~= seq![s[0]] + s.drop_first());
                        assert(new_node.child(s[0]) == node.child(s[0]));
                        assert(!is_rest(s, key@, depth as int));
                    } else {
                        assert(new_node.descend(s) == Some(new_node));
                        assert(s =~= key@.skip(depth as int));
                    }
                }
                lemma_holds_value_from_children(new_node);
                lemma_well_formed_from_parts(new_node);
            }
            return Some(Arc::new(new_node));
        }
        proof {
            assert forall|s: Seq<char>| #[trigger] node.lookup(s) is Some implies is_rest(
                s,
                key@,
                depth as int,
            ) by {
                if s.len() > 0 {
                    assert(node.children@.contains_key(code_of(s[0])));
                } else {
                    assert(s =~= key@.skip(depth as int));
                }
            }
        }
        return None;
    }
    let c = key[depth];
    let mut new_node = Node::new();
    new_node.value = node.value.clone();
    new_node.children = node.children.clone();
    match node.children.get(&(c as u32)) {
        Some(child) => {
            match delete_helper(child, key, depth + 1) {
                Some(nc) => {
                    new_node.children.insert(c as u32, nc);
                    proof {
                        assert forall|t: Seq<char>| #[trigger]
                            new_node.lookup(seq![c] + t) == if is_rest(t, key@, depth + 1) {
                                None
                            } else {
                                node.lookup(seq![c] + t)
                            } by {
                            lemma_descend_cons(new_node, c, t);
                            lemma_descend_cons(*node, c, t);
                        }
                    }
                },
                None => {
                    new_node.children.remove(&(c as u32));
                    proof {
                        assert forall|t: Seq<char>| #[trigger]
                            new_node.lookup(seq![c] + t) == if is_rest(t, key@, depth + 1) {
                                None
                            } else {
                                node.lookup(seq![c] + t)
                            } by {
                            lemma_descend_cons(new_node, c, t);
                            lemma_descend_cons(*node, c, t);
                        }
                    }
                },
            }
        },
        None => {
            proof {
                assert forall|t: Seq<char>| #[trigger]
                    new_node.lookup(seq![c] + t) == node.lookup(seq![c] + t) by {
                    lemma_descend_cons(new_node, c, t);
                    lemma_descend_cons(*node, c, t);
                }
            }
        },
    }
    proof {
        assert forall|s: Seq<char>| #[trigger]
            new_node.lookup(s) == if is_rest(s, key@, depth as int) {
                None
            } else {
                node.lookup(s)
            } by {
            if s.len() > 0 {
                lemma_descend_cons(new_node, s[0], s.drop_first());
                lemma_descend_cons(*node, s[0], s.drop_first());
                assert(s =~= seq![s[0]] + s.drop_first());
                lemma_rest_cons(s, key@, depth as int);
                if s[0] != c {
                    assert(new_node.child(s[0]) == node.child(s[0]));
                } else {
                    assert(new_node.lookup(seq![c] + s.drop_first()) == new_node.lookup(s));
                }
            } else {
                assert(new_node.descend(s) == Some(new_node));
                assert(node.descend(s) == Some(*node));
                assert(key@.skip(depth as int).len() > 0);
            }
        }
        assert forall|k: u32| #[trigger] new_node.children@.contains_key(k) implies (exists|c: char|
            #[trigger] code_of(c) == k) && new_node.children@[k].well_formed() by {
            assert(node.children@.contains_key(k));
        }
    }
    if new_node.children.is_empty() && new_node.value.is_none() {
        proof {
            assert forall|s: Seq<char>| #[trigger] node.lookup(s) is Some implies is_rest(
                s,
                key@,
                depth as int,
            ) by {
                if s.len() > 0 {
                    lemma_descend_cons(new_node, s[0], s.drop_first());
                    assert(s =~= seq![s[0]] + s.drop_first());
                    assert(new_node.lookup(s) is None);
                } else {
                    assert(new_node.descend(s) == Some(new_node));
                }
            }
        }
        None
    } else {
        proof {
            if new_node.value is Some {
                assert(new_node.descend(Seq::<char>::empty()) == Some(new_node));
                assert(new_node.lookup(Seq::<char>::empty()) is Some);
            } else {
                lemma_holds_value_from_children(new_node);
            }
            lemma_well_formed_from_parts(new_node);
        }
        Some(Arc::new(new_node))
    }
}

impl Trie {
    #[verifier::type_invariant]
    spec fn inv(self) -> bool {
        match self.root {
            Some(n) => n.well_formed(),
            None => true,
        }
    }

    /// The root node, absent when the trie stores nothing.
    pub closed spec fn root_node(self) -> Option<Node> {
        match self.root {
            Some(n) => Some(*n),
            None => None,
        }
    }

    /// The value stored under `key`.
    pub open spec fn lookup(self, key: Seq<char>) -> Option<Value> {
        match self.root_node() {
            Some(n) => n.lookup(key),
            None => None,
        }
    }

    /// A trie that stores nothing.
    pub fn new() -> (r: Trie)
        ensures
            r@ == Map::<Seq<char>, Value>::empty(),
    {
        let r = Trie { root: None };
        assert(r@ =~= Map::<Seq<char>, Value>::empty());
        r
    }

    /// The value stored under `key`, if any.
    pub fn get(&self, key: &str) -> (r: Option<Value>)
        ensures
            r == self@.get(key@),
    {
        let chars = key_chars(key);
        let root = match &self.root {
            Some(root) => root,
            None => return None,
        };
        let mut current: &Node = root;
        let mut i: usize = 0;
        while i < chars.len()
            invariant
                0 <= i <= chars.len(),
                chars@ == key@,
                self.root_node() == Some(**root),
                root.descend(chars@.take(i as int)) == Some(*current),
            decreases chars.len() - i,
        {
            let c = chars[i];
            proof {
                crate::node::lemma_descend_append(self.root_node()->0, chars@.take(i as int), seq![c]);
                assert(chars@.take(i as int) + seq![c] =~= chars@.take(i + 1));
                assert(current.descend(seq![c]) == current.child(c)) by {
                    lemma_descend_cons(*current, c, Seq::<char>::empty());
                    assert(seq![c] + Seq::<char>::empty() =~= seq![c]);
                }
            }
            match current.children.get(&(c as u32)) {
                Some(n) => {
                    current = n;
                },
                None => {
                    proof {
                        crate::node::lemma_descend_append(
                            self.root_node()->0,
                            chars@.take(i + 1),
                            chars@.skip(i + 1),
                        );
                        assert(chars@.take(i + 1) + chars@.skip(i + 1) =~= chars@);
                    }
                    return None;
                },
            }
            i = i + 1;
        }
        proof {
            assert(chars@.take(i as int) =~= chars@);
        }
        match &current.value {
            Some(v) => Some(v.clone()),
            None => None,
        }
    }
    /// A new version in which `key` holds `value`; every other key keeps its value.
    pub fn put(&self, key: &str, value: Value) -> (r: Trie)
        ensures
            r@ == self@.insert(key@, value),
    {
        proof {
            use_type_invariant(self);
        }
        let chars = key_chars(key);
        let new_root = match &self.root {
            Some(root) => put_helper(root, &chars, 0, value),
            None => create_path(&chars, 0, value),
        };
        let r = Trie { root: Some(Arc::new(new_root)) };
        proof {
            assert(chars@.skip(0) =~= key@);
            assert(r.lookup(key@) == Some(value));
            assert(r@ =~= self@.insert(key@, value));
        }
        r
    }

    /// A new version in which `key` holds nothing; every other key keeps its value.
    pub fn delete(&self, key: &str) -> (r: Trie)
        ensures
            r@ == self@.remove(key@),
    {
        proof {
            use_type_invariant(self);
        }
        let chars = key_chars(key);
        let new_root = match &self.root {
            None => None,
            Some(root) => delete_helper(root, &chars, 0),
        };
        let r = Trie { root: new_root };
        proof {
            assert(chars@.skip(0) =~= key@);
            assert(r@ =~= self@.remove(key@));
        }
        r
    }

    /// The root node, or a fresh empty node when the trie stores nothing.
    pub fn get_root(&self) -> (r: Arc<Node>)
        ensures
            forall|k: Seq<char>| #[trigger] r.lookup(k) == self@.get(k),
            self@ == Map::<Seq<char>, Value>::empty() ==> r.value is None && r.children@.is_empty(),
            self@ != Map::<Seq<char>, Value>::empty() ==> r.well_formed(),
    {
        proof {
            use_type_invariant(self);
            self.lemma_root_matches_view();
        }
        match &self.root {
            Some(root) => root.clone(),
            None => {
                let n = Node::new();
                proof {
                    lemma_empty_node_lookup(n);
                }
                Arc::new(n)
            },
        }
    }

    /// A trie over a root built elsewhere. The root must be well-formed, or
    /// else empty, in which case the trie stores nothing.
    pub fn from_node(root: Arc<Node>) -> (r: Trie)
        requires
            root.well_formed() || (root.value is None && root.children@.is_empty()),
        ensures
            forall|k: Seq<char>| #[trigger] r@.get(k) == root.lookup(k),
    {
        if root.value.is_none() && root.children.is_empty() {
            proof {
                let ghost n: Node = *root;
                lemma_empty_node_lookup(n);
            }
            Trie { root: None }
        } else {
            Trie { root: Some(root) }
        }
    }

    /// The root node, or a fresh empty node when the trie stores nothing.
    pub fn into_node(self) -> (r: Arc<Node>)
        ensures
            forall|k: Seq<char>| #[trigger] r.lookup(k) == self@.get(k),
            self@ == Map::<Seq<char>, Value>::empty() ==> r.value is None && r.children@.is_empty(),
            self@ != Map::<Seq<char>, Value>::empty() ==> r.well_formed(),
    {
        proof {
            use_type_invariant(&self);
            self.lemma_root_matches_view();
        }
        match self.root {
            Some(root) => root,
            None => {
                let n = Node::new();
                proof {
                    lemma_empty_node_lookup(n);
                }
                Arc::new(n)
            },
        }
    }

    /// The trie stores nothing exactly when it has no root.
    proof fn lemma_root_matches_view(self)
        requires
            self.inv(),
        ensures
            self.root is None <==> self@ == Map::<Seq<char>, Value>::empty(),
    {
        match self.root {
            Some(_) => {
                let n = self.root_node()->0;
                lemma_well_formed_top(n);
                let s = choose|s: Seq<char>| #[trigger] n.lookup(s) is Some;
                assert(self@.contains_key(s));
            },
            None => {
                assert(self@ =~= Map::<Seq<char>, Value>::empty());
            },
        }
    }

}

impl Clone for Trie {
    fn clone(&self) -> (r: Self)
        ensures
            r == *self,
    {
        proof {
            use_type_invariant(self);
        }
        match &self.root {
            Some(root) => Trie { root: Some(root.clone()) },
            None => Trie { root: None },
        }
    }
}

impl View for Trie {
    type V = Map<Seq<char>, Value>;

    /// Each stored key with its value.
    open spec fn view(&self) -> Map<Seq<char>, Value> {
        Map::new(|k: Seq<char>| self.lookup(k) is Some, |k: Seq<char>| self.lookup(k)->0)
    }
}

/// The view after applying `ops` in order to the single key `k`: `Some(v)`
/// puts `v` under `k`, `None` deletes `k`.
pub open spec fn apply_ops(
    m: Map<Seq<char>, Value>,
    k: Seq<char>,
    ops: Seq<Option<Value>>,
) -> Map<Seq<char>, Value>
    decreases ops.len(),
{
    if ops.len() == 0 {
        m
    } else {
        let next = match ops[0] {
            Some(v) => m.insert(k, v),
            None => m.remove(k),
        };
        apply_ops(next, k, ops.drop_first())
    }
}

/// Reading a key right after putting a value under it gives that value back.
pub proof fn lemma_round_trip(t: Trie, k: Seq<char>, v: Value)
    ensures
        t@.insert(k, v).get(k) == Some(v),
{
}

/// Any run of puts and deletes on `k1` leaves what a different key `k2` holds.
pub proof fn lemma_isolation(t: Trie, k1: Seq<char>, k2: Seq<char>, ops: Seq<Option<Value>>)
    requires
        k1 != k2,
    ensures
        apply_ops(t@, k1, ops).get(k2) == t@.get(k2),
{
    lemma_apply_ops_other_key(t@, k1, k2, ops);
}

proof fn lemma_apply_ops_other_key(
    m: Map<Seq<char>, Value>,
    k1: Seq<char>,
    k2: Seq<char>,
    ops: Seq<Option<Value>>,
)
    requires
        k1 != k2,
    ensures
        apply_ops(m, k1, ops).get(k2) == m.get(k2),
    decreases ops.len(),
{
    if ops.len() > 0 {
        let next = match ops[0] {
            Some(v) => m.insert(k1, v),
            None => m.remove(k1),
        };
        lemma_apply_ops_other_key(next, k1, k2, ops.drop_first());
    }
}

/// Deleting a key twice leaves the same entries as deleting it once.
pub proof fn lemma_delete_idempotent(t: Trie, k: Seq<char>)
    ensures
        t@.remove(k).remove(k) == t@.remove(k),
{
    assert(t@.remove(k).remove(k) =~= t@.remove(k));
}

/// The empty key addresses the root: a value put there is read back, and no
/// other key changes.
pub proof fn lemma_empty_key(t: Trie, v: Value)
    ensures
        t@.insert(Seq::<char>::empty(), v).get(Seq::<char>::empty()) == Some(v),
        forall|k: Seq<char>| #![trigger t@.get(k)]
            k.len() > 0 ==> t@.insert(Seq::<char>::empty(), v).get(k) == t@.get(k),
{
    assert forall|k: Seq<char>| #![trigger t@.get(k)] k.len() > 0 implies t@.insert(
        Seq::<char>::empty(),
        v,
    ).get(k) == t@.get(k) by {
        assert(k != Seq::<char>::empty());
    }
}

/// Pruning, seen through a root as `get_root` describes it: once no stored key
/// passes through `p`, no node is reached along `p`, except the bare empty
/// root when the trie stores nothing at all.
pub proof fn lemma_unused_path_pruned(
    root: Node,
    entries: Map<Seq<char>, Value>,
    p: Seq<char>,
)
    requires
        forall|k: Seq<char>| #[trigger] root.lookup(k) == entries.get(k),
        entries == Map::<Seq<char>, Value>::empty() ==> root.value is None
            && root.children@.is_empty(),
        entries != Map::<Seq<char>, Value>::empty() ==> root.well_formed(),
        forall|s: Seq<char>| !#[trigger] entries.contains_key(p + s),
    ensures
        root.descend(p) is None || (p.len() == 0 && root.value is None
            && root.children@.is_empty()),
{
    if entries != Map::<Seq<char>, Value>::empty() {
        assert forall|s: Seq<char>| #[trigger] root.lookup(p + s) is None by {
            assert(!entries.contains_key(p + s));
        }
        lemma_unused_path_unreachable(root, p);
    } else if p.len() > 0 {
        assert(p =~= seq![p[0]] + p.drop_first());
        lemma_descend_cons(root, p[0], p.drop_first());
    }
}

} // verus!
