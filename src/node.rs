use std::collections::HashMap;
use std::sync::Arc;
use vstd::prelude::*;

use crate::value::Value;

verus! {

broadcast use vstd::std_specs::hash::group_hash_axioms;

/// One position in the key space: an optional value, and one shared child per
/// next character. A child is keyed by its character's scalar value (`c as u32`).
#[derive(Clone, Debug, PartialEq)]
pub struct Node {
    pub value: Option<Value>,
    pub children: HashMap<u32, Arc<Node>>,
}

/// The scalar value of a character: the key of its edge in `children`.
pub open spec fn code_of(c: char) -> u32 {
    c as u32
}

/// Distinct characters have distinct scalar values.
pub broadcast proof fn lemma_code_injective(a: char, b: char)
    ensures
        #[trigger] code_of(a) == #[trigger] code_of(b) ==> a == b,
{
    vstd::utf8::char_u32_cast(a, a as u32);
    vstd::utf8::char_u32_cast(b, b as u32);
}

impl Node {
    /// A node with no value and no children.
    pub fn new() -> (r: Node)
        ensures
            r.value is None,
            r.children@ == Map::<u32, Arc<Node>>::empty(),
    {
        Node { value: None, children: HashMap::new() }
    }

    /// The child reached by the character `c`, if any.
    pub open spec fn child(self, c: char) -> Option<Node> {
        if self.children@.contains_key(code_of(c)) {
            Some(*self.children@[code_of(c)])
        } else {
            None
        }
    }

    /// The node reached by following `path` one character at a time.
    pub open spec fn descend(self, path: Seq<char>) -> Option<Node>
        decreases path.len(),
    {
        if path.len() == 0 {
            Some(self)
        } else {
            match self.child(path[0]) {
                Some(n) => n.descend(path.drop_first()),
                None => None,
            }
        }
    }

    /// The value stored under `key` in the subtree rooted here.
    pub open spec fn lookup(self, key: Seq<char>) -> Option<Value> {
        match self.descend(key) {
            Some(n) => n.value,
            None => None,
        }
    }

    /// Some key in the subtree rooted here carries a value.
    pub open spec fn holds_value(self) -> bool {
        exists|s: Seq<char>| #[trigger] self.lookup(s) is Some
    }

    /// Every child is keyed by the scalar value of some character.
    pub open spec fn edges_are_chars(self) -> bool {
        forall|k: u32| #[trigger]
            self.children@.contains_key(k) ==> exists|c: char| #[trigger] code_of(c) == k
    }

    /// No reachable node is empty: each one carries a value somewhere below it
    /// (itself included), and each edge is labelled by a character.
    pub open spec fn well_formed(self) -> bool {
        forall|p: Seq<char>| #[trigger]
            self.descend(p) is Some ==> {
                &&& self.descend(p)->0.holds_value()
                &&& self.descend(p)->0.edges_are_chars()
            }
    }
}

/// Following `c` and then `p` is following `p` from the child at `c`.
pub proof fn lemma_descend_cons(n: Node, c: char, p: Seq<char>)
    ensures
        n.descend(seq![c] + p) == (match n.child(c) {
            Some(m) => m.descend(p),
            None => None,
        }),
        n.lookup(seq![c] + p) == (match n.child(c) {
            Some(m) => m.lookup(p),
            None => None,
        }),
{
    assert((seq![c] + p).drop_first() =~= p);
}

/// Following `p` and then `s` is following `p + s`.
pub proof fn lemma_descend_append(n: Node, p: Seq<char>, s: Seq<char>)
    ensures
        n.descend(p + s) == (match n.descend(p) {
            Some(m) => m.descend(s),
            None => None,
        }),
    decreases p.len(),
{
    if p.len() == 0 {
        assert(p + s =~= s);
    } else {
        assert(p + s =~= seq![p[0]] + (p.drop_first() + s));
        assert(p =~= seq![p[0]] + p.drop_first());
        lemma_descend_cons(n, p[0], p.drop_first() + s);
        lemma_descend_cons(n, p[0], p.drop_first());
        match n.child(p[0]) {
            Some(m) => lemma_descend_append(m, p.drop_first(), s),
            None => {},
        }
    }
}

/// A well-formed node holds a value and labels its edges by characters.
pub proof fn lemma_well_formed_top(n: Node)
    requires
        n.well_formed(),
    ensures
        n.holds_value(),
        n.edges_are_chars(),
{
    assert(n.descend(Seq::<char>::empty()) == Some(n));
}

/// Every child of a well-formed node is well-formed.
pub proof fn lemma_children_well_formed(n: Node)
    requires
        n.well_formed(),
    ensures
        forall|k: u32| #[trigger] n.children@.contains_key(k) ==> n.children@[k].well_formed(),
{
    lemma_well_formed_top(n);
    assert forall|k: u32| #[trigger] n.children@.contains_key(k) implies n.children@[k].well_formed() by {
        let c = choose|c: char| #[trigger] code_of(c) == k;
        lemma_child_well_formed(n, c);
    }
}

/// A child of a well-formed node is well-formed.
pub proof fn lemma_child_well_formed(n: Node, c: char)
    requires
        n.well_formed(),
        n.child(c) is Some,
    ensures
        n.child(c)->0.well_formed(),
{
    let m = n.child(c)->0;
    assert forall|p: Seq<char>| #[trigger] m.descend(p) is Some implies {
        &&& m.descend(p)->0.holds_value()
        &&& m.descend(p)->0.edges_are_chars()
    } by {
        lemma_descend_cons(n, c, p);
        assert(n.descend(seq![c] + p) is Some);
    }
}

/// A node whose child at `c` holds a value holds one too.
pub proof fn lemma_holds_value_from_child(n: Node, c: char)
    requires
        n.child(c) is Some,
        n.child(c)->0.holds_value(),
    ensures
        n.holds_value(),
{
    let m = n.child(c)->0;
    let s = choose|s: Seq<char>| #[trigger] m.lookup(s) is Some;
    lemma_descend_cons(n, c, s);
    assert(n.lookup(seq![c] + s) is Some);
}

/// A node with some child, all of whose children are well-formed, holds a value.
pub proof fn lemma_holds_value_from_children(n: Node)
    requires
        n.edges_are_chars(),
        !n.children@.is_empty(),
        forall|k: u32| #[trigger] n.children@.contains_key(k) ==> n.children@[k].well_formed(),
    ensures
        n.holds_value(),
{
    let k = choose|k: u32| n.children@.contains_key(k);
    assert(n.children@.dom().contains(k));
    let c = choose|c: char| #[trigger] code_of(c) == k;
    let m = n.children@[k];
    assert(m.descend(Seq::<char>::empty()) == Some(*m));
    lemma_holds_value_from_child(n, c);
}

/// A node that holds a value and has only well-formed children, each keyed
/// by a character, is well-formed.
pub proof fn lemma_well_formed_from_parts(n: Node)
    requires
        n.holds_value(),
        n.edges_are_chars(),
        forall|k: u32| #[trigger] n.children@.contains_key(k) ==> n.children@[k].well_formed(),
    ensures
        n.well_formed(),
{
    assert forall|p: Seq<char>| #[trigger] n.descend(p) is Some implies {
        &&& n.descend(p)->0.holds_value()
        &&& n.descend(p)->0.edges_are_chars()
    } by {
        if p.len() > 0 {
            assert(p =~= seq![p[0]] + p.drop_first());
            lemma_descend_cons(n, p[0], p.drop_first());
            let m = n.children@[p[0] as u32];
            assert(m.descend(p.drop_first()) is Some);
        }
    }
}

/// A node with no value and no children stores nothing.
pub proof fn lemma_empty_node_lookup(n: Node)
    requires
        n.value is None,
        n.children@.is_empty(),
    ensures
        forall|k: Seq<char>| #[trigger] n.lookup(k) is None,
{
    assert forall|k: Seq<char>| #[trigger] n.lookup(k) is None by {
        if k.len() > 0 {
            assert(k =~= seq![k[0]] + k.drop_first());
            lemma_descend_cons(n, k[0], k.drop_first());
        } else {
            assert(n.descend(k) == Some(n));
        }
    }
}

/// In a well-formed node, a path that no stored key passes through leads nowhere.
pub proof fn lemma_unused_path_unreachable(n: Node, p: Seq<char>)
    requires
        n.well_formed(),
        forall|s: Seq<char>| #[trigger] n.lookup(p + s) is None,
    ensures
        n.descend(p) is None,
{
    if n.descend(p) is Some {
        let m = n.descend(p)->0;
        let s = choose|s: Seq<char>| #[trigger] m.lookup(s) is Some;
        lemma_descend_append(n, p, s);
        assert(n.lookup(p + s) is Some);
    }
}

} // verus!
