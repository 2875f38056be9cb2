//! Copies of trees, patterns and routers.
use vstd::prelude::*;

use crate::bytes::copy_range;
use crate::node::{kids, Key, Node, NodeModel};
use crate::parser::{pieces_view, Piece, Position};

verus! {

/// `b` is a copy of `a`: the same keys in the same shape, each value of `b`
/// a clone of the value of `a` at the same place.
pub open spec fn copy_of<T: Clone>(a: NodeModel<T>, b: NodeModel<T>) -> bool
    decreases a,
{
    &&& a.key == b.key
    &&& match (a.value, b.value) {
        (Some(x), Some(y)) => cloned(x, y),
        (None, None) => true,
        _ => false,
    }
    &&& a.nodes0 is Some <==> b.nodes0 is Some
    &&& a.nodes1 is Some <==> b.nodes1 is Some
    &&& kids(a, false).len() == kids(b, false).len()
    &&& kids(a, true).len() == kids(b, true).len()
    &&& forall|i: int|
        0 <= i < kids(a, false).len() ==> copy_of(#[trigger] a.nodes0->Some_0[i], b.nodes0->Some_0[i])
    &&& forall|i: int|
        0 <= i < kids(a, true).len() ==> copy_of(#[trigger] a.nodes1->Some_0[i], b.nodes1->Some_0[i])
}

/// A copy of a tree whose values are ids is the same tree.
pub proof fn lemma_copy_same(a: NodeModel<usize>, b: NodeModel<usize>)
    requires
        copy_of(a, b),
    ensures
        a == b,
    decreases a,
{
    if a.nodes0 is Some {
        let (s, t) = (a.nodes0->Some_0, b.nodes0->Some_0);
        assert forall|i: int| 0 <= i < s.len() implies s[i] == t[i] by {
            assert(copy_of(a.nodes0->Some_0[i], b.nodes0->Some_0[i]));
            lemma_copy_same(s[i], t[i]);
        }
        assert(s =~= t);
    }
    if a.nodes1 is Some {
        let (s, t) = (a.nodes1->Some_0, b.nodes1->Some_0);
        assert forall|i: int| 0 <= i < s.len() implies s[i] == t[i] by {
            assert(copy_of(a.nodes1->Some_0[i], b.nodes1->Some_0[i]));
            lemma_copy_same(s[i], t[i]);
        }
        assert(s =~= t);
    }
}

/// A copy of a run of bytes.
fn copy_bytes(s: &Vec<u8>) -> (c: Vec<u8>)
    ensures
        c@ == s@,
{
    let c = copy_range(s.as_slice(), 0, s.len());
    assert(c@ =~= s@);
    c
}

/// A copy of a key.
pub fn copy_key(k: &Key) -> (c: Key)
    ensures
        c@ == k@,
{
    match k {
        Key::String(s) => Key::String(copy_bytes(s)),
        Key::Parameter(kind) => Key::Parameter(*kind),
    }
}

/// A copy of a piece of a pattern.
pub fn copy_piece(p: &Piece) -> (c: Piece)
    ensures
        c@ == p@,
{
    match p {
        Piece::String(s) => Piece::String(copy_bytes(s)),
        Piece::Parameter(Position::Index(n, name), k) => Piece::Parameter(
            Position::Index(*n, copy_bytes(name)),
            *k,
        ),
        Piece::Parameter(Position::Named(name), k) => Piece::Parameter(
            Position::Named(copy_bytes(name)),
            *k,
        ),
    }
}

/// A copy of the pieces of a pattern.
pub fn copy_pieces(ps: &Vec<Piece>) -> (c: Vec<Piece>)
    ensures
        pieces_view(c@) == pieces_view(ps@),
{
    let mut c: Vec<Piece> = Vec::new();
    let mut i: usize = 0;
    while i < ps.len()
        invariant
            i <= ps@.len(),
            c@.len() == i,
            forall|j: int| 0 <= j < i ==> (#[trigger] c@[j])@ == ps@[j]@,
        decreases ps@.len() - i,
    {
        c.push(copy_piece(&ps[i]));
        i = i + 1;
    }
    assert(pieces_view(c@) =~= pieces_view(ps@));
    c
}

/// A copy of a node and everything below it.
pub fn copy_node<T: Clone>(n: &Node<T>) -> (c: Node<T>)
    ensures
        copy_of(n@, c@),
    decreases n,
{
    let value = match &n.value {
        Some(x) => Some(x.clone()),
        None => None,
    };
    let nodes0 = match &n.nodes0 {
        Some(v) => Some(copy_nodes(v)),
        None => None,
    };
    let nodes1 = match &n.nodes1 {
        Some(v) => Some(copy_nodes(v)),
        None => None,
    };
    let c = Node { key: copy_key(&n.key), value, nodes0, nodes1 };
    proof {
        let (a, b) = (n@, c@);
        if n.nodes0 is Some {
            crate::node::lemma_models(n.nodes0->Some_0@, n.nodes0->Some_0@.len());
        }
        if n.nodes1 is Some {
            crate::node::lemma_models(n.nodes1->Some_0@, n.nodes1->Some_0@.len());
        }
        assert(kids(a, false).len() == kids(b, false).len());
        assert(kids(a, true).len() == kids(b, true).len());
        assert forall|i: int| 0 <= i < kids(a, false).len() implies copy_of(#[trigger] a.nodes0->Some_0[i], b.nodes0->Some_0[i]) by {
            assert(a.nodes0->Some_0 == crate::node::models(n.nodes0->Some_0@, n.nodes0->Some_0@.len()));
        }
        assert forall|i: int| 0 <= i < kids(a, true).len() implies copy_of(#[trigger] a.nodes1->Some_0[i], b.nodes1->Some_0[i]) by {
            assert(a.nodes1->Some_0 == crate::node::models(n.nodes1->Some_0@, n.nodes1->Some_0@.len()));
        }
    }
    c
}

impl<T: Clone> Clone for Node<T> {
    /// A copy of the node and everything below it.
    fn clone(&self) -> (c: Self)
        ensures
            copy_of(self@, c@),
    {
        copy_node(self)
    }
}

/// Copies of the nodes of `v`, in order.
fn copy_nodes<T: Clone>(v: &Vec<Node<T>>) -> (c: Vec<Node<T>>)
    ensures
        c@.len() == v@.len(),
        crate::node::models(c@, c@.len()).len() == v@.len(),
        forall|i: int|
            0 <= i < v@.len() ==> copy_of(
                #[trigger] crate::node::models(v@, v@.len())[i],
                crate::node::models(c@, c@.len())[i],
            ),
    decreases v,
{
    let mut c: Vec<Node<T>> = Vec::new();
    let mut i: usize = 0;
    while i < v.len()
        invariant
            i <= v@.len(),
            c@.len() == i,
            forall|j: int| 0 <= j < i ==> copy_of(#[trigger] crate::node::model(v@[j]), crate::node::model(c@[j])),
        decreases v@.len() - i,
    {
        proof {
            assert(decreases_to!(v => v@));
            assert(decreases_to!(v@ => v@[i as int]));
        }
        let x = copy_node(&v[i]);
        c.push(x);
        i = i + 1;
    }
    proof {
        crate::node::lemma_models(v@, v@.len());
        crate::node::lemma_models(c@, c@.len());
        assert forall|i: int| 0 <= i < v@.len() implies copy_of(
            #[trigger] crate::node::models(v@, v@.len())[i],
            crate::node::models(c@, c@.len())[i],
        ) by {
            assert(copy_of(crate::node::model(v@[i]), crate::node::model(c@[i])));
        }
    }
    c
}

} // verus!
