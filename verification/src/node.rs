//! The radix tree that routes are stored in.
//!
//! Each [`Node`] is seen through its model, a [`NodeModel`]: the same tree
//! built from `Seq`s, which the contracts speak of.
use vstd::prelude::*;

use crate::bytes::{copy_range, SLASH};
use crate::parser::Kind;

verus! {

/// What a node matches: literal bytes or a parameter.
#[derive(Clone, Debug, PartialEq, Eq)]
pub enum Key {
    String(Vec<u8>),
    Parameter(Kind),
}

/// Another name of [`Key`].
pub type NodeKind = Key;

/// A node of the tree.
pub struct Node<T> {
    pub key: Key,
    pub value: Option<T>,
    /// The children whose key is literal bytes, ordered by their first byte.
    pub nodes0: Option<Vec<Self>>,
    /// The children whose key is a parameter, ordered by kind.
    pub nodes1: Option<Vec<Self>>,
}

/// The mathematical value of a [`Key`].
pub enum KeyModel {
    String(Seq<u8>),
    Parameter(Kind),
}

/// The mathematical value of a [`Node`].
pub struct NodeModel<T> {
    pub key: KeyModel,
    pub value: Option<T>,
    pub nodes0: Option<Seq<NodeModel<T>>>,
    pub nodes1: Option<Seq<NodeModel<T>>>,
}

impl View for Key {
    type V = KeyModel;

    open spec fn view(&self) -> KeyModel {
        match self {
            Key::String(s) => KeyModel::String(s@),
            Key::Parameter(k) => KeyModel::Parameter(*k),
        }
    }
}

/// The model of a node.
pub open spec fn model<T>(n: Node<T>) -> NodeModel<T>
    decreases n, 1int,
{
    NodeModel {
        key: n.key@,
        value: n.value,
        nodes0: match n.nodes0 {
            Some(v) => Some(models(v@, v@.len())),
            None => None,
        },
        nodes1: match n.nodes1 {
            Some(v) => Some(models(v@, v@.len())),
            None => None,
        },
    }
}

/// The models of the first `k` nodes of `v`.
pub open spec fn models<T>(v: Seq<Node<T>>, k: nat) -> Seq<NodeModel<T>>
    decreases v, k,
{
    if k == 0 || k > v.len() {
        seq![]
    } else {
        models(v, (k - 1) as nat).push(model(v[k - 1]))
    }
}

impl<T> View for Node<T> {
    type V = NodeModel<T>;

    open spec fn view(&self) -> NodeModel<T> {
        model(*self)
    }
}

pub proof fn lemma_models<T>(v: Seq<Node<T>>, k: nat)
    requires
        k <= v.len(),
    ensures
        models(v, k).len() == k,
        forall|i: int| 0 <= i < k ==> #[trigger] models(v, k)[i] == model(v[i]),
    decreases k,
{
    if k > 0 {
        lemma_models(v, (k - 1) as nat);
    }
}

/// The children of a model, by group (`false`: literal keys, `true`: parameters).
pub open spec fn kids<T>(m: NodeModel<T>, params: bool) -> Seq<NodeModel<T>> {
    match if params { m.nodes1 } else { m.nodes0 } {
        Some(s) => s,
        None => seq![],
    }
}

/// A node with this key and nothing else.
pub open spec fn leaf<T>(key: KeyModel) -> NodeModel<T> {
    NodeModel { key, value: None, nodes0: None, nodes1: None }
}

/// The order of the kinds of parameters.
pub open spec fn kind_rank(k: Kind) -> int {
    match k {
        Kind::Normal => 0,
        Kind::Optional => 1,
        Kind::OptionalSegment => 2,
        Kind::OneOrMore => 3,
        Kind::ZeroOrMore => 4,
        Kind::ZeroOrMoreSegment => 5,
    }
}

/// The order of the first bytes of literal keys: bytes by value, with `/` last.
pub open spec fn byte_rank(b: u8) -> int {
    if b == SLASH {
        256
    } else {
        b as int
    }
}

/// The rank of a child: its first byte for a literal key, its kind for a parameter.
pub open spec fn rank<T>(m: NodeModel<T>) -> int {
    match m.key {
        KeyModel::String(s) => if s.len() > 0 {
            byte_rank(s[0])
        } else {
            -1
        },
        KeyModel::Parameter(k) => kind_rank(k),
    }
}

/// Children in strictly increasing rank, each with a literal key that is not empty
/// (`params == false`) or each with a parameter key (`params == true`).
pub open spec fn ordered<T>(s: Seq<NodeModel<T>>, params: bool) -> bool {
    &&& forall|i: int|
        0 <= i < s.len() ==> if params {
            #[trigger] s[i].key is Parameter
        } else {
            s[i].key matches KeyModel::String(k) && k.len() > 0
        }
    &&& forall|i: int, j: int| 0 <= i < j < s.len() ==> rank(#[trigger] s[i]) < rank(#[trigger] s[j])
}

/// The tree below `m` is well formed: children in order, at every level.
pub open spec fn wf<T>(m: NodeModel<T>) -> bool
    decreases m,
{
    &&& ordered(kids(m, false), false)
    &&& ordered(kids(m, true), true)
    &&& forall|i: int| 0 <= i < kids(m, false).len() ==> wf(#[trigger] m.nodes0->Some_0[i])
    &&& forall|i: int| 0 <= i < kids(m, true).len() ==> wf(#[trigger] m.nodes1->Some_0[i])
}

/// Each child of a well-formed tree is well formed.
pub proof fn lemma_wf_kid<T>(m: NodeModel<T>, params: bool, i: int)
    requires
        wf(m),
        0 <= i < kids(m, params).len(),
    ensures
        wf(kids(m, params)[i]),
        ordered(kids(m, params), params),
{
    reveal_with_fuel(wf, 2);
    if params {
        assert(m.nodes1 is Some);
        assert(kids(m, params)[i] == m.nodes1->Some_0[i]);
        assert(wf(m.nodes1->Some_0[i]));
    } else {
        assert(m.nodes0 is Some);
        assert(kids(m, params)[i] == m.nodes0->Some_0[i]);
        assert(wf(m.nodes0->Some_0[i]));
    }
}

/// The position where a child of rank `r` stands or would stand in `s`.
pub open spec fn slot<T>(s: Seq<NodeModel<T>>, r: int) -> int
    decreases s.len(),
{
    if s.len() == 0 {
        0
    } else if rank(s.last()) < r {
        s.len() as int
    } else {
        slot(s.drop_last(), r)
    }
}

/// `m` with the children of group `params` replaced by `s`.
pub open spec fn with_kids<T>(m: NodeModel<T>, params: bool, s: Seq<NodeModel<T>>) -> NodeModel<T> {
    if params {
        NodeModel { nodes1: Some(s), ..m }
    } else {
        NodeModel { nodes0: Some(s), ..m }
    }
}

/// One step down the tree: a group and an index in it.
pub struct Step {
    pub params: bool,
    pub index: int,
}

/// The node at `path` below `m`.
pub open spec fn at<T>(m: NodeModel<T>, path: Seq<Step>) -> NodeModel<T>
    decreases path.len(),
{
    if path.len() == 0 {
        m
    } else {
        at(kids(m, path[0].params)[path[0].index], path.drop_first())
    }
}

/// `m` with the node at `path` replaced by `sub`.
pub open spec fn put<T>(m: NodeModel<T>, path: Seq<Step>, sub: NodeModel<T>) -> NodeModel<T>
    decreases path.len(),
{
    if path.len() == 0 {
        sub
    } else {
        let s = kids(m, path[0].params);
        let i = path[0].index;
        with_kids(m, path[0].params, s.update(i, put(s[i], path.drop_first(), sub)))
    }
}

/// Replacing the node one step down.
pub proof fn lemma_put_one<T>(m: NodeModel<T>, st: Step, sub: NodeModel<T>)
    ensures
        put(m, seq![st], sub) == with_kids(m, st.params, kids(m, st.params).update(st.index, sub)),
{
    let p = seq![st];
    assert(p.drop_first() =~= Seq::<Step>::empty());
    assert(p[0] == st);
    let s = kids(m, st.params);
    assert(put(s[st.index], p.drop_first(), sub) == sub);
    assert(s.update(st.index, put(s[st.index], p.drop_first(), sub)) =~= s.update(st.index, sub));
}


/// The length of the longest common prefix of `a` and `b`, counting from `i`.
pub open spec fn common_prefix(a: Seq<u8>, b: Seq<u8>, i: int) -> int
    decreases a.len() - i,
{
    if 0 <= i < a.len() && i < b.len() && a[i] == b[i] {
        common_prefix(a, b, i + 1)
    } else {
        i
    }
}

/// Inserting `b` among the literal children of `m`: into the child that starts
/// with `b[0]`, or as a new leaf. Gives the tree and the path to the node for `b`.
pub open spec fn insert_child_spec<T>(m: NodeModel<T>, b: Seq<u8>) -> (NodeModel<T>, Seq<Step>)
    decreases m, 0int,
{
    let s = match m.nodes0 {
        Some(s) => s,
        None => seq![],
    };
    let i = slot(s, byte_rank(b[0]));
    if 0 <= i < s.len() && rank(s[i]) == byte_rank(b[0]) {
        let r = insert_bytes_spec(s[i], b);
        (with_kids(m, false, s.update(i, r.0)), seq![Step { params: false, index: i }] + r.1)
    } else {
        (
            with_kids(m, false, s.insert(i, leaf(KeyModel::String(b)))),
            seq![Step { params: false, index: i }],
        )
    }
}

/// Inserting the bytes `b` at `m`: the key of `m` is split at the end of its
/// common prefix with `b`, and the rest of `b` goes among the literal children.
/// Gives the tree and the path to the node that ends `b`.
pub open spec fn insert_bytes_spec<T>(m: NodeModel<T>, b: Seq<u8>) -> (NodeModel<T>, Seq<Step>)
    decreases m, 1int,
{
    match m.key {
        KeyModel::String(k) => {
            if k.len() == 0 {
                (NodeModel { key: KeyModel::String(b), ..m }, seq![])
            } else {
                let c = common_prefix(k, b, 0);
                if c == 0 {
                    insert_child_spec(m, b)
                } else if c < k.len() {
                    let lower = NodeModel { key: KeyModel::String(k.subrange(c, k.len() as int)), ..m };
                    let upper = NodeModel {
                        key: KeyModel::String(k.subrange(0, c)),
                        value: None,
                        nodes0: Some(seq![lower]),
                        nodes1: None,
                    };
                    if c == b.len() {
                        (upper, seq![])
                    } else {
                        let rest = b.subrange(c, b.len() as int);
                        let i = if rank(lower) < byte_rank(rest[0]) {
                            1int
                        } else {
                            0int
                        };
                        (
                            with_kids(upper, false, seq![lower].insert(i, leaf(KeyModel::String(rest)))),
                            seq![Step { params: false, index: i }],
                        )
                    }
                } else if c == b.len() {
                    (m, seq![])
                } else {
                    insert_child_spec(m, b.subrange(c, b.len() as int))
                }
            }
        },
        KeyModel::Parameter(_) => insert_child_spec(m, b),
    }
}


/// Going down a path step by step.
pub proof fn lemma_at_cons<T>(m: NodeModel<T>, st: Step, p: Seq<Step>)
    ensures
        at(m, seq![st] + p) == at(kids(m, st.params)[st.index], p),
{
    assert((seq![st] + p).drop_first() =~= p);
    assert((seq![st] + p)[0] == st);
}

/// Replacing down a path step by step.
pub proof fn lemma_put_cons<T>(m: NodeModel<T>, st: Step, p: Seq<Step>, sub: NodeModel<T>)
    ensures
        put(m, seq![st] + p, sub) == with_kids(
            m,
            st.params,
            kids(m, st.params).update(st.index, put(kids(m, st.params)[st.index], p, sub)),
        ),
{
    assert((seq![st] + p).drop_first() =~= p);
    assert((seq![st] + p)[0] == st);
}

/// The children of `with_kids`.
pub proof fn lemma_with_kids<T>(m: NodeModel<T>, params: bool, s: Seq<NodeModel<T>>)
    ensures
        kids(with_kids(m, params, s), params) == s,
        kids(with_kids(m, params, s), !params) == kids(m, !params),
        with_kids(with_kids(m, params, s), params, s) == with_kids(m, params, s),
        with_kids(m, params, s).key == m.key,
        with_kids(m, params, s).value == m.value,
{
}

/// The tree after inserting a parameter child of kind `kind` (if missing), and
/// where that child stands.
pub open spec fn insert_param_spec<T>(m: NodeModel<T>, kind: Kind) -> (NodeModel<T>, int) {
    let s = kids(m, true);
    let i = slot(s, kind_rank(kind));
    if i < s.len() && s[i].key == KeyModel::Parameter(kind) {
        (with_kids(m, true, s), i)
    } else {
        (with_kids(m, true, s.insert(i, leaf(KeyModel::Parameter(kind)))), i)
    }
}

impl<T> Node<T> {
    /// A node with this key and value, and no children.
    pub fn new(key: Key, value: Option<T>) -> (n: Self)
        ensures
            n@ == (NodeModel { key: key@, value, nodes0: None, nodes1: None }),
    {
        Node { key, value, nodes0: None, nodes1: None }
    }

    /// Inserts `bytes` among the literal children: into the child that starts
    /// with `bytes[0]`, or as a new leaf.
    fn insert_child(&mut self, bytes: &[u8]) -> (ret: &mut Self)
        requires
            wf(old(self)@),
            bytes@.len() > 0 || kids(old(self)@, false).len() == 0,
        ensures
            ({
                let (mid, path) = insert_child_spec(old(self)@, bytes@);
                &&& ret@ == at(mid, path)
                &&& final(self)@ == put(mid, path, final(ret)@)
            }),
        decreases old(self)@, 0int,
    {
        let ghost m0 = self@;
        if self.nodes0.is_none() {
            self.nodes0 = Some(Vec::new());
        }
        let ghost m1 = self@;
        assert(kids(m1, false) == kids(m0, false));
        assert(m1 == with_kids(m0, false, kids(m0, false)));
        let nodes = self.nodes0.as_mut().unwrap();
        let ghost v0 = nodes@;
        let ghost len0 = v0.len();
        let ghost s = kids(m0, false);
        proof {
            lemma_models(v0, len0);
            assert(s == models(v0, len0));
        }
        let i = if bytes.len() == 0 {
            0
        } else {
            search_byte(nodes, bytes[0])
        };
        if i < nodes.len() && child_rank(&nodes[i]) == byte_index(bytes[0]) {
            let child = &mut nodes[i];
            proof {
                assert(child@ == s[i as int]);
                assert(m0.nodes0 is Some);
                assert(s[i as int] == m0.nodes0->Some_0[i as int]);
                lemma_wf_kid(m0, false, i as int);
                let fv = v0.update(i as int, *final(child));
                lemma_models(fv, len0);
                assert(models(fv, len0) =~= s.update(i as int, model(*final(child))));
            }
            let ghost c0 = child@;
            let r = child.insert_bytes(bytes);
            proof {
                let cr = insert_bytes_spec(c0, bytes@);
                let st = Step { params: false, index: i as int };
                let mid = with_kids(m0, false, s.update(i as int, cr.0));
                assert(insert_child_spec(m0, bytes@) == (mid, seq![st] + cr.1));
                lemma_with_kids(m0, false, s.update(i as int, cr.0));
                lemma_at_cons(mid, st, cr.1);
                lemma_put_cons(mid, st, cr.1, model(*final(r)));
                assert(s.update(i as int, cr.0).update(i as int, put(cr.0, cr.1, model(*final(r))))
                    =~= s.update(i as int, put(cr.0, cr.1, model(*final(r)))));
            }
            r
        } else {
            let leaf_node = Node::new(Key::String(copy_range(bytes, 0, bytes.len())), None);
            assert(bytes@.subrange(0, bytes@.len() as int) =~= bytes@);
            nodes.insert(i, leaf_node);
            let ghost v1 = nodes@;
            proof {
                lemma_models(v1, v1.len());
                assert(models(v1, v1.len()) =~= s.insert(i as int, leaf(KeyModel::String(bytes@))));
            }
            let r = &mut nodes[i];
            proof {
                let st = Step { params: false, index: i as int };
                let mid = with_kids(m0, false, s.insert(i as int, leaf(KeyModel::String(bytes@))));
                assert(insert_child_spec(m0, bytes@) == (mid, seq![st]));
                let fv = v1.update(i as int, *final(r));
                lemma_models(fv, v1.len());
                assert(models(fv, v1.len()) =~= models(v1, v1.len()).update(
                    i as int,
                    model(*final(r)),
                ));
                lemma_put_one(mid, st, model(*final(r)));
                lemma_at_cons(mid, st, seq![]);
                assert(seq![st] + Seq::<Step>::empty() =~= seq![st]);
            }
            r
        }
    }

    /// Inserts the bytes `bytes` below this node and gives the node that ends
    /// them, to be filled in by the caller. A literal key is split where it
    /// stops agreeing with `bytes`.
    pub fn insert_bytes(&mut self, bytes: &[u8]) -> (ret: &mut Self)
        requires
            wf(old(self)@),
            bytes@.len() > 0 || old(self)@.key == KeyModel::String(Seq::<u8>::empty()) || kids(
                old(self)@,
                false,
            ).len() == 0,
        ensures
            ({
                let (mid, path) = insert_bytes_spec(old(self)@, bytes@);
                &&& ret@ == at(mid, path)
                &&& final(self)@ == put(mid, path, final(ret)@)
            }),
        decreases old(self)@, 1int,
    {
        let ghost m0 = self@;
        let len = bytes.len();
        let klen = match &self.key {
            Key::Parameter(_) => {
                return self.insert_child(bytes);
            },
            Key::String(k) => k.len(),
        };
        if klen == 0 {
            self.key = Key::String(copy_range(bytes, 0, len));
            assert(bytes@.subrange(0, len as int) =~= bytes@);
            return self;
        }
        let c = match &self.key {
            Key::String(k) => prefix_len(k, bytes),
            Key::Parameter(_) => 0,
        };
        if c == 0 {
            return self.insert_child(bytes);
        }
        if c < klen {
            let ghost k = m0.key->String_0;
            let (prefix, suffix) = match &self.key {
                Key::String(k) => (copy_range(k, 0, c), copy_range(k, c, klen)),
                Key::Parameter(_) => (Vec::new(), Vec::new()),
            };
            self.key = Key::String(suffix);
            let mut lower = Node::new(Key::String(prefix), None);
            core::mem::swap(self, &mut lower);
            let ghost lm = NodeModel { key: KeyModel::String(k.subrange(c as int, k.len() as int)), ..m0 };
            assert(lower@ == lm);
            let mut v: Vec<Node<T>> = Vec::new();
            let i: usize;
            if c == len {
                v.push(lower);
                i = 0;
                self.nodes0 = Some(v);
                proof {
                    lemma_models(v@, 1);
                    assert(models(v@, 1) =~= seq![lm]);
                }
                return self;
            }
            let rest = vstd::slice::slice_subrange(bytes, c, len);
            let leaf_node = Node::new(Key::String(copy_range(rest, 0, rest.len())), None);
            assert(rest@.subrange(0, rest@.len() as int) =~= rest@);
            let lr = child_rank(&lower);
            let rr = byte_index(rest[0]);
            if lr < rr {
                v.push(lower);
                v.push(leaf_node);
                i = 1;
            } else {
                v.push(leaf_node);
                v.push(lower);
                i = 0;
            }
            self.nodes0 = Some(v);
            let ghost v1 = v@;
            let ghost lf = leaf::<T>(KeyModel::String(rest@));
            proof {
                lemma_models(v1, 2);
                assert(models(v1, 2) =~= seq![lm].insert(i as int, lf));
            }
            let nodes = self.nodes0.as_mut().unwrap();
            let r = &mut nodes[i];
            proof {
                let st = Step { params: false, index: i as int };
                let upper = NodeModel {
                    key: KeyModel::String(k.subrange(0, c as int)),
                    value: None,
                    nodes0: Some(seq![lm]),
                    nodes1: None,
                };
                let mid = with_kids(upper, false, seq![lm].insert(i as int, lf));
                assert(insert_bytes_spec(m0, bytes@) == (mid, seq![st]));
                let fv = v1.update(i as int, *final(r));
                lemma_models(fv, 2);
                assert(models(fv, 2) =~= models(v1, 2).update(i as int, model(*final(r))));
                lemma_put_one(mid, st, model(*final(r)));
                lemma_at_cons(mid, st, seq![]);
                assert(seq![st] + Seq::<Step>::empty() =~= seq![st]);
            }
            return r;
        }
        if c == len {
            return self;
        }
        let rest = vstd::slice::slice_subrange(bytes, c, len);
        self.insert_child(rest)
    }

    /// The child of kind `kind`, added if missing, to be filled in by the caller.
    pub fn insert_parameter(&mut self, kind: Kind) -> (ret: &mut Self)
        requires
            ordered(kids(old(self)@, true), true),
        ensures
            ({
                let (mid, i) = insert_param_spec(old(self)@, kind);
                &&& ret@ == kids(mid, true)[i]
                &&& final(self)@ == put(mid, seq![Step { params: true, index: i }], final(ret)@)
            }),
    {
        if self.nodes1.is_none() {
            self.nodes1 = Some(Vec::new());
        }
        let ghost m0 = self@;
        assert(kids(m0, true) == kids(old(self)@, true));
        let nodes = self.nodes1.as_mut().unwrap();
        let ghost v0 = nodes@;
        let ghost len0 = v0.len();
        proof {
            lemma_models(v0, len0);
        }
        let i = search(nodes, true, kind_index(kind));
        if i < nodes.len() && is_kind(&nodes[i], kind) {
            let r = &mut nodes[i];
            proof {
                let fv = v0.update(i as int, *final(r));
                lemma_models(fv, len0);
                assert(models(fv, len0) =~= models(v0, len0).update(i as int, model(*final(r))));
                assert(kids(insert_param_spec(old(self)@, kind).0, true) == models(v0, len0));
                lemma_put_one(insert_param_spec(old(self)@, kind).0, Step { params: true, index: i as int }, model(*final(r)));
            }
            r
        } else {
            nodes.insert(i, Node::new(Key::Parameter(kind), None));
            let ghost v1 = nodes@;
            proof {
                lemma_models(v1, v1.len());
                assert(models(v1, v1.len()) =~= models(v0, len0).insert(
                    i as int,
                    leaf(KeyModel::Parameter(kind)),
                ));
            }
            let r = &mut nodes[i];
            proof {
                let fv = v1.update(i as int, *final(r));
                lemma_models(fv, v1.len());
                assert(models(fv, v1.len()) =~= models(v1, v1.len()).update(
                    i as int,
                    model(*final(r)),
                ));
                lemma_put_one(insert_param_spec(old(self)@, kind).0, Step { params: true, index: i as int }, model(*final(r)));
            }
            r
        }
    }
}

/// The length of the common prefix of `a` and `b`.
fn prefix_len(a: &[u8], b: &[u8]) -> (c: usize)
    ensures
        c == common_prefix(a@, b@, 0),
        c <= a@.len(),
        c <= b@.len(),
        forall|k: int| 0 <= k < c ==> a@[k] == b@[k],
        c < a@.len() && c < b@.len() ==> a@[c as int] != b@[c as int],
{
    let mut i: usize = 0;
    while i < a.len() && i < b.len() && a[i] == b[i]
        invariant
            i <= a@.len(),
            i <= b@.len(),
            common_prefix(a@, b@, i as int) == common_prefix(a@, b@, 0),
            forall|k: int| 0 <= k < i ==> a@[k] == b@[k],
        decreases a.len() - i,
    {
        i = i + 1;
    }
    i
}

fn is_kind<T>(n: &Node<T>, kind: Kind) -> (b: bool)
    ensures
        b == (n@.key == KeyModel::Parameter(kind)),
{
    match &n.key {
        Key::Parameter(k) => *k == kind,
        Key::String(_) => false,
    }
}

fn kind_index(k: Kind) -> (r: u16)
    ensures
        r == kind_rank(k),
{
    match k {
        Kind::Normal => 0,
        Kind::Optional => 1,
        Kind::OptionalSegment => 2,
        Kind::OneOrMore => 3,
        Kind::ZeroOrMore => 4,
        Kind::ZeroOrMoreSegment => 5,
    }
}

pub(crate) fn byte_index(b: u8) -> (r: u16)
    ensures
        r == byte_rank(b),
{
    if b == SLASH {
        256
    } else {
        b as u16
    }
}

/// The rank of a child, whose literal key (if any) is not empty.
pub(crate) fn child_rank<T>(n: &Node<T>) -> (r: u16)
    requires
        n@.key matches KeyModel::String(s) ==> s.len() > 0,
    ensures
        r == rank(n@),
{
    match &n.key {
        Key::Parameter(k) => kind_index(*k),
        Key::String(s) => byte_index(s[0]),
    }
}

/// The slot of rank `r` among ordered children (binary search).
pub(crate) fn search<T>(nodes: &Vec<Node<T>>, params: bool, r: u16) -> (i: usize)
    requires
        ordered(models(nodes@, nodes@.len()), params),
    ensures
        i == slot(models(nodes@, nodes@.len()), r as int),
        i <= nodes@.len(),
{
    let ghost s = models(nodes@, nodes@.len());
    proof {
        lemma_models(nodes@, nodes@.len());
    }
    let mut lo: usize = 0;
    let mut hi: usize = nodes.len();
    while lo < hi
        invariant
            0 <= lo <= hi <= nodes@.len(),
            s == models(nodes@, nodes@.len()),
            s.len() == nodes@.len(),
            ordered(s, params),
            forall|j: int| 0 <= j < s.len() ==> #[trigger] s[j] == model(nodes@[j]),
            forall|j: int| 0 <= j < lo ==> rank(#[trigger] s[j]) < r,
            forall|j: int| hi <= j < s.len() ==> rank(#[trigger] s[j]) >= r,
        decreases hi - lo,
    {
        let mid = lo + (hi - lo) / 2;
        assert(s[mid as int] == model(nodes@[mid as int]));
        let kr = child_rank(&nodes[mid]);
        if kr < r {
            lo = mid + 1;
        } else {
            hi = mid;
        }
    }
    proof {
        lemma_slot(s, r as int, lo as int);
    }
    lo
}

/// The slot of the first byte `b` among ordered literal children: a binary
/// search that compares first bytes with [`crate::order::compare`].
pub(crate) fn search_byte<T>(nodes: &Vec<Node<T>>, b: u8) -> (i: usize)
    requires
        ordered(models(nodes@, nodes@.len()), false),
    ensures
        i == slot(models(nodes@, nodes@.len()), byte_rank(b)),
        i <= nodes@.len(),
{
    let ghost s = models(nodes@, nodes@.len());
    let ghost r = byte_rank(b);
    proof {
        lemma_models(nodes@, nodes@.len());
    }
    let mut lo: usize = 0;
    let mut hi: usize = nodes.len();
    while lo < hi
        invariant
            0 <= lo <= hi <= nodes@.len(),
            s == models(nodes@, nodes@.len()),
            s.len() == nodes@.len(),
            r == byte_rank(b),
            ordered(s, false),
            forall|j: int| 0 <= j < s.len() ==> #[trigger] s[j] == model(nodes@[j]),
            forall|j: int| 0 <= j < lo ==> rank(#[trigger] s[j]) < r,
            forall|j: int| hi <= j < s.len() ==> rank(#[trigger] s[j]) >= r,
        decreases hi - lo,
    {
        let mid = lo + (hi - lo) / 2;
        assert(s[mid as int] == model(nodes@[mid as int]));
        let first = match &nodes[mid].key {
            Key::String(k) => k[0],
            Key::Parameter(_) => 0,
        };
        if crate::order::byte_before(first, b) {
            lo = mid + 1;
        } else {
            hi = mid;
        }
    }
    proof {
        lemma_slot(s, r, lo as int);
    }
    lo
}

/// In an ordered sequence, the slot of rank `r` is the index `k` that splits
/// ranks below `r` from the others.
pub proof fn lemma_slot<T>(s: Seq<NodeModel<T>>, r: int, k: int)
    requires
        0 <= k <= s.len(),
        forall|j: int| 0 <= j < k ==> rank(#[trigger] s[j]) < r,
        forall|j: int| k <= j < s.len() ==> rank(#[trigger] s[j]) >= r,
    ensures
        slot(s, r) == k,
    decreases s.len(),
{
    if s.len() > 0 {
        if k == s.len() {
        } else {
            assert(rank(s[s.len() - 1]) >= r);
            lemma_slot(s.drop_last(), r, k);
        }
    }
}

} // verus!
