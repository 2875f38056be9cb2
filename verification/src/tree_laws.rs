//! Laws of the tree: inserting keeps it well formed, and the node that an
//! insertion hands back is reached by its path.
use vstd::prelude::*;

use crate::node::{
    at, byte_rank, common_prefix, insert_bytes_spec, insert_child_spec, insert_param_spec, kids,
    kind_rank, leaf, ordered, put, rank, slot, wf, with_kids, KeyModel, NodeModel, Step,
};
use crate::parser::Kind;

verus! {

/// `path` leads to a node below `m`: each index is within its group.
pub open spec fn valid_path<T>(m: NodeModel<T>, path: Seq<Step>) -> bool
    decreases path.len(),
{
    path.len() == 0 || {
        let s = kids(m, path[0].params);
        &&& 0 <= path[0].index < s.len()
        &&& valid_path(s[path[0].index], path.drop_first())
    }
}

/// `b` may stand where `a` stands among its siblings: same group, same rank.
pub open spec fn same_place<T>(a: NodeModel<T>, b: NodeModel<T>) -> bool {
    &&& rank(a) == rank(b)
    &&& match (a.key, b.key) {
        (KeyModel::Parameter(_), KeyModel::Parameter(_)) => true,
        (KeyModel::String(x), KeyModel::String(y)) => x.len() > 0 && y.len() > 0,
        _ => false,
    }
}

/// Every value stored below `m` is less than `n`.
pub open spec fn values_below(m: NodeModel<usize>, n: nat) -> bool
    decreases m,
{
    &&& (m.value matches Some(v) ==> v < n)
    &&& forall|i: int|
        0 <= i < kids(m, false).len() ==> values_below(#[trigger] m.nodes0->Some_0[i], n)
    &&& forall|i: int| 0 <= i < kids(m, true).len() ==> values_below(#[trigger] m.nodes1->Some_0[i], n)
}

pub proof fn lemma_values_kid(m: NodeModel<usize>, n: nat, params: bool, i: int)
    requires
        values_below(m, n),
        0 <= i < kids(m, params).len(),
    ensures
        values_below(kids(m, params)[i], n),
{
    if params {
        assert(kids(m, params)[i] == m.nodes1->Some_0[i]);
    } else {
        assert(kids(m, params)[i] == m.nodes0->Some_0[i]);
    }
}

/// A node whose children all satisfy `values_below` does, when its own value does.
pub proof fn lemma_values_intro(m: NodeModel<usize>, n: nat)
    requires
        m.value matches Some(v) ==> v < n,
        forall|i: int| 0 <= i < kids(m, false).len() ==> values_below(#[trigger] kids(m, false)[i], n),
        forall|i: int| 0 <= i < kids(m, true).len() ==> values_below(#[trigger] kids(m, true)[i], n),
    ensures
        values_below(m, n),
{
    assert forall|i: int| 0 <= i < kids(m, false).len() implies values_below(
        #[trigger] m.nodes0->Some_0[i],
        n,
    ) by {
        assert(kids(m, false)[i] == m.nodes0->Some_0[i]);
    }
    assert forall|i: int| 0 <= i < kids(m, true).len() implies values_below(
        #[trigger] m.nodes1->Some_0[i],
        n,
    ) by {
        assert(kids(m, true)[i] == m.nodes1->Some_0[i]);
    }
}

/// A node whose children are ordered and well formed is well formed.
pub proof fn lemma_wf_intro<T>(m: NodeModel<T>)
    requires
        ordered(kids(m, false), false),
        ordered(kids(m, true), true),
        forall|i: int| 0 <= i < kids(m, false).len() ==> wf(#[trigger] kids(m, false)[i]),
        forall|i: int| 0 <= i < kids(m, true).len() ==> wf(#[trigger] kids(m, true)[i]),
    ensures
        wf(m),
{
    assert forall|i: int| 0 <= i < kids(m, false).len() implies wf(#[trigger] m.nodes0->Some_0[i]) by {
        assert(kids(m, false)[i] == m.nodes0->Some_0[i]);
    }
    assert forall|i: int| 0 <= i < kids(m, true).len() implies wf(#[trigger] m.nodes1->Some_0[i]) by {
        assert(kids(m, true)[i] == m.nodes1->Some_0[i]);
    }
}

pub proof fn lemma_wf_kid_of<T>(m: NodeModel<T>, params: bool, i: int)
    requires
        wf(m),
        0 <= i < kids(m, params).len(),
    ensures
        wf(kids(m, params)[i]),
        ordered(kids(m, params), params),
{
    crate::node::lemma_wf_kid(m, params, i);
}

/// The children of a well-formed node are ordered.
pub proof fn lemma_wf_ordered<T>(m: NodeModel<T>)
    requires
        wf(m),
    ensures
        ordered(kids(m, false), false),
        ordered(kids(m, true), true),
{
}

/// Replacing one child by one that stands in the same place keeps the order.
pub proof fn lemma_ordered_update<T>(s: Seq<NodeModel<T>>, params: bool, i: int, x: NodeModel<T>)
    requires
        ordered(s, params),
        0 <= i < s.len(),
        same_place(s[i], x),
    ensures
        ordered(s.update(i, x), params),
{
    let t = s.update(i, x);
    assert forall|a: int, b: int| 0 <= a < b < t.len() implies rank(#[trigger] t[a]) < rank(
        #[trigger] t[b],
    ) by {
        assert(rank(t[a]) == rank(s[a]));
        assert(rank(t[b]) == rank(s[b]));
    }
}

/// The slot of a rank is within the sequence.
pub proof fn lemma_slot_bounds<T>(s: Seq<NodeModel<T>>, r: int)
    ensures
        0 <= slot(s, r) <= s.len(),
    decreases s.len(),
{
    if s.len() > 0 && !(rank(s.last()) < r) {
        lemma_slot_bounds(s.drop_last(), r);
    }
}

/// In an ordered sequence, children before the slot rank lower and the others
/// rank at least `r`.
pub proof fn lemma_slot_split<T>(s: Seq<NodeModel<T>>, params: bool, r: int)
    requires
        ordered(s, params),
    ensures
        forall|j: int| 0 <= j < slot(s, r) ==> rank(#[trigger] s[j]) < r,
        forall|j: int| slot(s, r) <= j < s.len() ==> rank(#[trigger] s[j]) >= r,
    decreases s.len(),
{
    lemma_slot_bounds(s, r);
    if s.len() > 0 {
        if rank(s.last()) < r {
            assert forall|j: int| 0 <= j < slot(s, r) implies rank(#[trigger] s[j]) < r by {
                if j < s.len() - 1 {
                    assert(rank(s[j]) < rank(s[s.len() - 1]));
                }
            }
        } else {
            let t = s.drop_last();
            assert(ordered(t, params)) by {
                assert forall|a: int, b: int| 0 <= a < b < t.len() implies rank(#[trigger] t[a]) < rank(
                    #[trigger] t[b],
                ) by {
                    assert(t[a] == s[a] && t[b] == s[b]);
                }
            }
            lemma_slot_split(t, params, r);
            assert forall|j: int| 0 <= j < slot(s, r) implies rank(#[trigger] s[j]) < r by {
                assert(s[j] == t[j]);
            }
            assert forall|j: int| slot(s, r) <= j < s.len() implies rank(#[trigger] s[j]) >= r by {
                if j < s.len() - 1 {
                    assert(s[j] == t[j]);
                }
            }
        }
    }
}

/// Inserting a child whose rank is missing at its slot keeps the order.
pub proof fn lemma_ordered_insert<T>(s: Seq<NodeModel<T>>, params: bool, x: NodeModel<T>)
    requires
        ordered(s, params),
        forall|j: int| 0 <= j < s.len() ==> rank(#[trigger] s[j]) != rank(x),
        if params {
            x.key is Parameter
        } else {
            x.key matches KeyModel::String(k) && k.len() > 0
        },
    ensures
        ordered(s.insert(slot(s, rank(x)), x), params),
        0 <= slot(s, rank(x)) <= s.len(),
{
    let i = slot(s, rank(x));
    lemma_slot_split(s, params, rank(x));
    lemma_slot_bounds(s, rank(x));
    let t = s.insert(i, x);
    assert forall|a: int| 0 <= a < t.len() implies if params {
        #[trigger] t[a].key is Parameter
    } else {
        t[a].key matches KeyModel::String(k) && k.len() > 0
    } by {
        if a < i {
            assert(t[a] == s[a]);
        } else if a > i {
            assert(t[a] == s[a - 1]);
        }
    }
    assert forall|a: int, b: int| 0 <= a < b < t.len() implies rank(#[trigger] t[a]) < rank(
        #[trigger] t[b],
    ) by {
        if a < i {
            assert(t[a] == s[a]);
        } else if a > i {
            assert(t[a] == s[a - 1]);
        }
        if b < i {
            assert(t[b] == s[b]);
        } else if b > i {
            assert(t[b] == s[b - 1]);
            assert(rank(s[b - 1]) != rank(x));
        }
    }
}

/// What `common_prefix` counts: the bytes before it agree, and it stops at
/// the end of either sequence or at the first disagreement.
pub proof fn lemma_common_prefix(a: Seq<u8>, b: Seq<u8>, i: int)
    requires
        0 <= i <= a.len(),
        i <= b.len(),
        forall|k: int| 0 <= k < i ==> a[k] == b[k],
    ensures
        ({
            let c = common_prefix(a, b, i);
            &&& i <= c <= a.len()
            &&& c <= b.len()
            &&& forall|k: int| 0 <= k < c ==> a[k] == b[k]
            &&& (c < a.len() && c < b.len() ==> a[c] != b[c])
        }),
    decreases a.len() - i,
{
    if i < a.len() && i < b.len() && a[i] == b[i] {
        lemma_common_prefix(a, b, i + 1);
    }
}

/// Well-formedness does not depend on a node's own key or value.
pub proof fn lemma_wf_rekey<T>(m: NodeModel<T>, x: NodeModel<T>)
    requires
        wf(m),
        x.nodes0 == m.nodes0,
        x.nodes1 == m.nodes1,
    ensures
        wf(x),
{
    assert(kids(x, false) == kids(m, false));
    assert(kids(x, true) == kids(m, true));
    assert forall|i: int| 0 <= i < kids(x, false).len() implies wf(#[trigger] kids(x, false)[i]) by {
        lemma_wf_kid_of(m, false, i);
    }
    assert forall|i: int| 0 <= i < kids(x, true).len() implies wf(#[trigger] kids(x, true)[i]) by {
        lemma_wf_kid_of(m, true, i);
    }
    lemma_wf_intro(x);
}

/// Inserting among the literal children keeps the tree well formed, leads to
/// the node it hands back, and keeps the node in its place.
pub proof fn lemma_insert_child_wf<T>(m: NodeModel<T>, b: Seq<u8>)
    requires
        wf(m),
        b.len() > 0,
    ensures
        ({
            let (mid, path) = insert_child_spec(m, b);
            &&& wf(mid)
            &&& valid_path(mid, path)
            &&& path.len() > 0
            &&& mid.key == m.key
            &&& mid.value == m.value
            &&& mid.nodes1 == m.nodes1
        }),
    decreases m, 0int,
{
    let s = kids(m, false);
    let r = byte_rank(b[0]);
    let i = slot(s, r);
    lemma_wf_ordered(m);
    assert(ordered(s, false));
    lemma_slot_bounds(s, r);
    lemma_slot_split(s, false, r);
    if 0 <= i < s.len() && rank(s[i]) == r {
        let kid = s[i];
        lemma_wf_kid_of(m, false, i);
        assert(m.nodes0 is Some);
        assert(kid == m.nodes0->Some_0[i]);
        lemma_insert_bytes_wf(kid, b);
        let rr = insert_bytes_spec(kid, b);
        let t = s.update(i, rr.0);
        let mid = with_kids(m, false, t);
        lemma_ordered_update(s, false, i, rr.0);
        assert(kids(mid, false) == t);
        assert(kids(mid, true) == kids(m, true));
        assert forall|j: int| 0 <= j < t.len() implies wf(#[trigger] t[j]) by {
            if j != i {
                lemma_wf_kid_of(m, false, j);
            }
        }
        assert forall|j: int| 0 <= j < kids(mid, true).len() implies wf(#[trigger] kids(mid, true)[j]) by {
            lemma_wf_kid_of(m, true, j);
        }
        lemma_wf_ordered(m);
        lemma_wf_intro(mid);
        let path = seq![Step { params: false, index: i }] + rr.1;
        assert(path[0] == Step { params: false, index: i });
        assert(path.drop_first() =~= rr.1);
        assert(kids(mid, false)[i] == rr.0);
        assert(valid_path(kids(mid, path[0].params)[path[0].index], path.drop_first()));
    } else {
        let x = leaf::<T>(KeyModel::String(b));
        assert(rank(x) == r);
        assert forall|j: int| 0 <= j < s.len() implies rank(#[trigger] s[j]) != rank(x) by {
            if j > i {
                assert(rank(s[i]) < rank(s[j]));
            }
        }
        lemma_ordered_insert(s, false, x);
        let t = s.insert(i, x);
        let mid = with_kids(m, false, t);
        assert(kids(mid, false) == t);
        assert forall|j: int| 0 <= j < t.len() implies wf(#[trigger] t[j]) by {
            if j < i {
                assert(t[j] == s[j]);
                lemma_wf_kid_of(m, false, j);
            } else if j > i {
                assert(t[j] == s[j - 1]);
                lemma_wf_kid_of(m, false, j - 1);
            } else {
                assert(kids(x, false).len() == 0 && kids(x, true).len() == 0);
                lemma_wf_intro(x);
            }
        }
        assert forall|j: int| 0 <= j < kids(mid, true).len() implies wf(#[trigger] kids(mid, true)[j]) by {
            lemma_wf_kid_of(m, true, j);
        }
        lemma_wf_ordered(m);
        lemma_wf_intro(mid);
        let path = seq![Step { params: false, index: i }];
        assert(path.drop_first() =~= Seq::<Step>::empty());
        assert(valid_path(kids(mid, path[0].params)[path[0].index], Seq::<Step>::empty()));
    }
}

/// Inserting bytes keeps the tree well formed, leads to the node it hands
/// back, and keeps the node in its place among its siblings.
pub proof fn lemma_insert_bytes_wf<T>(m: NodeModel<T>, b: Seq<u8>)
    requires
        wf(m),
        b.len() > 0 || m.key == KeyModel::String(Seq::<u8>::empty()),
    ensures
        ({
            let (mid, path) = insert_bytes_spec(m, b);
            &&& wf(mid)
            &&& valid_path(mid, path)
            &&& (m.key matches KeyModel::String(k) && k.len() == 0) || same_place(m, mid)
        }),
    decreases m, 1int,
{
    match m.key {
        KeyModel::String(k) => {
            if k.len() == 0 {
                lemma_wf_rekey(m, NodeModel { key: KeyModel::String(b), ..m });
            } else {
                let c = common_prefix(k, b, 0);
                lemma_common_prefix(k, b, 0);
                if c == 0 {
                    lemma_insert_child_wf(m, b);
                } else if c < k.len() {
                    let lower = NodeModel { key: KeyModel::String(k.subrange(c, k.len() as int)), ..m };
                    let upper = NodeModel {
                        key: KeyModel::String(k.subrange(0, c)),
                        value: None,
                        nodes0: Some(seq![lower]),
                        nodes1: None,
                    };
                    lemma_wf_rekey(m, lower);
                    assert(rank(lower) == byte_rank(k[c]));
                    if c == b.len() {
                        assert(kids(upper, false) == seq![lower]);
                        assert(ordered(kids(upper, false), false));
                        assert(ordered(kids(upper, true), true));
                        lemma_wf_intro(upper);
                    } else {
                        let rest = b.subrange(c, b.len() as int);
                        let x = leaf::<T>(KeyModel::String(rest));
                        assert(rest[0] == b[c]);
                        assert(k[c] != b[c]);
                        assert(rank(x) == byte_rank(b[c]));
                        assert(rank(x) != rank(lower));
                        let i = if rank(lower) < byte_rank(rest[0]) {
                            1int
                        } else {
                            0int
                        };
                        let t = seq![lower].insert(i, x);
                        let mid = with_kids(upper, false, t);
                        assert(kids(mid, false) == t);
                        assert(ordered(t, false));
                        assert(ordered(kids(mid, true), true));
                        assert forall|j: int| 0 <= j < t.len() implies wf(#[trigger] t[j]) by {
                            if t[j] == x {
                                lemma_wf_intro(x);
                            }
                        }
                        lemma_wf_intro(mid);
                        let path = seq![Step { params: false, index: i }];
                        assert(path.drop_first() =~= Seq::<Step>::empty());
                        assert(valid_path(kids(mid, path[0].params)[path[0].index], Seq::<Step>::empty()));
                    }
                } else if c == b.len() {
                } else {
                    lemma_insert_child_wf(m, b.subrange(c, b.len() as int));
                }
            }
        },
        KeyModel::Parameter(_) => {
            lemma_insert_child_wf(m, b);
        },
    }
}

/// Inserting a parameter child keeps the tree well formed and leads to it.
pub proof fn lemma_insert_param_wf<T>(m: NodeModel<T>, kind: Kind)
    requires
        wf(m),
    ensures
        ({
            let (mid, i) = insert_param_spec(m, kind);
            let path = seq![Step { params: true, index: i }];
            &&& wf(mid)
            &&& valid_path(mid, path)
            &&& mid.key == m.key
            &&& mid.value == m.value
            &&& mid.nodes0 == m.nodes0
        }),
{
    let s = kids(m, true);
    let x = leaf::<T>(KeyModel::Parameter(kind));
    let r = kind_rank(kind);
    let i = slot(s, r);
    lemma_wf_ordered(m);
    lemma_slot_bounds(s, r);
    lemma_slot_split(s, true, r);
    let (mid, i2) = insert_param_spec(m, kind);
    assert(i2 == i);
    let path = seq![Step { params: true, index: i }];
    assert(path.drop_first() =~= Seq::<Step>::empty());
    if i < s.len() && s[i].key == KeyModel::Parameter(kind) {
        lemma_wf_rekey(m, mid);
        assert(kids(mid, true) == s);
        assert(valid_path(kids(mid, true)[i], Seq::<Step>::empty()));
        assert(valid_path(mid, path));
    } else {
        assert(rank(x) == r);
        assert forall|j: int| 0 <= j < s.len() implies rank(#[trigger] s[j]) != rank(x) by {
            if j == i {
                // the same rank among parameters means the same kind
                assert(s[i].key is Parameter);
            } else if j > i {
                assert(rank(s[i]) < rank(s[j]));
            }
        }
        lemma_ordered_insert(s, true, x);
        let t = s.insert(i, x);
        assert(kids(mid, true) == t);
        assert(kids(mid, false) == kids(m, false));
        assert forall|j: int| 0 <= j < t.len() implies wf(#[trigger] t[j]) by {
            if j < i {
                assert(t[j] == s[j]);
                lemma_wf_kid_of(m, true, j);
            } else if j > i {
                assert(t[j] == s[j - 1]);
                lemma_wf_kid_of(m, true, j - 1);
            } else {
                lemma_wf_intro(x);
            }
        }
        assert forall|j: int| 0 <= j < kids(mid, false).len() implies wf(#[trigger] kids(mid, false)[j]) by {
            lemma_wf_kid_of(m, false, j);
        }
        lemma_wf_intro(mid);
        assert(valid_path(kids(mid, true)[i], Seq::<Step>::empty()));
        assert(valid_path(mid, path));
    }
}

/// The node at a valid path of a well-formed tree is well formed.
pub proof fn lemma_wf_at<T>(m: NodeModel<T>, path: Seq<Step>)
    requires
        wf(m),
        valid_path(m, path),
    ensures
        wf(at(m, path)),
    decreases path.len(),
{
    if path.len() > 0 {
        lemma_wf_kid_of(m, path[0].params, path[0].index);
        lemma_wf_at(kids(m, path[0].params)[path[0].index], path.drop_first());
    }
}

/// The node at a valid path holds only values below `n` when the tree does.
pub proof fn lemma_values_at(m: NodeModel<usize>, n: nat, path: Seq<Step>)
    requires
        values_below(m, n),
        valid_path(m, path),
    ensures
        values_below(at(m, path), n),
    decreases path.len(),
{
    if path.len() > 0 {
        lemma_values_kid(m, n, path[0].params, path[0].index);
        lemma_values_at(kids(m, path[0].params)[path[0].index], n, path.drop_first());
    }
}

/// Putting a node where a valid path leads: the path still leads there, and
/// the tree stays well formed when the new node is well formed and stands in
/// the old one's place.
pub proof fn lemma_put_wf<T>(m: NodeModel<T>, path: Seq<Step>, x: NodeModel<T>)
    requires
        wf(m),
        valid_path(m, path),
        wf(x),
        path.len() > 0 ==> same_place(at(m, path), x),
    ensures
        wf(put(m, path, x)),
        valid_path(put(m, path, x), path),
        at(put(m, path, x), path) == x,
        path.len() > 0 ==> same_place(m, put(m, path, x)) || (put(m, path, x).key == m.key),
        path.len() > 0 ==> put(m, path, x).key == m.key,
    decreases path.len(),
{
    if path.len() > 0 {
        let st = path[0];
        let s = kids(m, st.params);
        let i = st.index;
        let rest = path.drop_first();
        lemma_wf_kid_of(m, st.params, i);
        if rest.len() > 0 {
            lemma_put_wf(s[i], rest, x);
        }
        let y = put(s[i], rest, x);
        assert(same_place(s[i], y)) by {
            if rest.len() == 0 {
                assert(y == x);
                assert(at(m, path) == at(s[i], rest));
            }
        }
        let t = s.update(i, y);
        let r = put(m, path, x);
        assert(r == with_kids(m, st.params, t));
        lemma_ordered_update(s, st.params, i, y);
        lemma_wf_ordered(m);
        assert(kids(r, st.params) == t);
        assert(kids(r, !st.params) == kids(m, !st.params));
        assert forall|j: int| 0 <= j < kids(r, false).len() implies wf(#[trigger] kids(r, false)[j]) by {
            if st.params == false && j == i {
                if rest.len() == 0 {
                    assert(y == x);
                }
            } else {
                lemma_wf_kid_of(m, false, j);
            }
        }
        assert forall|j: int| 0 <= j < kids(r, true).len() implies wf(#[trigger] kids(r, true)[j]) by {
            if st.params == true && j == i {
                if rest.len() == 0 {
                    assert(y == x);
                }
            } else {
                lemma_wf_kid_of(m, true, j);
            }
        }
        lemma_wf_intro(r);
        assert(kids(r, st.params)[i] == y);
        if rest.len() == 0 {
            assert(valid_path(y, rest));
        }
        assert(at(r, path) == at(y, rest));
    }
}

/// Putting a node whose values are below `n` into a tree whose values are
/// below `n` keeps them below `n`.
pub proof fn lemma_put_values(m: NodeModel<usize>, n: nat, path: Seq<Step>, x: NodeModel<usize>)
    requires
        values_below(m, n),
        valid_path(m, path),
        values_below(x, n),
    ensures
        values_below(put(m, path, x), n),
    decreases path.len(),
{
    if path.len() > 0 {
        let st = path[0];
        let s = kids(m, st.params);
        let i = st.index;
        let rest = path.drop_first();
        lemma_values_kid(m, n, st.params, i);
        lemma_put_values(s[i], n, rest, x);
        let y = put(s[i], rest, x);
        let r = put(m, path, x);
        assert(kids(r, st.params) == s.update(i, y));
        assert(kids(r, !st.params) == kids(m, !st.params));
        assert forall|j: int| 0 <= j < kids(r, false).len() implies values_below(
            #[trigger] kids(r, false)[j],
            n,
        ) by {
            if !(st.params == false && j == i) {
                lemma_values_kid(m, n, false, j);
            }
        }
        assert forall|j: int| 0 <= j < kids(r, true).len() implies values_below(
            #[trigger] kids(r, true)[j],
            n,
        ) by {
            if !(st.params == true && j == i) {
                lemma_values_kid(m, n, true, j);
            }
        }
        lemma_values_intro(r, n);
    }
}

/// Putting twice along a path: the inner put can be done first.
pub proof fn lemma_put_put<T>(m: NodeModel<T>, p: Seq<Step>, q: Seq<Step>, a: NodeModel<T>, x: NodeModel<T>)
    requires
        valid_path(m, p),
    ensures
        put(put(m, p, a), p + q, x) == put(m, p, put(a, q, x)),
        at(put(m, p, a), p + q) == at(a, q),
    decreases p.len(),
{
    if p.len() == 0 {
        assert(p + q =~= q);
    } else {
        let st = p[0];
        let s = kids(m, st.params);
        let i = st.index;
        let rest = p.drop_first();
        lemma_put_put(s[i], rest, q, a, x);
        assert((p + q)[0] == st);
        assert((p + q).drop_first() =~= rest + q);
        let ma = put(m, p, a);
        let y = put(s[i], rest, a);
        assert(kids(ma, st.params) == s.update(i, y));
        assert(kids(ma, st.params)[i] == y);
        assert(s.update(i, y).update(i, put(y, rest + q, x)) =~= s.update(i, put(s[i], rest, put(a, q, x))));
    }
}

/// Inserting bytes never brings in a value.
pub proof fn lemma_insert_bytes_values(m: NodeModel<usize>, b: Seq<u8>, n: nat)
    requires
        values_below(m, n),
    ensures
        values_below(insert_bytes_spec(m, b).0, n),
    decreases m, 1int,
{
    match m.key {
        KeyModel::String(k) => {
            if k.len() == 0 {
                lemma_values_rekey(m, NodeModel { key: KeyModel::String(b), ..m }, n);
            } else {
                let c = common_prefix(k, b, 0);
                if c == 0 {
                    lemma_insert_child_values(m, b, n);
                } else if c < k.len() {
                    let lower = NodeModel { key: KeyModel::String(k.subrange(c, k.len() as int)), ..m };
                    let upper = NodeModel {
                        key: KeyModel::String(k.subrange(0, c)),
                        value: None,
                        nodes0: Some(seq![lower]),
                        nodes1: None,
                    };
                    lemma_values_rekey(m, lower, n);
                    if c == b.len() {
                        assert(kids(upper, false) == seq![lower]);
                        lemma_values_intro(upper, n);
                    } else {
                        let rest = b.subrange(c, b.len() as int);
                        let x = leaf::<usize>(KeyModel::String(rest));
                        lemma_values_intro(x, n);
                        let i = if rank(lower) < byte_rank(rest[0]) {
                            1int
                        } else {
                            0int
                        };
                        let t = seq![lower].insert(i, x);
                        let mid = with_kids(upper, false, t);
                        assert(kids(mid, false) == t);
                        assert forall|j: int| 0 <= j < t.len() implies values_below(#[trigger] t[j], n) by {
                        }
                        lemma_values_intro(mid, n);
                    }
                } else if c == b.len() {
                } else {
                    lemma_insert_child_values(m, b.subrange(c, b.len() as int), n);
                }
            }
        },
        KeyModel::Parameter(_) => {
            lemma_insert_child_values(m, b, n);
        },
    }
}

pub proof fn lemma_insert_child_values(m: NodeModel<usize>, b: Seq<u8>, n: nat)
    requires
        values_below(m, n),
    ensures
        values_below(insert_child_spec(m, b).0, n),
    decreases m, 0int,
{
    let s = kids(m, false);
    let r = byte_rank(b[0]);
    let i = slot(s, r);
    lemma_slot_bounds(s, r);
    if 0 <= i < s.len() && rank(s[i]) == r {
        assert(s[i] == m.nodes0->Some_0[i]);
        lemma_values_kid(m, n, false, i);
        lemma_insert_bytes_values(s[i], b, n);
        let t = s.update(i, insert_bytes_spec(s[i], b).0);
        let mid = with_kids(m, false, t);
        assert(kids(mid, false) == t);
        assert forall|j: int| 0 <= j < t.len() implies values_below(#[trigger] t[j], n) by {
            if j != i {
                lemma_values_kid(m, n, false, j);
            }
        }
        assert forall|j: int| 0 <= j < kids(mid, true).len() implies values_below(
            #[trigger] kids(mid, true)[j],
            n,
        ) by {
            lemma_values_kid(m, n, true, j);
        }
        lemma_values_intro(mid, n);
    } else {
        let x = leaf::<usize>(KeyModel::String(b));
        lemma_values_intro(x, n);
        let t = s.insert(i, x);
        let mid = with_kids(m, false, t);
        assert(kids(mid, false) == t);
        assert forall|j: int| 0 <= j < t.len() implies values_below(#[trigger] t[j], n) by {
            if j < i {
                assert(t[j] == s[j]);
                lemma_values_kid(m, n, false, j);
            } else if j > i {
                assert(t[j] == s[j - 1]);
                lemma_values_kid(m, n, false, j - 1);
            }
        }
        assert forall|j: int| 0 <= j < kids(mid, true).len() implies values_below(
            #[trigger] kids(mid, true)[j],
            n,
        ) by {
            lemma_values_kid(m, n, true, j);
        }
        lemma_values_intro(mid, n);
    }
}

/// Inserting a parameter child never brings in a value.
pub proof fn lemma_insert_param_values(m: NodeModel<usize>, kind: Kind, n: nat)
    requires
        values_below(m, n),
    ensures
        values_below(insert_param_spec(m, kind).0, n),
{
    let s = kids(m, true);
    let x = leaf::<usize>(KeyModel::Parameter(kind));
    lemma_values_intro(x, n);
    let (mid, i) = insert_param_spec(m, kind);
    lemma_slot_bounds(s, kind_rank(kind));
    assert(kids(mid, false) == kids(m, false));
    assert forall|j: int| 0 <= j < kids(mid, true).len() implies values_below(
        #[trigger] kids(mid, true)[j],
        n,
    ) by {
        if i < s.len() && s[i].key == KeyModel::Parameter(kind) {
            lemma_values_kid(m, n, true, j);
        } else if j < i {
            assert(kids(mid, true)[j] == s[j]);
            lemma_values_kid(m, n, true, j);
        } else if j > i {
            assert(kids(mid, true)[j] == s[j - 1]);
            lemma_values_kid(m, n, true, j - 1);
        }
    }
    assert forall|j: int| 0 <= j < kids(mid, false).len() implies values_below(
        #[trigger] kids(mid, false)[j],
        n,
    ) by {
        lemma_values_kid(m, n, false, j);
    }
    lemma_values_intro(mid, n);
}

/// Values below `n` do not depend on a node's own key.
pub proof fn lemma_values_rekey(m: NodeModel<usize>, x: NodeModel<usize>, n: nat)
    requires
        values_below(m, n),
        x.nodes0 == m.nodes0,
        x.nodes1 == m.nodes1,
        x.value == m.value,
    ensures
        values_below(x, n),
{
    assert(kids(x, false) == kids(m, false));
    assert(kids(x, true) == kids(m, true));
    assert forall|j: int| 0 <= j < kids(x, false).len() implies values_below(
        #[trigger] kids(x, false)[j],
        n,
    ) by {
        lemma_values_kid(m, n, false, j);
    }
    assert forall|j: int| 0 <= j < kids(x, true).len() implies values_below(
        #[trigger] kids(x, true)[j],
        n,
    ) by {
        lemma_values_kid(m, n, true, j);
    }
    lemma_values_intro(x, n);
}

/// Below the top, every node of a well-formed tree has a literal key that is
/// not empty or a parameter key.
pub proof fn lemma_at_key<T>(m: NodeModel<T>, path: Seq<Step>)
    requires
        wf(m),
        valid_path(m, path),
        path.len() > 0,
    ensures
        at(m, path).key is Parameter || (at(m, path).key matches KeyModel::String(k) && k.len() > 0),
    decreases path.len(),
{
    let st = path[0];
    let kid = kids(m, st.params)[st.index];
    lemma_wf_kid_of(m, st.params, st.index);
    if path.drop_first().len() > 0 {
        lemma_at_key(kid, path.drop_first());
    } else {
        assert(at(kid, path.drop_first()) == kid);
    }
}

/// A node stands in its own place when its key is kept.
pub proof fn lemma_same_place_rekeep<T>(a: NodeModel<T>, b: NodeModel<T>)
    requires
        a.key == b.key,
        a.key is Parameter || (a.key matches KeyModel::String(k) && k.len() > 0),
    ensures
        same_place(a, b),
{
}

/// Following a path and then another.
pub proof fn lemma_valid_concat<T>(m: NodeModel<T>, p: Seq<Step>, q: Seq<Step>)
    requires
        valid_path(m, p),
        valid_path(at(m, p), q),
    ensures
        valid_path(m, p + q),
        at(m, p + q) == at(at(m, p), q),
    decreases p.len(),
{
    if p.len() == 0 {
        assert(p + q =~= q);
    } else {
        let st = p[0];
        let kid = kids(m, st.params)[st.index];
        lemma_valid_concat(kid, p.drop_first(), q);
        assert((p + q)[0] == st);
        assert((p + q).drop_first() =~= p.drop_first() + q);
    }
}

/// Putting back the node that a path leads to changes nothing.
pub proof fn lemma_put_same<T>(m: NodeModel<T>, p: Seq<Step>)
    requires
        valid_path(m, p),
    ensures
        put(m, p, at(m, p)) == m,
    decreases p.len(),
{
    if p.len() > 0 {
        let st = p[0];
        let s = kids(m, st.params);
        lemma_put_same(s[st.index], p.drop_first());
        assert(s.update(st.index, s[st.index]) =~= s);
        if st.params {
            assert(m.nodes1 is Some);
        } else {
            assert(m.nodes0 is Some);
        }
    }
}

/// Values below `n` are below any larger bound.
pub proof fn lemma_values_mono(m: NodeModel<usize>, n: nat, n2: nat)
    requires
        values_below(m, n),
        n <= n2,
    ensures
        values_below(m, n2),
    decreases m,
{
    assert forall|i: int| 0 <= i < kids(m, false).len() implies values_below(#[trigger] kids(m, false)[i], n2) by {
        lemma_values_kid(m, n, false, i);
        assert(kids(m, false)[i] == m.nodes0->Some_0[i]);
        lemma_values_mono(m.nodes0->Some_0[i], n, n2);
    }
    assert forall|i: int| 0 <= i < kids(m, true).len() implies values_below(#[trigger] kids(m, true)[i], n2) by {
        lemma_values_kid(m, n, true, i);
        assert(kids(m, true)[i] == m.nodes1->Some_0[i]);
        lemma_values_mono(m.nodes1->Some_0[i], n, n2);
    }
    lemma_values_intro(m, n2);
}

} // verus!
