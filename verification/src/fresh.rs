//! Insertions add no literal route of their own: a literal path that leads to
//! a value after bytes are inserted led to it before, and setting the value
//! of one node adds only the path that spells that node. In a tree without
//! parameter nodes, matching finds exactly the literal routes.
use vstd::prelude::*;

use crate::find::{find_at, try_params};
use crate::find_laws::{lemma_slot_ranks, walks};
use crate::keep::{lemma_slot_of, routes_to};
use crate::node::{
    at, byte_rank, common_prefix, insert_bytes_spec, insert_child_spec, kids, leaf, put, rank, slot, wf,
    with_kids, KeyModel, NodeModel, Step,
};
use crate::tree_laws::{
    lemma_common_prefix, lemma_insert_bytes_wf, lemma_insert_child_wf, lemma_slot_bounds, lemma_slot_split,
    lemma_wf_kid_of, lemma_wf_ordered, valid_path,
};

verus! {

/// A leaf is the end of no walk that reaches a value.
proof fn lemma_leaf_no_route<T>(key: Seq<u8>, bs: Seq<u8>, q: Seq<Step>)
    requires
        walks(leaf::<T>(KeyModel::String(key)), bs, q),
    ensures
        at(leaf::<T>(KeyModel::String(key)), q).value is None,
{
    let x = leaf::<T>(KeyModel::String(key));
    assert(kids(x, false) =~= Seq::<NodeModel<T>>::empty());
    assert(q.len() == 0);
}

/// Two literal paths that walk the same steps are the same path.
pub proof fn lemma_walk_unique<T>(m: NodeModel<T>, x: Seq<u8>, y: Seq<u8>, q: Seq<Step>)
    requires
        walks(m, x, q),
        walks(m, y, q),
    ensures
        x == y,
    decreases q.len(),
{
    let k = m.key->String_0;
    assert(x =~= x.subrange(0, k.len() as int) + x.subrange(k.len() as int, x.len() as int));
    assert(y =~= y.subrange(0, k.len() as int) + y.subrange(k.len() as int, y.len() as int));
    if q.len() > 0 {
        let s = kids(m, false);
        lemma_walk_unique(
            s[q[0].index],
            x.subrange(k.len() as int, x.len() as int),
            y.subrange(k.len() as int, y.len() as int),
            q.drop_first(),
        );
    }
}

/// A literal path that leads to a value after inserting among the literal
/// children of `a` led to it before.
proof fn lemma_no_new_child<T>(a: NodeModel<T>, bs: Seq<u8>, q: Seq<Step>, v: T, b2: Seq<u8>)
    requires
        wf(a),
        b2.len() > 0,
        walks(insert_child_spec(a, b2).0, bs, q),
        at(insert_child_spec(a, b2).0, q).value == Some(v),
    ensures
        routes_to(a, bs, v),
    decreases a, 0int,
{
    let t = insert_child_spec(a, b2).0;
    lemma_insert_child_wf(a, b2);
    let k = a.key->String_0;
    let s = kids(a, false);
    let r2 = byte_rank(b2[0]);
    let i = slot(s, r2);
    lemma_wf_ordered(a);
    lemma_slot_bounds(s, r2);
    lemma_slot_split(s, false, r2);
    let s2 = kids(t, false);
    lemma_wf_ordered(t);
    if q.len() == 0 {
        assert(walks(a, bs, q));
        assert(at(a, q).value == Some(v));
    } else {
        let rest = bs.subrange(k.len() as int, bs.len() as int);
        let j = q[0].index;
        let qr = q.drop_first();
        let rw = byte_rank(rest[0]);
        assert(at(t, q) == at(s2[j], qr));
        if 0 <= i < s.len() && rank(s[i]) == r2 {
            lemma_wf_kid_of(a, false, i);
            assert(s[i] == a.nodes0->Some_0[i]);
            lemma_insert_bytes_wf(s[i], b2);
            let c2 = insert_bytes_spec(s[i], b2).0;
            assert(s2 == s.update(i, c2));
            assert forall|x: int| 0 <= x < s.len() implies rank(#[trigger] s[x]) == rank(s2[x]) by {}
            lemma_slot_ranks(s, s2, rw);
            if j == i {
                lemma_no_new_bytes(s[i], rest, qr, v, b2);
                let p = choose|p: Seq<Step>| #[trigger] walks(s[i], rest, p) && at(s[i], p).value == Some(v);
                let np = seq![Step { params: false, index: j }] + p;
                assert(np.drop_first() =~= p);
                assert(walks(a, bs, np));
                assert(at(a, np) == at(s[i], p));
            } else {
                assert(s2[j] == s[j]);
                assert(walks(a, bs, q));
                assert(at(a, q) == at(s[j], qr));
            }
        } else {
            let x = leaf::<T>(KeyModel::String(b2));
            assert(s2 == s.insert(i, x));
            if j == i {
                lemma_leaf_no_route::<T>(b2, rest, qr);
                assert(false);
            } else {
                let j0 = if j < i {
                    j
                } else {
                    j - 1
                };
                assert(s[j0] == s2[j]);
                lemma_slot_of(s, false, j0);
                let np = seq![Step { params: false, index: j0 }] + qr;
                assert(np.drop_first() =~= qr);
                assert(walks(a, bs, np));
                assert(at(a, np) == at(s[j0], qr));
            }
        }
    }
}

/// A literal path that leads to a value after the bytes `b2` are inserted at
/// `a` led to it before (a node with an empty key has neither a value nor
/// literal children).
pub proof fn lemma_no_new_bytes<T>(a: NodeModel<T>, bs: Seq<u8>, q: Seq<Step>, v: T, b2: Seq<u8>)
    requires
        wf(a),
        b2.len() > 0,
        a.key matches KeyModel::String(k) && k.len() == 0 ==> a.value is None && kids(a, false).len() == 0,
        walks(insert_bytes_spec(a, b2).0, bs, q),
        at(insert_bytes_spec(a, b2).0, q).value == Some(v),
    ensures
        routes_to(a, bs, v),
    decreases a, 1int,
{
    let t = insert_bytes_spec(a, b2).0;
    match a.key {
        KeyModel::Parameter(_) => {
            lemma_no_new_child(a, bs, q, v, b2);
        },
        KeyModel::String(k) => {
            if k.len() == 0 {
                assert(kids(t, false) == kids(a, false));
                assert(q.len() == 0);
                assert(false);
            } else {
                let c = common_prefix(k, b2, 0);
                lemma_common_prefix(k, b2, 0);
                if c == 0 {
                    lemma_no_new_child(a, bs, q, v, b2);
                } else if c < k.len() {
                    let lower = NodeModel { key: KeyModel::String(k.subrange(c, k.len() as int)), ..a };
                    let s2 = kids(t, false);
                    assert(t.value is None);
                    assert(q.len() > 0);
                    let j = q[0].index;
                    let qr = q.drop_first();
                    let rest_u = bs.subrange(c, bs.len() as int);
                    assert(t.key == KeyModel::String(k.subrange(0, c)));
                    assert(walks(s2[j], rest_u, qr));
                    assert(at(t, q) == at(s2[j], qr));
                    if s2[j] == lower {
                        assert(rest_u.subrange(0, k.len() - c) == k.subrange(c, k.len() as int));
                        assert(bs.subrange(0, k.len() as int) =~= k) by {
                            assert(bs.subrange(0, c) == k.subrange(0, c));
                            assert forall|x: int| 0 <= x < k.len() implies bs.subrange(0, k.len() as int)[x] == k[x] by {
                                if x < c {
                                    assert(bs.subrange(0, c)[x] == k.subrange(0, c)[x]);
                                } else {
                                    assert(rest_u.subrange(0, k.len() - c)[x - c] == k.subrange(c, k.len() as int)[x - c]);
                                }
                            }
                        }
                        if qr.len() > 0 {
                            assert(rest_u.subrange(k.len() - c, rest_u.len() as int) =~= bs.subrange(
                                k.len() as int,
                                bs.len() as int,
                            ));
                            assert(at(lower, qr) == at(a, qr));
                        }
                        assert(walks(a, bs, qr));
                        assert(at(a, qr).value == Some(v));
                    } else {
                        let rest = b2.subrange(c, b2.len() as int);
                        assert(s2[j] == leaf::<T>(KeyModel::String(rest)));
                        lemma_leaf_no_route::<T>(rest, rest_u, qr);
                        assert(false);
                    }
                } else if c == b2.len() {
                    assert(walks(a, bs, q));
                } else {
                    lemma_no_new_child(a, bs, q, v, b2.subrange(c, b2.len() as int));
                }
            }
        },
    }
}

/// Replacing the node at `p` by one with the same key and literal children:
/// a walk in the new tree is a walk in the old one, and it ends at the new
/// node, or at a node with the same value as before.
pub proof fn lemma_put_walks<T>(m: NodeModel<T>, p: Seq<Step>, y: NodeModel<T>, x: Seq<u8>, q: Seq<Step>)
    requires
        valid_path(m, p),
        y.key == at(m, p).key,
        kids(y, false) == kids(at(m, p), false),
        walks(put(m, p, y), x, q),
    ensures
        walks(m, x, q),
        q == p ==> at(put(m, p, y), q) == y,
        q != p ==> at(put(m, p, y), q).value == at(m, q).value,
    decreases q.len(),
{
    let m2 = put(m, p, y);
    if p.len() == 0 {
        crate::keep::lemma_walk_same_lits(y, m, x, q);
        if q.len() == 0 {
            assert(q =~= p);
        }
    } else {
        let st = p[0];
        let s = kids(m, st.params);
        let i = st.index;
        let sub = put(s[i], p.drop_first(), y);
        assert(m2.key == m.key && m2.value == m.value);
        if q.len() > 0 {
            let k = m.key->String_0;
            let rest = x.subrange(k.len() as int, x.len() as int);
            let j = q[0].index;
            let qr = q.drop_first();
            let rw = byte_rank(rest[0]);
            if st.params {
                assert(kids(m2, false) == kids(m, false));
                crate::keep::lemma_walk_same_lits(m2, m, x, q);
            } else {
                let s2 = kids(m2, false);
                assert(s2 == s.update(i, sub));
                assert(sub.key == s[i].key) by {
                    if p.drop_first().len() == 0 {
                        assert(at(m, p) == at(s[i], p.drop_first()));
                    }
                }
                assert forall|z: int| 0 <= z < s.len() implies rank(#[trigger] s[z]) == rank(s2[z]) by {}
                lemma_slot_ranks(s, s2, rw);
                if j == i {
                    assert(at(m, p) == at(s[i], p.drop_first()));
                    lemma_put_walks(s[i], p.drop_first(), y, rest, qr);
                    assert(walks(m, x, q));
                    assert(at(m2, q) == at(sub, qr));
                    assert(at(m, q) == at(s[i], qr));
                    if q == p {
                        assert(qr == p.drop_first());
                    }
                    if qr == p.drop_first() {
                        assert(q[0] == p[0]);
                        assert forall|z: int| 0 <= z < q.len() implies q[z] == p[z] by {
                            if z > 0 {
                                assert(q[z] == qr[z - 1]);
                                assert(p[z] == p.drop_first()[z - 1]);
                            }
                        }
                        assert(q =~= p);
                    }
                } else {
                    assert(s2[j] == s[j]);
                    assert(walks(m, x, q));
                    assert(at(m2, q) == at(m, q));
                }
            }
        }
    }
}


/// No node below `m`, `m` included, has parameter children.
pub open spec fn lits_only<T>(m: NodeModel<T>) -> bool
    decreases m,
{
    &&& kids(m, true).len() == 0
    &&& forall|i: int| 0 <= i < kids(m, false).len() ==> lits_only(#[trigger] m.nodes0->Some_0[i])
}

/// The literal children of a tree without parameter nodes have none either.
proof fn lemma_lits_kid<T>(m: NodeModel<T>, i: int)
    requires
        lits_only(m),
        0 <= i < kids(m, false).len(),
    ensures
        lits_only(kids(m, false)[i]),
{
    assert(kids(m, false)[i] == m.nodes0->Some_0[i]);
}

/// A node without parameter children, whose literal children have no
/// parameter nodes, has none below it.
proof fn lemma_lits_intro<T>(m: NodeModel<T>)
    requires
        kids(m, true).len() == 0,
        forall|i: int| 0 <= i < kids(m, false).len() ==> lits_only(#[trigger] kids(m, false)[i]),
    ensures
        lits_only(m),
{
    assert forall|i: int| 0 <= i < kids(m, false).len() implies lits_only(#[trigger] m.nodes0->Some_0[i]) by {
        assert(kids(m, false)[i] == m.nodes0->Some_0[i]);
    }
}

/// Inserting among the literal children brings in no parameter node.
proof fn lemma_insert_child_lits<T>(m: NodeModel<T>, b: Seq<u8>)
    requires
        lits_only(m),
    ensures
        lits_only(insert_child_spec(m, b).0),
    decreases m, 0int,
{
    let s = kids(m, false);
    let r = byte_rank(b[0]);
    let i = slot(s, r);
    lemma_slot_bounds(s, r);
    let mid = insert_child_spec(m, b).0;
    assert(kids(mid, true) == kids(m, true));
    if 0 <= i < s.len() && rank(s[i]) == r {
        lemma_lits_kid(m, i);
        lemma_insert_bytes_lits(s[i], b);
        let t = s.update(i, insert_bytes_spec(s[i], b).0);
        assert(kids(mid, false) == t);
        assert forall|j: int| 0 <= j < t.len() implies lits_only(#[trigger] t[j]) by {
            if j != i {
                lemma_lits_kid(m, j);
            }
        }
        lemma_lits_intro(mid);
    } else {
        let x = leaf::<T>(KeyModel::String(b));
        assert(kids(x, false).len() == 0 && kids(x, true).len() == 0);
        lemma_lits_intro(x);
        let t = s.insert(i, x);
        assert(kids(mid, false) == t);
        assert forall|j: int| 0 <= j < t.len() implies lits_only(#[trigger] t[j]) by {
            if j < i {
                assert(t[j] == s[j]);
                lemma_lits_kid(m, j);
            } else if j > i {
                assert(t[j] == s[j - 1]);
                lemma_lits_kid(m, j - 1);
            }
        }
        lemma_lits_intro(mid);
    }
}

/// Inserting bytes brings in no parameter node.
pub proof fn lemma_insert_bytes_lits<T>(m: NodeModel<T>, b: Seq<u8>)
    requires
        lits_only(m),
    ensures
        lits_only(insert_bytes_spec(m, b).0),
    decreases m, 1int,
{
    match m.key {
        KeyModel::String(k) => {
            if k.len() == 0 {
                let x = NodeModel { key: KeyModel::String(b), ..m };
                assert(kids(x, false) == kids(m, false) && kids(x, true) == kids(m, true));
                assert forall|i: int| 0 <= i < kids(x, false).len() implies lits_only(#[trigger] kids(x, false)[i]) by {
                    lemma_lits_kid(m, i);
                }
                lemma_lits_intro(x);
            } else {
                let c = common_prefix(k, b, 0);
                if c == 0 {
                    lemma_insert_child_lits(m, b);
                } else if c < k.len() {
                    let lower = NodeModel { key: KeyModel::String(k.subrange(c, k.len() as int)), ..m };
                    let upper = NodeModel {
                        key: KeyModel::String(k.subrange(0, c)),
                        value: None,
                        nodes0: Some(seq![lower]),
                        nodes1: None,
                    };
                    assert(kids(lower, false) == kids(m, false) && kids(lower, true) == kids(m, true));
                    assert forall|i: int| 0 <= i < kids(lower, false).len() implies lits_only(
                        #[trigger] kids(lower, false)[i],
                    ) by {
                        lemma_lits_kid(m, i);
                    }
                    lemma_lits_intro(lower);
                    if c == b.len() {
                        assert(kids(upper, false) == seq![lower]);
                        assert(kids(upper, true).len() == 0);
                        lemma_lits_intro(upper);
                    } else {
                        let rest = b.subrange(c, b.len() as int);
                        let x = leaf::<T>(KeyModel::String(rest));
                        assert(kids(x, false).len() == 0 && kids(x, true).len() == 0);
                        lemma_lits_intro(x);
                        let i = if rank(lower) < byte_rank(rest[0]) {
                            1int
                        } else {
                            0int
                        };
                        let t = seq![lower].insert(i, x);
                        let mid = with_kids(upper, false, t);
                        assert(kids(mid, false) == t);
                        assert(kids(mid, true).len() == 0);
                        assert forall|j: int| 0 <= j < t.len() implies lits_only(#[trigger] t[j]) by {}
                        lemma_lits_intro(mid);
                    }
                } else if c == b.len() {
                } else {
                    lemma_insert_child_lits(m, b.subrange(c, b.len() as int));
                }
            }
        },
        KeyModel::Parameter(_) => {
            lemma_insert_child_lits(m, b);
        },
    }
}

/// The node at a path in a tree without parameter nodes has none below it.
pub proof fn lemma_lits_at<T>(m: NodeModel<T>, p: Seq<Step>)
    requires
        lits_only(m),
        valid_path(m, p),
    ensures
        lits_only(at(m, p)),
    decreases p.len(),
{
    if p.len() > 0 {
        assert(!p[0].params);
        lemma_lits_kid(m, p[0].index);
        lemma_lits_at(kids(m, false)[p[0].index], p.drop_first());
    }
}

/// Putting a node without parameter nodes into a tree without them.
pub proof fn lemma_put_lits<T>(m: NodeModel<T>, p: Seq<Step>, x: NodeModel<T>)
    requires
        lits_only(m),
        valid_path(m, p),
        lits_only(x),
    ensures
        lits_only(put(m, p, x)),
    decreases p.len(),
{
    if p.len() > 0 {
        let st = p[0];
        assert(!st.params);
        let s = kids(m, false);
        let i = st.index;
        lemma_lits_kid(m, i);
        lemma_put_lits(s[i], p.drop_first(), x);
        let r = put(m, p, x);
        let t = s.update(i, put(s[i], p.drop_first(), x));
        assert(kids(r, false) == t);
        assert(kids(r, true) == kids(m, true));
        assert forall|j: int| 0 <= j < t.len() implies lits_only(#[trigger] t[j]) by {
            if j != i {
                lemma_lits_kid(m, j);
            }
        }
        lemma_lits_intro(r);
    }
}

/// In a tree without parameter nodes, a match captures nothing and follows
/// a literal route.
pub proof fn lemma_find_lits<T>(m: NodeModel<T>, start: int, b: Seq<u8>)
    requires
        wf(m),
        lits_only(m),
        m.key matches KeyModel::String(k) && (k.len() == 0 ==> m.value is None && kids(m, false).len() == 0),
    ensures
        find_at(m, start, b) matches Some((v, p)) ==> p.len() == 0 && routes_to(m, b, v),
    decreases m,
{
    let k = m.key->String_0;
    let n = k.len() as int;
    let len = b.len() as int;
    let s1 = kids(m, true);
    assert(try_params(s1, 0, start + n, b.subrange(n, len), n < len, false) is None);
    assert(try_params(s1, 0, start, b, true, true) is None);
    if find_at(m, start, b) is Some && n <= len && b.subrange(0, n) == k {
        let rest = b.subrange(n, len);
        if n == len && m.value is Some {
            assert(walks(m, b, Seq::<Step>::empty()));
            assert(at(m, Seq::<Step>::empty()) == m);
        } else {
            let s0 = kids(m, false);
            let i = slot(s0, byte_rank(rest[0]));
            assert(n < len && 0 <= i < s0.len() && rank(s0[i]) == byte_rank(rest[0]));
            assert(s0[i] == m.nodes0->Some_0[i]);
            lemma_wf_kid_of(m, false, i);
            lemma_lits_kid(m, i);
            lemma_find_lits(s0[i], start + n, rest);
            let v = find_at(m, start, b)->Some_0.0;
            let q = choose|q: Seq<Step>| #[trigger] walks(s0[i], rest, q) && at(s0[i], q).value == Some(v);
            let np = seq![Step { params: false, index: i }] + q;
            assert(np.drop_first() =~= q);
            assert(walks(m, b, np));
            assert(at(m, np) == at(s0[i], q));
        }
    }
}

} // verus!
