//! How deep the tree grows as patterns are inserted.
//!
//! Each piece of a pattern deepens the tree by at most one level: a literal
//! piece splits at most one key or adds at most one leaf, and a parameter adds
//! at most one leaf. So a router that started empty and took patterns of `n`
//! pieces in all is at most `n + 1` levels deep, which is what matching needs
//! to know to stay within its bounds.
use vstd::prelude::*;

use crate::find::height_within;
use crate::node::{
    at, common_prefix, insert_bytes_spec, insert_child_spec, insert_param_spec, kids, leaf, put, rank, slot,
    with_kids, KeyModel, NodeModel, Step,
};
use crate::parser::Kind;
use crate::tree_laws::{lemma_slot_bounds, valid_path};

verus! {

/// A node is within `h` levels when `h >= 1` and each child is within `h - 1`.
proof fn lemma_height_intro<T>(m: NodeModel<T>, h: nat)
    requires
        h >= 1,
        forall|i: int| 0 <= i < kids(m, false).len() ==> height_within(#[trigger] kids(m, false)[i], (h - 1) as nat),
        forall|i: int| 0 <= i < kids(m, true).len() ==> height_within(#[trigger] kids(m, true)[i], (h - 1) as nat),
    ensures
        height_within(m, h),
{
    assert forall|i: int| 0 <= i < kids(m, false).len() implies height_within(
        #[trigger] m.nodes0->Some_0[i],
        (h - 1) as nat,
    ) by {
        assert(kids(m, false)[i] == m.nodes0->Some_0[i]);
    }
    assert forall|i: int| 0 <= i < kids(m, true).len() implies height_within(
        #[trigger] m.nodes1->Some_0[i],
        (h - 1) as nat,
    ) by {
        assert(kids(m, true)[i] == m.nodes1->Some_0[i]);
    }
}

proof fn lemma_height_kid<T>(m: NodeModel<T>, h: nat, params: bool, i: int)
    requires
        height_within(m, h),
        0 <= i < kids(m, params).len(),
    ensures
        h >= 2,
        height_within(kids(m, params)[i], (h - 1) as nat),
{
    crate::find::lemma_height_kid(m, h, params, i);
}

/// A tree within `h` levels is within any more.
pub proof fn lemma_height_mono<T>(m: NodeModel<T>, h: nat, h2: nat)
    requires
        height_within(m, h),
        h <= h2,
    ensures
        height_within(m, h2),
    decreases m,
{
    assert forall|i: int| 0 <= i < kids(m, false).len() implies height_within(
        #[trigger] kids(m, false)[i],
        (h2 - 1) as nat,
    ) by {
        lemma_height_kid(m, h, false, i);
        assert(kids(m, false)[i] == m.nodes0->Some_0[i]);
        lemma_height_mono(m.nodes0->Some_0[i], (h - 1) as nat, (h2 - 1) as nat);
    }
    assert forall|i: int| 0 <= i < kids(m, true).len() implies height_within(
        #[trigger] kids(m, true)[i],
        (h2 - 1) as nat,
    ) by {
        lemma_height_kid(m, h, true, i);
        assert(kids(m, true)[i] == m.nodes1->Some_0[i]);
        lemma_height_mono(m.nodes1->Some_0[i], (h - 1) as nat, (h2 - 1) as nat);
    }
    lemma_height_intro(m, h2);
}

/// A node with the same children as one within `h` levels is within `h`.
pub proof fn lemma_height_same_kids<T>(m: NodeModel<T>, x: NodeModel<T>, h: nat)
    requires
        height_within(m, h),
        kids(x, false) == kids(m, false),
        kids(x, true) == kids(m, true),
    ensures
        height_within(x, h),
{
    assert forall|i: int| 0 <= i < kids(x, false).len() implies height_within(#[trigger] kids(x, false)[i], (h - 1) as nat) by {
        lemma_height_kid(m, h, false, i);
    }
    assert forall|i: int| 0 <= i < kids(x, true).len() implies height_within(#[trigger] kids(x, true)[i], (h - 1) as nat) by {
        lemma_height_kid(m, h, true, i);
    }
    lemma_height_intro(x, h);
}

/// A node without children is within one level.
pub proof fn lemma_height_leaf<T>(key: KeyModel)
    ensures
        height_within(leaf::<T>(key), 1),
{
    lemma_height_intro(leaf::<T>(key), 1);
}

/// The node at the end of a path of `n` steps is within `n` levels fewer.
pub proof fn lemma_height_at<T>(m: NodeModel<T>, p: Seq<Step>, h: nat)
    requires
        height_within(m, h),
        valid_path(m, p),
    ensures
        p.len() < h,
        height_within(at(m, p), (h - p.len()) as nat),
    decreases p.len(),
{
    if p.len() > 0 {
        let st = p[0];
        lemma_height_kid(m, h, st.params, st.index);
        lemma_height_at(kids(m, st.params)[st.index], p.drop_first(), (h - 1) as nat);
    }
}

/// Replacing the node at the end of a path of `n` steps by one within
/// `h - n` levels keeps the tree within `h`.
pub proof fn lemma_height_put<T>(m: NodeModel<T>, p: Seq<Step>, x: NodeModel<T>, h: nat)
    requires
        height_within(m, h),
        valid_path(m, p),
        p.len() < h,
        height_within(x, (h - p.len()) as nat),
    ensures
        height_within(put(m, p, x), h),
    decreases p.len(),
{
    if p.len() > 0 {
        let st = p[0];
        let s = kids(m, st.params);
        let sub = put(s[st.index], p.drop_first(), x);
        lemma_height_kid(m, h, st.params, st.index);
        lemma_height_put(s[st.index], p.drop_first(), x, (h - 1) as nat);
        let t = s.update(st.index, sub);
        let mm = with_kids(m, st.params, t);
        assert forall|i: int| 0 <= i < kids(mm, false).len() implies height_within(
            #[trigger] kids(mm, false)[i],
            (h - 1) as nat,
        ) by {
            if st.params || i != st.index {
                lemma_height_kid(m, h, false, i);
            }
        }
        assert forall|i: int| 0 <= i < kids(mm, true).len() implies height_within(
            #[trigger] kids(mm, true)[i],
            (h - 1) as nat,
        ) by {
            if !st.params || i != st.index {
                lemma_height_kid(m, h, true, i);
            }
        }
        lemma_height_intro(mm, h);
    }
}

/// A node with the children of `m` in one group replaced by `s`, each within
/// `h - 1` levels, is within `h` when `m` is.
proof fn lemma_height_with_kids<T>(m: NodeModel<T>, params: bool, s: Seq<NodeModel<T>>, h: nat)
    requires
        height_within(m, h),
        forall|i: int| 0 <= i < s.len() ==> height_within(#[trigger] s[i], (h - 1) as nat),
    ensures
        height_within(with_kids(m, params, s), h),
{
    let mm = with_kids(m, params, s);
    assert forall|i: int| 0 <= i < kids(mm, false).len() implies height_within(#[trigger] kids(mm, false)[i], (h - 1) as nat) by {
        if params {
            lemma_height_kid(m, h, false, i);
        }
    }
    assert forall|i: int| 0 <= i < kids(mm, true).len() implies height_within(#[trigger] kids(mm, true)[i], (h - 1) as nat) by {
        if !params {
            lemma_height_kid(m, h, true, i);
        }
    }
    lemma_height_intro(mm, h);
}

/// Inserting among the literal children deepens the tree by at most one level.
proof fn lemma_height_child<T>(m: NodeModel<T>, b: Seq<u8>, h: nat)
    requires
        height_within(m, h),
    ensures
        height_within(insert_child_spec(m, b).0, h + 1),
    decreases m, 0int,
{
    let s = kids(m, false);
    let r = crate::node::byte_rank(b[0]);
    let i = slot(s, r);
    lemma_slot_bounds(s, r);
    lemma_height_mono(m, h, h + 1);
    if 0 <= i < s.len() && rank(s[i]) == r {
        lemma_height_kid(m, h, false, i);
        assert(s[i] == m.nodes0->Some_0[i]);
        lemma_height_bytes(s[i], b, (h - 1) as nat);
        let t = s.update(i, insert_bytes_spec(s[i], b).0);
        assert forall|j: int| 0 <= j < t.len() implies height_within(#[trigger] t[j], h) by {
            if j != i {
                lemma_height_kid(m, h, false, j);
                lemma_height_mono(s[j], (h - 1) as nat, h);
            }
        }
        lemma_height_with_kids(m, false, t, h + 1);
    } else {
        let x = leaf::<T>(KeyModel::String(b));
        lemma_height_leaf::<T>(KeyModel::String(b));
        lemma_height_mono(x, 1, h);
        let t = s.insert(i, x);
        assert forall|j: int| 0 <= j < t.len() implies height_within(#[trigger] t[j], h) by {
            if j < i {
                assert(t[j] == s[j]);
                lemma_height_kid(m, h, false, j);
                lemma_height_mono(s[j], (h - 1) as nat, h);
            } else if j > i {
                assert(t[j] == s[j - 1]);
                lemma_height_kid(m, h, false, j - 1);
                lemma_height_mono(s[j - 1], (h - 1) as nat, h);
            }
        }
        lemma_height_with_kids(m, false, t, h + 1);
    }
}

/// Inserting bytes deepens the tree by at most one level.
pub proof fn lemma_height_bytes<T>(m: NodeModel<T>, b: Seq<u8>, h: nat)
    requires
        height_within(m, h),
    ensures
        height_within(insert_bytes_spec(m, b).0, h + 1),
    decreases m, 1int,
{
    lemma_height_mono(m, h, h + 1);
    match m.key {
        KeyModel::String(k) => {
            if k.len() == 0 {
                let mm = NodeModel { key: KeyModel::String(b), ..m };
                assert(kids(mm, false) == kids(m, false) && kids(mm, true) == kids(m, true));
                assert forall|i: int| 0 <= i < kids(mm, false).len() implies height_within(#[trigger] kids(mm, false)[i], h) by {
                    lemma_height_kid(m, h + 1, false, i);
                }
                assert forall|i: int| 0 <= i < kids(mm, true).len() implies height_within(#[trigger] kids(mm, true)[i], h) by {
                    lemma_height_kid(m, h + 1, true, i);
                }
                lemma_height_intro(mm, h + 1);
            } else {
                let c = common_prefix(k, b, 0);
                crate::tree_laws::lemma_common_prefix(k, b, 0);
                if c == 0 {
                    lemma_height_child(m, b, h);
                } else if c < k.len() {
                    let lower = NodeModel { key: KeyModel::String(k.subrange(c, k.len() as int)), ..m };
                    assert forall|i: int| 0 <= i < kids(lower, false).len() implies height_within(#[trigger] kids(lower, false)[i], (h - 1) as nat) by {
                        lemma_height_kid(m, h, false, i);
                    }
                    assert forall|i: int| 0 <= i < kids(lower, true).len() implies height_within(#[trigger] kids(lower, true)[i], (h - 1) as nat) by {
                        lemma_height_kid(m, h, true, i);
                    }
                    lemma_height_intro(lower, h);
                    let upper = NodeModel {
                        key: KeyModel::String(k.subrange(0, c)),
                        value: None,
                        nodes0: Some(seq![lower]),
                        nodes1: None,
                    };
                    if c == b.len() {
                        assert(kids(upper, false) == seq![lower]);
                        lemma_height_intro(upper, h + 1);
                    } else {
                        let rest = b.subrange(c, b.len() as int);
                        let x = leaf::<T>(KeyModel::String(rest));
                        lemma_height_leaf::<T>(KeyModel::String(rest));
                        lemma_height_mono(x, 1, h);
                        let i = if rank(lower) < crate::node::byte_rank(rest[0]) {
                            1int
                        } else {
                            0int
                        };
                        let t = seq![lower].insert(i, x);
                        let mm = with_kids(upper, false, t);
                        assert(kids(mm, false) == t);
                        assert forall|j: int| 0 <= j < t.len() implies height_within(#[trigger] t[j], h) by {}
                        lemma_height_intro(mm, h + 1);
                    }
                } else if c == b.len() {
                } else {
                    lemma_height_child(m, b.subrange(c, b.len() as int), h);
                }
            }
        },
        KeyModel::Parameter(_) => {
            lemma_height_child(m, b, h);
        },
    }
}

/// Inserting a parameter child deepens the tree by at most one level.
pub proof fn lemma_height_param<T>(m: NodeModel<T>, kind: Kind, h: nat)
    requires
        height_within(m, h),
    ensures
        height_within(insert_param_spec(m, kind).0, h + 1),
{
    let s = kids(m, true);
    let i = slot(s, crate::node::kind_rank(kind));
    lemma_slot_bounds(s, crate::node::kind_rank(kind));
    lemma_height_mono(m, h, h + 1);
    let x = leaf::<T>(KeyModel::Parameter(kind));
    lemma_height_leaf::<T>(KeyModel::Parameter(kind));
    lemma_height_mono(x, 1, h);
    assert forall|j: int| 0 <= j < s.len() implies height_within(#[trigger] s[j], h) by {
        lemma_height_kid(m, h, true, j);
        lemma_height_mono(s[j], (h - 1) as nat, h);
    }
    if i < s.len() && s[i].key == KeyModel::Parameter(kind) {
        lemma_height_with_kids(m, true, s, h + 1);
    } else {
        let t = s.insert(i, x);
        assert forall|j: int| 0 <= j < t.len() implies height_within(#[trigger] t[j], h) by {
            if j < i {
                assert(t[j] == s[j]);
            } else if j > i {
                assert(t[j] == s[j - 1]);
            }
        }
        lemma_height_with_kids(m, true, t, h + 1);
    }
}

} // verus!
