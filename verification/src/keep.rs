//! Routes that last: a literal path that leads to a value keeps leading to
//! it, whatever is inserted afterwards.
//!
//! Inserting may split a key on the way (the walk then takes one more step,
//! through the shorter key), add siblings (the walk's child moves to another
//! index, found again by its first byte), or add parameter children (which a
//! walk never uses); none of these changes the node a walk ends at.
use vstd::prelude::*;

use crate::find::find_at;
use crate::find_laws::{lemma_bytes_walks, lemma_child_walks, lemma_slot_ranks, lemma_walk_find, lemma_walk_put, takes, walks};
use crate::node::{
    at, byte_rank, common_prefix, insert_bytes_spec, insert_child_spec, insert_param_spec, kids, leaf, put, rank,
    slot, wf, with_kids, KeyModel, NodeModel, Step,
};
use crate::parser::Kind;
use crate::tree_laws::{
    lemma_common_prefix, lemma_insert_bytes_wf, lemma_insert_child_wf, lemma_slot_bounds, lemma_slot_split,
    lemma_wf_kid_of, lemma_wf_ordered, same_place, valid_path,
};

verus! {

/// The literal path `b` leads, at `m`, to a node that holds `v`.
pub open spec fn routes_to<T>(m: NodeModel<T>, b: Seq<u8>, v: T) -> bool {
    exists|p: Seq<Step>| #[trigger] walks(m, b, p) && at(m, p).value == Some(v)
}

/// A literal path that leads to `v` is matched to `v`, capturing nothing.
pub proof fn lemma_routes_find<T>(m: NodeModel<T>, b: Seq<u8>, v: T)
    requires
        routes_to(m, b, v),
    ensures
        find_at(m, 0, b) == Some((v, Seq::<(int, int)>::empty())),
{
    let p = choose|p: Seq<Step>| #[trigger] walks(m, b, p) && at(m, p).value == Some(v);
    lemma_walk_find(m, b, p, 0);
}

/// In ordered children, a child's rank finds the child.
pub(crate) proof fn lemma_slot_of<T>(s: Seq<NodeModel<T>>, params: bool, j: int)
    requires
        crate::node::ordered(s, params),
        0 <= j < s.len(),
    ensures
        slot(s, rank(s[j])) == j,
{
    let r = rank(s[j]);
    lemma_slot_split(s, params, r);
    lemma_slot_bounds(s, r);
    let i = slot(s, r);
    if i < j {
        assert(rank(s[i]) < rank(s[j]));
    } else if i > j {
        assert(rank(s[j]) < r);
    }
}

/// A node with the same key and literal children as `a` is walked as `a` is.
pub proof fn lemma_walk_same_lits<T>(a: NodeModel<T>, x: NodeModel<T>, bs: Seq<u8>, p: Seq<Step>)
    requires
        walks(a, bs, p),
        x.key == a.key,
        kids(x, false) == kids(a, false),
    ensures
        walks(x, bs, p),
        p.len() > 0 ==> at(x, p) == at(a, p),
{
    if p.len() > 0 {
        assert(at(x, p) == at(kids(x, false)[p[0].index], p.drop_first()));
    }
}

/// Inserting among the literal children of a node on a walk keeps the walk's end.
proof fn lemma_keep_child<T>(a: NodeModel<T>, bs: Seq<u8>, p: Seq<Step>, v: T, b2: Seq<u8>)
    requires
        wf(a),
        walks(a, bs, p),
        at(a, p).value == Some(v),
        b2.len() > 0,
    ensures
        routes_to(insert_child_spec(a, b2).0, bs, v),
    decreases a, 0int,
{
    let t = insert_child_spec(a, b2).0;
    lemma_insert_child_wf(a, b2);
    if p.len() == 0 {
        assert(walks(t, bs, p));
        assert(at(t, p).value == Some(v));
    } else {
        let k = a.key->String_0;
        let rest = bs.subrange(k.len() as int, bs.len() as int);
        let s = kids(a, false);
        let j = p[0].index;
        let c = s[j];
        let pr = p.drop_first();
        let rw = byte_rank(rest[0]);
        let r2 = byte_rank(b2[0]);
        let i = slot(s, r2);
        lemma_wf_ordered(a);
        lemma_slot_bounds(s, r2);
        lemma_slot_split(s, false, r2);
        assert(at(a, p) == at(c, pr));
        let s2 = kids(t, false);
        lemma_wf_ordered(t);
        if 0 <= i < s.len() && rank(s[i]) == r2 {
            lemma_wf_kid_of(a, false, i);
            assert(s[i] == a.nodes0->Some_0[i]);
            lemma_insert_bytes_wf(s[i], b2);
            let c2 = insert_bytes_spec(s[i], b2).0;
            assert(s2 == s.update(i, c2));
            assert forall|x: int| 0 <= x < s.len() implies rank(#[trigger] s[x]) == rank(s2[x]) by {}
            crate::find_laws::lemma_slot_ranks(s, s2, rw);
            if i == j {
                lemma_wf_kid_of(a, false, j);
                assert(c == a.nodes0->Some_0[j]);
                assert(walks(c, rest, pr) && at(c, pr).value == Some(v));
                assert(routes_to(c, rest, v));
                lemma_keep_bytes(c, rest, v, b2);
                let q = choose|q: Seq<Step>| #[trigger] walks(c2, rest, q) && at(c2, q).value == Some(v);
                let np = seq![Step { params: false, index: j }] + q;
                assert(np.drop_first() =~= q);
                assert(walks(t, bs, np));
                assert(at(t, np) == at(c2, q));
            } else {
                assert(s2[j] == c);
                assert(walks(t, bs, p));
                assert(at(t, p) == at(c, pr));
            }
        } else {
            let x = leaf::<T>(KeyModel::String(b2));
            assert(s2 == s.insert(i, x));
            let j2 = if j < i {
                j
            } else {
                j + 1
            };
            assert(s2[j2] == c);
            lemma_slot_of(s2, false, j2);
            let np = seq![Step { params: false, index: j2 }] + pr;
            assert(np.drop_first() =~= pr);
            assert(walks(t, bs, np));
            assert(at(t, np) == at(c, pr));
        }
    }
}

/// Inserting bytes at a node keeps every literal path that leads from it to `v`.
pub proof fn lemma_keep_bytes<T>(a: NodeModel<T>, bs: Seq<u8>, v: T, b2: Seq<u8>)
    requires
        wf(a),
        routes_to(a, bs, v),
        b2.len() > 0,
    ensures
        routes_to(insert_bytes_spec(a, b2).0, bs, v),
    decreases a, 1int,
{
    let p = choose|p: Seq<Step>| #[trigger] walks(a, bs, p) && at(a, p).value == Some(v);
    let k = a.key->String_0;
    let c = common_prefix(k, b2, 0);
    lemma_common_prefix(k, b2, 0);
    if c == 0 {
        lemma_keep_child(a, bs, p, v, b2);
    } else if c < k.len() {
        let lower = NodeModel { key: KeyModel::String(k.subrange(c, k.len() as int)), ..a };
        let (t, _) = insert_bytes_spec(a, b2);
        lemma_insert_bytes_wf(a, b2);
        lemma_wf_ordered(t);
        let s2 = kids(t, false);
        let il = if s2.len() == 1 || s2[0] == lower {
            0int
        } else {
            1int
        };
        assert(s2[il] == lower);
        assert(bs[c] == k[c]);
        assert(rank(lower) == byte_rank(k[c]));
        lemma_slot_of(s2, false, il);
        let rest_u = bs.subrange(c, bs.len() as int);
        assert(rest_u[0] == bs[c]);
        assert(walks(lower, rest_u, p)) by {
            assert(rest_u.subrange(0, k.len() - c) =~= k.subrange(c, k.len() as int));
            if p.len() > 0 {
                assert(rest_u.subrange(k.len() - c, rest_u.len() as int) =~= bs.subrange(k.len() as int, bs.len() as int));
            }
        }
        assert(p.len() > 0 ==> at(lower, p) == at(a, p));
        let np = seq![Step { params: false, index: il }] + p;
        assert(np.drop_first() =~= p);
        assert(bs.subrange(0, c) =~= k.subrange(0, c));
        assert(walks(t, bs, np));
        assert(at(t, np) == at(lower, p));
    } else if c == b2.len() {
        assert(walks(insert_bytes_spec(a, b2).0, bs, p));
    } else {
        lemma_keep_child(a, bs, p, v, b2.subrange(c, b2.len() as int));
    }
}

/// Two nodes end alike: the same value and the same parameter children.
pub open spec fn same_end<T>(a: NodeModel<T>, y: NodeModel<T>) -> bool {
    a.value == y.value && a.nodes1 == y.nodes1
}

/// The literal path `b` spells, at `m`, a node that ends like `y`.
pub open spec fn spelled<T>(m: NodeModel<T>, b: Seq<u8>, y: NodeModel<T>) -> bool {
    exists|p: Seq<Step>| #[trigger] walks(m, b, p) && same_end(at(m, p), y)
}

/// Inserting among the literal children of a node on a walk keeps the walk's end node.
pub proof fn lemma_spell_child<T>(a: NodeModel<T>, bs: Seq<u8>, p: Seq<Step>, y: NodeModel<T>, b2: Seq<u8>)
    requires
        wf(a),
        walks(a, bs, p),
        same_end(at(a, p), y),
        b2.len() > 0,
    ensures
        spelled(insert_child_spec(a, b2).0, bs, y),
    decreases a, 0int,
{
    let t = insert_child_spec(a, b2).0;
    lemma_insert_child_wf(a, b2);
    if p.len() == 0 {
        assert(walks(t, bs, p));
        assert(same_end(at(t, p), y));
    } else {
        let k = a.key->String_0;
        let rest = bs.subrange(k.len() as int, bs.len() as int);
        let s = kids(a, false);
        let j = p[0].index;
        let c = s[j];
        let pr = p.drop_first();
        let rw = byte_rank(rest[0]);
        let r2 = byte_rank(b2[0]);
        let i = slot(s, r2);
        lemma_wf_ordered(a);
        lemma_slot_bounds(s, r2);
        lemma_slot_split(s, false, r2);
        assert(at(a, p) == at(c, pr));
        let s2 = kids(t, false);
        lemma_wf_ordered(t);
        if 0 <= i < s.len() && rank(s[i]) == r2 {
            lemma_wf_kid_of(a, false, i);
            assert(s[i] == a.nodes0->Some_0[i]);
            lemma_insert_bytes_wf(s[i], b2);
            let c2 = insert_bytes_spec(s[i], b2).0;
            assert(s2 == s.update(i, c2));
            assert forall|x: int| 0 <= x < s.len() implies rank(#[trigger] s[x]) == rank(s2[x]) by {}
            crate::find_laws::lemma_slot_ranks(s, s2, rw);
            if i == j {
                lemma_wf_kid_of(a, false, j);
                assert(c == a.nodes0->Some_0[j]);
                assert(walks(c, rest, pr) && same_end(at(c, pr), y));
                assert(spelled(c, rest, y));
                lemma_spell_bytes(c, rest, y, b2);
                let q = choose|q: Seq<Step>| #[trigger] walks(c2, rest, q) && same_end(at(c2, q), y);
                let np = seq![Step { params: false, index: j }] + q;
                assert(np.drop_first() =~= q);
                assert(walks(t, bs, np));
                assert(at(t, np) == at(c2, q));
            } else {
                assert(s2[j] == c);
                assert(walks(t, bs, p));
                assert(at(t, p) == at(c, pr));
            }
        } else {
            let x = leaf::<T>(KeyModel::String(b2));
            assert(s2 == s.insert(i, x));
            let j2 = if j < i {
                j
            } else {
                j + 1
            };
            assert(s2[j2] == c);
            lemma_slot_of(s2, false, j2);
            let np = seq![Step { params: false, index: j2 }] + pr;
            assert(np.drop_first() =~= pr);
            assert(walks(t, bs, np));
            assert(at(t, np) == at(c, pr));
        }
    }
}

/// Inserting bytes at a node keeps every node on a literal path from it:
/// the same path still spells a node with the same value and parameter
/// children.
pub proof fn lemma_spell_bytes<T>(a: NodeModel<T>, bs: Seq<u8>, y: NodeModel<T>, b2: Seq<u8>)
    requires
        wf(a),
        spelled(a, bs, y),
        b2.len() > 0,
    ensures
        spelled(insert_bytes_spec(a, b2).0, bs, y),
    decreases a, 1int,
{
    let p = choose|p: Seq<Step>| #[trigger] walks(a, bs, p) && same_end(at(a, p), y);
    let k = a.key->String_0;
    let c = common_prefix(k, b2, 0);
    lemma_common_prefix(k, b2, 0);
    if c == 0 {
        lemma_spell_child(a, bs, p, y, b2);
    } else if c < k.len() {
        let lower = NodeModel { key: KeyModel::String(k.subrange(c, k.len() as int)), ..a };
        let (t, _) = insert_bytes_spec(a, b2);
        lemma_insert_bytes_wf(a, b2);
        lemma_wf_ordered(t);
        let s2 = kids(t, false);
        let il = if s2.len() == 1 || s2[0] == lower {
            0int
        } else {
            1int
        };
        assert(s2[il] == lower);
        assert(bs[c] == k[c]);
        assert(rank(lower) == byte_rank(k[c]));
        lemma_slot_of(s2, false, il);
        let rest_u = bs.subrange(c, bs.len() as int);
        assert(rest_u[0] == bs[c]);
        assert(walks(lower, rest_u, p)) by {
            assert(rest_u.subrange(0, k.len() - c) =~= k.subrange(c, k.len() as int));
            if p.len() > 0 {
                assert(rest_u.subrange(k.len() - c, rest_u.len() as int) =~= bs.subrange(k.len() as int, bs.len() as int));
            }
        }
        assert(p.len() > 0 ==> at(lower, p) == at(a, p));
        let np = seq![Step { params: false, index: il }] + p;
        assert(np.drop_first() =~= p);
        assert(bs.subrange(0, c) =~= k.subrange(0, c));
        assert(walks(t, bs, np));
        assert(at(t, np) == at(lower, p));
    } else if c == b2.len() {
        assert(walks(insert_bytes_spec(a, b2).0, bs, p));
    } else {
        lemma_spell_child(a, bs, p, y, b2.subrange(c, b2.len() as int));
    }
}

/// Inserting bytes `b` at a node that takes them: the node handed back is
/// the one that `b` spells, and every node that a literal path spelled
/// before is still spelled by that path, with the same value and the same
/// parameter children.
pub proof fn law_insert_bytes_spelling<T>(m: NodeModel<T>, b: Seq<u8>, bs: Seq<u8>, y: NodeModel<T>)
    requires
        wf(m),
        takes(m, b),
        spelled(m, bs, y),
    ensures
        walks(insert_bytes_spec(m, b).0, b, insert_bytes_spec(m, b).1),
        spelled(insert_bytes_spec(m, b).0, bs, y),
{
    lemma_bytes_walks(m, b);
    lemma_spell_bytes(m, bs, y, b);
}

/// Adding a parameter child keeps every literal path and where it leads.
pub proof fn lemma_keep_param<T>(a: NodeModel<T>, bs: Seq<u8>, v: T, kind: Kind)
    requires
        routes_to(a, bs, v),
    ensures
        routes_to(insert_param_spec(a, kind).0, bs, v),
{
    let p = choose|p: Seq<Step>| #[trigger] walks(a, bs, p) && at(a, p).value == Some(v);
    let x = insert_param_spec(a, kind).0;
    lemma_walk_same_lits(a, x, bs, p);
}

/// Replacing the node at the end of `path` by `y` keeps the literal path `b`
/// leading to `v`, when `y` keeps its place and keeps every literal path
/// from the node it replaces.
pub proof fn lemma_keep_put<T>(m: NodeModel<T>, path: Seq<Step>, y: NodeModel<T>, b: Seq<u8>, v: T)
    requires
        routes_to(m, b, v),
        valid_path(m, path),
        path.len() > 0 ==> same_place(at(m, path), y),
        forall|bs: Seq<u8>| routes_to(at(m, path), bs, v) ==> #[trigger] routes_to(y, bs, v),
    ensures
        routes_to(put(m, path, y), b, v),
    decreases path.len(),
{
    if path.len() > 0 {
        let p = choose|p: Seq<Step>| #[trigger] walks(m, b, p) && at(m, p).value == Some(v);
        let st = path[0];
        let s = kids(m, st.params);
        let ci = s[st.index];
        let sub = put(ci, path.drop_first(), y);
        let t = s.update(st.index, sub);
        let mm = put(m, path, y);
        assert(mm == with_kids(m, st.params, t));
        assert(at(m, path) == at(ci, path.drop_first()));
        assert(rank(sub) == rank(ci)) by {
            if path.len() > 1 {
                assert(sub.key == ci.key);
            } else {
                assert(path.drop_first() =~= Seq::<Step>::empty());
            }
        }
        if p.len() == 0 {
            assert(walks(mm, b, p));
        } else {
            let k = m.key->String_0;
            let rest = b.subrange(k.len() as int, b.len() as int);
            let j = p[0].index;
            let s0 = kids(m, false);
            assert(at(m, p) == at(s0[j], p.drop_first()));
            if !st.params {
                assert forall|x: int| 0 <= x < s.len() implies rank(#[trigger] s[x]) == rank(t[x]) by {}
                crate::find_laws::lemma_slot_ranks(s, t, byte_rank(rest[0]));
                assert(kids(mm, false) == t);
                if st.index == j {
                    assert(walks(s0[j], rest, p.drop_first()));
                    assert(ci == s0[j]);
                    assert(walks(ci, rest, p.drop_first()) && at(ci, p.drop_first()).value == Some(v));
                    assert(routes_to(ci, rest, v));
                    lemma_keep_put(ci, path.drop_first(), y, rest, v);
                    let q = choose|q: Seq<Step>| #[trigger] walks(sub, rest, q) && at(sub, q).value == Some(v);
                    let np = seq![Step { params: false, index: j }] + q;
                    assert(np.drop_first() =~= q);
                    assert(walks(mm, b, np));
                    assert(at(mm, np) == at(sub, q));
                } else {
                    assert(t[j] == s0[j]);
                    assert(walks(mm, b, p));
                    assert(at(mm, p) == at(s0[j], p.drop_first()));
                }
            } else {
                lemma_walk_same_lits(m, mm, b, p);
            }
        }
    }
}

/// Inserting a literal path along which a walk already goes changes
/// nothing and ends where the walk ends.
pub proof fn lemma_walk_insert_same<T>(m: NodeModel<T>, b: Seq<u8>, p: Seq<Step>)
    requires
        walks(m, b, p),
    ensures
        insert_bytes_spec(m, b) == (m, p),
    decreases p.len(),
{
    let k = m.key->String_0;
    assert(b.subrange(0, k.len() as int) == k);
    crate::tree_laws::lemma_common_prefix(k, b, 0);
    let c = common_prefix(k, b, 0);
    assert(c == k.len()) by {
        if c < k.len() {
            assert(k[c] == b[c]);
        }
    }
    if p.len() > 0 {
        let rest = b.subrange(k.len() as int, b.len() as int);
        let s = kids(m, false);
        let i = p[0].index;
        lemma_walk_insert_same(s[i], rest, p.drop_first());
        assert(m.nodes0 is Some);
        assert(s.update(i, s[i]) =~= s);
        assert(with_kids(m, false, s) == m);
        assert(seq![Step { params: false, index: i }] + p.drop_first() =~= p);
    }
}

/// Inserting bytes a second time, at a node that takes them, hands back the
/// node the first insertion handed back and changes nothing, whatever was
/// done meanwhile to that node below its key.
pub proof fn law_insert_bytes_twice<T>(m: NodeModel<T>, b: Seq<u8>, x: NodeModel<T>)
    requires
        wf(m),
        takes(m, b),
        x.key == at(insert_bytes_spec(m, b).0, insert_bytes_spec(m, b).1).key,
    ensures
        ({
            let (t, p) = insert_bytes_spec(m, b);
            insert_bytes_spec(put(t, p, x), b) == (put(t, p, x), p)
        }),
{
    let (t, p) = insert_bytes_spec(m, b);
    lemma_bytes_walks(m, b);
    lemma_walk_put(t, b, p, x);
    lemma_walk_insert_same(put(t, p, x), b, p);
}

/// Inserting bytes a second time hands back the node the first insertion
/// handed back and changes nothing, whatever was done meanwhile to that
/// node below its key, also where the node inserted at does not take the
/// bytes and they went among its literal children.
pub proof fn law_insert_bytes_twice_any<T>(m: NodeModel<T>, b: Seq<u8>, x: NodeModel<T>)
    requires
        wf(m),
        b.len() > 0,
        x.key == at(insert_bytes_spec(m, b).0, insert_bytes_spec(m, b).1).key,
    ensures
        ({
            let (t, p) = insert_bytes_spec(m, b);
            insert_bytes_spec(put(t, p, x), b) == (put(t, p, x), p)
        }),
{
    if takes(m, b) {
        law_insert_bytes_twice(m, b, x);
    } else {
        let (t, p) = insert_bytes_spec(m, b);
        if m.key is String {
            let k = m.key->String_0;
            assert(common_prefix(k, b, 0) == 0);
        }
        assert((t, p) == insert_child_spec(m, b));
        lemma_child_walks(m, b);
        let s = kids(t, false);
        let i = p[0].index;
        let pr = p.drop_first();
        assert(at(t, p) == at(s[i], pr));
        lemma_walk_put(s[i], b, pr, x);
        let c2 = put(s[i], pr, x);
        lemma_walk_insert_same(c2, b, pr);
        let t2 = put(t, p, x);
        let s2 = s.update(i, c2);
        assert(t2 == with_kids(t, false, s2));
        assert(kids(t2, false) == s2);
        assert(rank(c2) == rank(s[i]));
        assert forall|j: int| 0 <= j < s.len() implies rank(#[trigger] s[j]) == rank(s2[j]) by {}
        lemma_slot_ranks(s, s2, byte_rank(b[0]));
        if t2.key is String {
            let k = t2.key->String_0;
            assert(common_prefix(k, b, 0) == 0);
        }
        assert(s2.update(i, c2) =~= s2);
        assert(with_kids(t2, false, s2) == t2);
        assert(seq![Step { params: false, index: i }] + pr =~= p);
        assert(insert_child_spec(t2, b) == (t2, p));
    }
}

} // verus!
