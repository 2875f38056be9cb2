//! The shape of a route in the tree: the node that holds a route's id lies
//! past as many parameter nodes as the route's pattern has parameters.
//!
//! Insertions move nodes about (a key split puts a literal node above, new
//! siblings shift indices) but never change how many parameter nodes lie
//! above a node that holds a value: every value of the new tree is held in
//! the old one too, past as many parameter nodes ([`covered`]).
use vstd::prelude::*;

use crate::find_path::{param_nodes, param_one};
use crate::node::{
    at, byte_rank, common_prefix, insert_bytes_spec, insert_child_spec, insert_param_spec, kids, kind_rank, leaf, put,
    rank, slot, wf, with_kids, KeyModel, NodeModel, Step,
};
use crate::parser::{Kind, PieceView};
use crate::router::insert_pieces_spec;
use crate::tree_laws::{
    lemma_at_key, lemma_common_prefix, lemma_insert_bytes_wf, lemma_insert_param_wf, lemma_put_put, lemma_put_wf,
    lemma_same_place_rekeep, lemma_slot_bounds, lemma_valid_concat, lemma_wf_at, valid_path,
};

verus! {

/// The parameter nodes strictly below `m` along `p`.
pub open spec fn param_steps<T>(m: NodeModel<T>, p: Seq<Step>) -> nat
    decreases p.len(),
{
    if p.len() == 0 {
        0nat
    } else {
        let kid = kids(m, p[0].params)[p[0].index];
        param_one(kid) + param_steps(kid, p.drop_first())
    }
}

/// The parameters among `ps`.
pub open spec fn param_pieces(ps: Seq<PieceView>) -> nat
    decreases ps.len(),
{
    if ps.len() == 0 {
        0nat
    } else {
        (if ps[0] is Parameter {
            1nat
        } else {
            0nat
        }) + param_pieces(ps.drop_first())
    }
}

/// Every value held below `t` is held below `m` too, past as many parameter
/// nodes.
pub open spec fn covered<T>(t: NodeModel<T>, m: NodeModel<T>) -> bool {
    forall|q: Seq<Step>|
        #[trigger] valid_path(t, q) && at(t, q).value is Some ==> exists|q0: Seq<Step>|
            #[trigger] valid_path(m, q0) && at(m, q0).value == at(t, q).value && param_steps(m, q0) == param_steps(t, q)
}

/// No value is held below `x`.
pub open spec fn no_values<T>(x: NodeModel<T>) -> bool {
    forall|q: Seq<Step>| #[trigger] valid_path(x, q) ==> at(x, q).value is None
}

/// A leaf holds no value.
proof fn lemma_leaf_no_values<T>(key: KeyModel)
    ensures
        no_values(leaf::<T>(key)),
{
    let x = leaf::<T>(key);
    assert forall|q: Seq<Step>| #[trigger] valid_path(x, q) implies at(x, q).value is None by {
        if q.len() > 0 {
            assert(kids(x, q[0].params).len() == 0);
        }
    }
}

/// A tree covers itself.
pub proof fn lemma_covered_refl<T>(m: NodeModel<T>)
    ensures
        covered(m, m),
{
    assert forall|q: Seq<Step>| #[trigger] valid_path(m, q) && at(m, q).value is Some implies exists|q0: Seq<Step>|
        #[trigger] valid_path(m, q0) && at(m, q0).value == at(m, q).value && param_steps(m, q0) == param_steps(m, q) by {
        assert(valid_path(m, q));
    }
}

/// Covering carries over from tree to tree.
pub proof fn lemma_covered_trans<T>(a: NodeModel<T>, b: NodeModel<T>, c: NodeModel<T>)
    requires
        covered(a, b),
        covered(b, c),
    ensures
        covered(a, c),
{
    assert forall|q: Seq<Step>| #[trigger] valid_path(a, q) && at(a, q).value is Some implies exists|q0: Seq<Step>|
        #[trigger] valid_path(c, q0) && at(c, q0).value == at(a, q).value && param_steps(c, q0) == param_steps(a, q) by {
        let q1 = choose|q1: Seq<Step>|
            #[trigger] valid_path(b, q1) && at(b, q1).value == at(a, q).value && param_steps(b, q1) == param_steps(a, q);
        let q2 = choose|q2: Seq<Step>|
            #[trigger] valid_path(c, q2) && at(c, q2).value == at(b, q1).value && param_steps(c, q2) == param_steps(b, q1);
        assert(valid_path(c, q2));
    }
}

/// One step down, in both trees.
proof fn lemma_step_cons<T>(t: NodeModel<T>, m: NodeModel<T>, params: bool, j: int, j0: int, q: Seq<Step>)
    requires
        0 <= j < kids(t, params).len(),
        0 <= j0 < kids(m, params).len(),
        q.len() > 0,
        q[0] == (Step { params, index: j }),
        param_one(kids(t, params)[j]) == param_one(kids(m, params)[j0]),
        covered(kids(t, params)[j], kids(m, params)[j0]),
        valid_path(t, q),
        at(t, q).value is Some,
    ensures
        exists|q0: Seq<Step>|
            #[trigger] valid_path(m, q0) && at(m, q0).value == at(t, q).value && param_steps(m, q0) == param_steps(t, q),
{
    let kt = kids(t, params)[j];
    let km = kids(m, params)[j0];
    let qr = q.drop_first();
    assert(valid_path(kt, qr));
    assert(at(t, q) == at(kt, qr));
    let q1 = choose|q1: Seq<Step>|
        #[trigger] valid_path(km, q1) && at(km, q1).value == at(kt, qr).value && param_steps(km, q1) == param_steps(kt, qr);
    let q0 = seq![Step { params, index: j0 }] + q1;
    assert(q0[0] == Step { params, index: j0 });
    assert(q0.drop_first() =~= q1);
    assert(valid_path(m, q0));
}

/// Children matched one by one: each child of `t` holds no value or is
/// covered by the child of `m` that `f0` (literal) or `f1` (parameter) names.
proof fn lemma_cover_kids<T>(t: NodeModel<T>, m: NodeModel<T>, f0: spec_fn(int) -> int, f1: spec_fn(int) -> int)
    requires
        t.value is Some ==> t.value == m.value,
        forall|j: int|
            0 <= j < kids(t, false).len() ==> no_values(#[trigger] kids(t, false)[j]) || (0 <= f0(j) < kids(m, false).len()
                && param_one(kids(t, false)[j]) == param_one(kids(m, false)[f0(j)]) && covered(
                kids(t, false)[j],
                kids(m, false)[f0(j)],
            )),
        forall|j: int|
            0 <= j < kids(t, true).len() ==> no_values(#[trigger] kids(t, true)[j]) || (0 <= f1(j) < kids(m, true).len()
                && param_one(kids(t, true)[j]) == param_one(kids(m, true)[f1(j)]) && covered(
                kids(t, true)[j],
                kids(m, true)[f1(j)],
            )),
    ensures
        covered(t, m),
{
    assert forall|q: Seq<Step>| #[trigger] valid_path(t, q) && at(t, q).value is Some implies exists|q0: Seq<Step>|
        #[trigger] valid_path(m, q0) && at(m, q0).value == at(t, q).value && param_steps(m, q0) == param_steps(t, q) by {
        if q.len() == 0 {
            let e = Seq::<Step>::empty();
            assert(valid_path(m, e) && at(m, e) == m);
        } else {
            let st = q[0];
            let j = st.index;
            let kt = kids(t, st.params)[j];
            assert(valid_path(kt, q.drop_first()));
            assert(at(t, q) == at(kt, q.drop_first()));
            if no_values(kt) {
                assert(at(kt, q.drop_first()).value is None);
            } else if st.params {
                lemma_step_cons(t, m, true, j, f1(j), q);
            } else {
                lemma_step_cons(t, m, false, j, f0(j), q);
            }
        }
    }
}


/// Two nodes that differ at most in their key hold the same values below,
/// past the same parameter nodes.
proof fn lemma_same_kids_paths<T>(a: NodeModel<T>, b: NodeModel<T>, q: Seq<Step>)
    requires
        a.nodes0 == b.nodes0,
        a.nodes1 == b.nodes1,
        a.value == b.value,
    ensures
        valid_path(a, q) == valid_path(b, q),
        at(a, q).value == at(b, q).value,
        param_steps(a, q) == param_steps(b, q),
{
    assert(kids(a, false) == kids(b, false) && kids(a, true) == kids(b, true));
}

/// Inserting among the literal children keeps every value past as many
/// parameter nodes.
proof fn lemma_cover_child<T>(m: NodeModel<T>, b: Seq<u8>)
    requires
        wf(m),
        b.len() > 0,
    ensures
        covered(insert_child_spec(m, b).0, m),
    decreases m, 0int,
{
    let s = kids(m, false);
    let r = byte_rank(b[0]);
    let i = slot(s, r);
    lemma_slot_bounds(s, r);
    let mid = insert_child_spec(m, b).0;
    assert(kids(mid, true) == kids(m, true));
    assert forall|j: int| 0 <= j < kids(m, true).len() implies covered(#[trigger] kids(m, true)[j], kids(m, true)[j]) by {
        lemma_covered_refl(kids(m, true)[j]);
    }
    if 0 <= i < s.len() && rank(s[i]) == r {
        crate::tree_laws::lemma_wf_kid_of(m, false, i);
        lemma_cover_bytes(s[i], b);
        let t0 = s.update(i, insert_bytes_spec(s[i], b).0);
        assert(kids(mid, false) == t0);
        assert forall|j: int| 0 <= j < t0.len() && j != i implies covered(#[trigger] t0[j], s[j]) by {
            lemma_covered_refl(s[j]);
        }
        lemma_cover_kids(mid, m, |j: int| j, |j: int| j);
    } else {
        let x = leaf::<T>(KeyModel::String(b));
        lemma_leaf_no_values::<T>(KeyModel::String(b));
        let t0 = s.insert(i, x);
        assert(kids(mid, false) == t0);
        let f0 = |j: int| if j < i { j } else { j - 1 };
        assert forall|j: int| 0 <= j < t0.len() && j != i implies t0[j] == s[f0(j)] && covered(#[trigger] t0[j], s[f0(j)]) by {
            lemma_covered_refl(s[f0(j)]);
        }
        lemma_cover_kids(mid, m, f0, |j: int| j);
    }
}

/// Inserting bytes keeps every value past as many parameter nodes.
pub proof fn lemma_cover_bytes<T>(m: NodeModel<T>, b: Seq<u8>)
    requires
        wf(m),
        b.len() > 0,
    ensures
        covered(insert_bytes_spec(m, b).0, m),
        param_one(insert_bytes_spec(m, b).0) == param_one(m),
    decreases m, 1int,
{
    let t = insert_bytes_spec(m, b).0;
    match m.key {
        KeyModel::Parameter(_) => {
            lemma_cover_child(m, b);
        },
        KeyModel::String(k) => {
            if k.len() == 0 {
                assert forall|q: Seq<Step>| #[trigger] valid_path(t, q) && at(t, q).value is Some implies exists|q0: Seq<Step>|
                    #[trigger] valid_path(m, q0) && at(m, q0).value == at(t, q).value && param_steps(m, q0) == param_steps(t, q) by {
                    lemma_same_kids_paths(t, m, q);
                    assert(valid_path(m, q));
                }
            } else {
                let c = common_prefix(k, b, 0);
                lemma_common_prefix(k, b, 0);
                if c == 0 {
                    lemma_cover_child(m, b);
                } else if c < k.len() {
                    let lower = NodeModel { key: KeyModel::String(k.subrange(c, k.len() as int)), ..m };
                    assert(t.value is None);
                    assert(kids(t, true).len() == 0);
                    assert forall|q: Seq<Step>| #[trigger] valid_path(t, q) && at(t, q).value is Some implies exists|q0: Seq<Step>|
                        #[trigger] valid_path(m, q0) && at(m, q0).value == at(t, q).value && param_steps(m, q0) == param_steps(t, q) by {
                        assert(q.len() > 0);
                        let st = q[0];
                        let qr = q.drop_first();
                        assert(!st.params);
                        let kid = kids(t, false)[st.index];
                        assert(at(t, q) == at(kid, qr));
                        if kid == lower {
                            lemma_same_kids_paths(lower, m, qr);
                            assert(valid_path(m, qr));
                        } else {
                            let rest = b.subrange(c, b.len() as int);
                            assert(kid == leaf::<T>(KeyModel::String(rest)));
                            lemma_leaf_no_values::<T>(KeyModel::String(rest));
                            assert(valid_path(kid, qr));
                            assert(false);
                        }
                    }
                } else if c == b.len() {
                    lemma_covered_refl(m);
                } else {
                    lemma_cover_child(m, b.subrange(c, b.len() as int));
                }
            }
        },
    }
}

/// Inserting a parameter child keeps every value past as many parameter nodes.
pub proof fn lemma_cover_param<T>(m: NodeModel<T>, kind: Kind)
    ensures
        covered(insert_param_spec(m, kind).0, m),
        param_one(insert_param_spec(m, kind).0) == param_one(m),
{
    let s = kids(m, true);
    let i = slot(s, kind_rank(kind));
    lemma_slot_bounds(s, kind_rank(kind));
    let mid = insert_param_spec(m, kind).0;
    assert(kids(mid, false) == kids(m, false));
    assert forall|j: int| 0 <= j < kids(m, false).len() implies covered(#[trigger] kids(m, false)[j], kids(m, false)[j]) by {
        lemma_covered_refl(kids(m, false)[j]);
    }
    if i < s.len() && s[i].key == KeyModel::Parameter(kind) {
        assert(kids(mid, true) == s);
        assert forall|j: int| 0 <= j < s.len() implies covered(#[trigger] s[j], s[j]) by {
            lemma_covered_refl(s[j]);
        }
        lemma_cover_kids(mid, m, |j: int| j, |j: int| j);
    } else {
        let x = leaf::<T>(KeyModel::Parameter(kind));
        lemma_leaf_no_values::<T>(KeyModel::Parameter(kind));
        let t1 = s.insert(i, x);
        assert(kids(mid, true) == t1);
        let f1 = |j: int| if j < i { j } else { j - 1 };
        assert forall|j: int| 0 <= j < t1.len() && j != i implies t1[j] == s[f1(j)] && covered(#[trigger] t1[j], s[f1(j)]) by {
            lemma_covered_refl(s[f1(j)]);
        }
        lemma_cover_kids(mid, m, |j: int| j, f1);
    }
}

/// Replacing the node at `path` by one that it covers.
pub proof fn lemma_cover_put<T>(m: NodeModel<T>, path: Seq<Step>, sub: NodeModel<T>)
    requires
        valid_path(m, path),
        covered(sub, at(m, path)),
        param_one(sub) == param_one(at(m, path)),
    ensures
        covered(put(m, path, sub), m),
        param_one(put(m, path, sub)) == param_one(m),
    decreases path.len(),
{
    if path.len() > 0 {
        let st = path[0];
        let s = kids(m, st.params);
        let i = st.index;
        let rest = path.drop_first();
        assert(at(m, path) == at(s[i], rest));
        lemma_cover_put(s[i], rest, sub);
        let r = put(m, path, sub);
        let t0 = s.update(i, put(s[i], rest, sub));
        assert(kids(r, st.params) == t0);
        assert(kids(r, !st.params) == kids(m, !st.params));
        assert forall|j: int| 0 <= j < kids(m, false).len() && !(j == i && !st.params) implies covered(
            #[trigger] kids(m, false)[j],
            kids(m, false)[j],
        ) by {
            lemma_covered_refl(kids(m, false)[j]);
        }
        assert forall|j: int| 0 <= j < kids(m, true).len() && !(j == i && st.params) implies covered(
            #[trigger] kids(m, true)[j],
            kids(m, true)[j],
        ) by {
            lemma_covered_refl(kids(m, true)[j]);
        }
        lemma_cover_kids(r, m, |j: int| j, |j: int| j);
    }
}


/// Parameter nodes along two paths, one after the other.
pub proof fn lemma_param_steps_concat<T>(m: NodeModel<T>, p: Seq<Step>, q: Seq<Step>)
    requires
        valid_path(m, p),
    ensures
        param_steps(m, p + q) == param_steps(m, p) + param_steps(at(m, p), q),
    decreases p.len(),
{
    if p.len() == 0 {
        assert(p + q =~= q);
    } else {
        let kid = kids(m, p[0].params)[p[0].index];
        lemma_param_steps_concat(kid, p.drop_first(), q);
        assert((p + q)[0] == p[0]);
        assert((p + q).drop_first() =~= p.drop_first() + q);
    }
}

/// Replacing the node at `p` by one of the same kind keeps the parameter
/// nodes along `p`.
proof fn lemma_put_steps<T>(m: NodeModel<T>, p: Seq<Step>, sub: NodeModel<T>)
    requires
        valid_path(m, p),
        param_one(sub) == param_one(at(m, p)),
    ensures
        param_steps(put(m, p, sub), p) == param_steps(m, p),
    decreases p.len(),
{
    if p.len() > 0 {
        let st = p[0];
        let s = kids(m, st.params);
        let i = st.index;
        let rest = p.drop_first();
        assert(at(m, p) == at(s[i], rest));
        lemma_put_steps(s[i], rest, sub);
        let r = put(m, p, sub);
        assert(kids(r, st.params) == s.update(i, put(s[i], rest, sub)));
        assert(param_one(put(s[i], rest, sub)) == param_one(s[i])) by {
            if rest.len() == 0 {
            } else {
                assert(put(s[i], rest, sub).key == s[i].key);
            }
        }
    }
}

/// A path of literal steps in a well-formed tree passes no parameter node.
proof fn lemma_literal_steps_free<T>(m: NodeModel<T>, q: Seq<Step>)
    requires
        wf(m),
        valid_path(m, q),
        forall|j: int| 0 <= j < q.len() ==> !(#[trigger] q[j]).params,
    ensures
        param_steps(m, q) == 0,
    decreases q.len(),
{
    if q.len() > 0 {
        assert(!q[0].params);
        let kid = kids(m, false)[q[0].index];
        crate::tree_laws::lemma_wf_kid_of(m, false, q[0].index);
        assert(param_one(kid) == 0);
        let qr = q.drop_first();
        assert forall|j: int| 0 <= j < qr.len() implies !(#[trigger] qr[j]).params by {
            assert(qr[j] == q[j + 1]);
        }
        lemma_literal_steps_free(kid, qr);
    }
}

/// The path that inserting among the literal children hands back has literal
/// steps only.
proof fn lemma_child_path_literal<T>(m: NodeModel<T>, b: Seq<u8>)
    ensures
        forall|j: int| 0 <= j < insert_child_spec(m, b).1.len() ==> !(#[trigger] insert_child_spec(m, b).1[j]).params,
    decreases m, 0int,
{
    let s = kids(m, false);
    let i = slot(s, byte_rank(b[0]));
    if 0 <= i < s.len() && rank(s[i]) == byte_rank(b[0]) {
        lemma_bytes_path_literal(s[i], b);
        let q = insert_bytes_spec(s[i], b).1;
        let p = insert_child_spec(m, b).1;
        assert(p == seq![Step { params: false, index: i }] + q);
        assert forall|j: int| 0 <= j < p.len() implies !(#[trigger] p[j]).params by {
            if j > 0 {
                assert(p[j] == q[j - 1]);
            }
        }
    }
}

/// The path that inserting bytes hands back has literal steps only.
proof fn lemma_bytes_path_literal<T>(m: NodeModel<T>, b: Seq<u8>)
    ensures
        forall|j: int| 0 <= j < insert_bytes_spec(m, b).1.len() ==> !(#[trigger] insert_bytes_spec(m, b).1[j]).params,
    decreases m, 1int,
{
    match m.key {
        KeyModel::String(k) => {
            if k.len() > 0 {
                let c = common_prefix(k, b, 0);
                lemma_common_prefix(k, b, 0);
                let p = insert_bytes_spec(m, b).1;
                if c == 0 {
                    lemma_child_path_literal(m, b);
                    assert(p == insert_child_spec(m, b).1);
                } else if c < k.len() {
                    if c == b.len() {
                        assert(p.len() == 0);
                    } else {
                        assert(p.len() == 1 && !p[0].params);
                    }
                } else if c == b.len() {
                    assert(p.len() == 0);
                } else {
                    lemma_child_path_literal(m, b.subrange(c, b.len() as int));
                    assert(p == insert_child_spec(m, b.subrange(c, b.len() as int)).1);
                }
            }
        },
        KeyModel::Parameter(_) => {
            lemma_child_path_literal(m, b);
            assert(insert_bytes_spec(m, b).1 == insert_child_spec(m, b).1);
        },
    }
}

/// Inserting the pieces of a pattern from `path` on: every value of the new
/// tree is held in the old one past as many parameter nodes, and the node
/// that ends the pattern lies past one more parameter node per parameter
/// piece.
pub proof fn lemma_shape_pieces(m: NodeModel<usize>, path: Seq<Step>, pieces: Seq<PieceView>)
    requires
        wf(m),
        valid_path(m, path),
        forall|j: int| 0 <= j < pieces.len() ==> (#[trigger] pieces[j] matches PieceView::String(lit) ==> lit.len() > 0),
    ensures
        ({
            let (t, p) = insert_pieces_spec(m, path, pieces);
            &&& covered(t, m)
            &&& param_one(t) == param_one(m)
            &&& valid_path(t, p)
            &&& param_steps(t, p) == param_steps(m, path) + param_pieces(pieces)
        }),
    decreases pieces.len(),
{
    if pieces.len() == 0 {
        lemma_covered_refl(m);
    } else {
        let cur = at(m, path);
        lemma_wf_at(m, path);
        if path.len() > 0 {
            lemma_at_key(m, path);
        }
        let rest = pieces.drop_first();
        assert forall|j: int| 0 <= j < rest.len() implies (#[trigger] rest[j] matches PieceView::String(lit) ==> lit.len() > 0) by {
            assert(rest[j] == pieces[j + 1]);
        }
        let r = match pieces[0] {
            PieceView::String(b) => insert_bytes_spec(cur, b),
            PieceView::Parameter(_, k) => {
                let (mid, i) = insert_param_spec(cur, k);
                (mid, seq![Step { params: true, index: i }])
            },
        };
        match pieces[0] {
            PieceView::String(b) => {
                lemma_insert_bytes_wf(cur, b);
                lemma_cover_bytes(cur, b);
                lemma_bytes_path_literal(cur, b);
                lemma_literal_steps_free(r.0, r.1);
                assert(param_pieces(pieces) == param_pieces(rest));
            },
            PieceView::Parameter(_, k) => {
                lemma_insert_param_wf(cur, k);
                lemma_cover_param(cur, k);
                if path.len() > 0 {
                    lemma_same_place_rekeep(cur, r.0);
                }
                let i = r.1[0].index;
                lemma_slot_bounds(kids(cur, true), kind_rank(k));
                assert(r.1.drop_first() =~= Seq::<Step>::empty());
                assert(kids(r.0, true)[i].key == KeyModel::Parameter(k));
                assert(r.1[0] == Step { params: true, index: i });
                assert(param_steps(kids(r.0, true)[i], r.1.drop_first()) == 0);
                assert(param_steps(r.0, r.1) == 1);
                assert(param_pieces(pieces) == 1 + param_pieces(rest));
            },
        }
        lemma_put_wf(m, path, r.0);
        let m2 = put(m, path, r.0);
        lemma_cover_put(m, path, r.0);
        lemma_put_steps(m, path, r.0);
        lemma_put_put(m, path, Seq::empty(), r.0, r.0);
        assert(path + Seq::<Step>::empty() =~= path);
        lemma_valid_concat(m2, path, r.1);
        lemma_param_steps_concat(m2, path, r.1);
        lemma_shape_pieces(m2, path + r.1, rest);
        let (t, p) = insert_pieces_spec(m, path, pieces);
        assert((t, p) == insert_pieces_spec(m2, path + r.1, rest));
        lemma_covered_trans(t, m2, m);
    }
}


/// Parameter nodes along a path, the starting node counted or not.
pub proof fn lemma_nodes_steps<T>(m: NodeModel<T>, p: Seq<Step>)
    ensures
        param_nodes(m, p) == param_one(m) + param_steps(m, p),
    decreases p.len(),
{
    if p.len() > 0 {
        lemma_nodes_steps(kids(m, p[0].params)[p[0].index], p.drop_first());
    }
}

/// The routes' ids sit where their patterns say: the root is literal, and
/// each node that holds an id lies past as many parameter nodes as the
/// pattern of that id's route has parameters.
pub open spec fn shaped<T>(m: NodeModel<usize>, routes: Seq<(T, Seq<PieceView>)>) -> bool {
    &&& m.key is String
    &&& forall|q: Seq<Step>|
        #[trigger] valid_path(m, q) && at(m, q).value is Some ==> at(m, q).value->Some_0 < routes.len()
            && param_steps(m, q) == param_pieces(routes[at(m, q).value->Some_0 as int].1)
}

/// Replacing the node at `p` by one with the same children and kind: paths
/// of the new tree are paths of the old one, past the same parameter nodes,
/// to the same values but at `p`.
pub proof fn lemma_put_at<T>(m: NodeModel<T>, p: Seq<Step>, y: NodeModel<T>, q: Seq<Step>)
    requires
        valid_path(m, p),
        param_one(y) == param_one(at(m, p)),
        kids(y, false) == kids(at(m, p), false),
        kids(y, true) == kids(at(m, p), true),
        valid_path(put(m, p, y), q),
    ensures
        valid_path(m, q),
        param_steps(put(m, p, y), q) == param_steps(m, q),
        q == p ==> at(put(m, p, y), q) == y,
        q != p ==> at(put(m, p, y), q).value == at(m, q).value,
    decreases q.len(),
{
    let m2 = put(m, p, y);
    if p.len() == 0 {
        if q.len() == 0 {
            assert(q =~= p);
        } else {
            assert(at(m2, q) == at(kids(y, q[0].params)[q[0].index], q.drop_first()));
        }
    } else {
        let st = p[0];
        let s = kids(m, st.params);
        let i = st.index;
        let rest = p.drop_first();
        let sub = put(s[i], rest, y);
        assert(at(m, p) == at(s[i], rest));
        assert(kids(m2, st.params) == s.update(i, sub));
        assert(kids(m2, !st.params) == kids(m, !st.params));
        assert(param_one(sub) == param_one(s[i])) by {
            if rest.len() > 0 {
                assert(sub.key == s[i].key);
            }
        }
        if q.len() > 0 {
            let qr = q.drop_first();
            if q[0] == st {
                lemma_put_at(s[i], rest, y, qr);
                if qr == rest {
                    assert forall|z: int| 0 <= z < q.len() implies q[z] == p[z] by {
                        if z > 0 {
                            assert(q[z] == qr[z - 1]);
                            assert(p[z] == rest[z - 1]);
                        }
                    }
                    assert(q =~= p);
                }
                if q == p {
                    assert(qr == rest);
                }
            } else {
                let kid = kids(m2, q[0].params)[q[0].index];
                assert(kid == kids(m, q[0].params)[q[0].index]);
            }
        }
    }
}


/// Inserting a pattern as the router does keeps the routes' ids where their
/// patterns say: the node the pattern leads to keeps its id (its route
/// taking the new pattern, or keeping its own for the empty pattern) or gets
/// the next one.
pub proof fn lemma_shaped_insert<T>(
    m0: NodeModel<usize>,
    routes: Seq<(T, Seq<PieceView>)>,
    pieces: Seq<PieceView>,
    value: T,
    empty_path: bool,
)
    requires
        wf(m0),
        shaped(m0, routes),
        routes.len() <= usize::MAX,
        forall|j: int| 0 <= j < pieces.len() ==> (#[trigger] pieces[j] matches PieceView::String(lit) ==> lit.len() > 0),
        empty_path ==> pieces.len() == 0,
    ensures
        ({
            let (t, p) = insert_pieces_spec(m0, Seq::empty(), pieces);
            let target = at(t, p);
            match target.value {
                Some(old_id) => shaped(
                    t,
                    routes.update(
                        old_id as int,
                        (value, if empty_path {
                            routes[old_id as int].1
                        } else {
                            pieces
                        }),
                    ),
                ),
                None => shaped(
                    put(t, p, NodeModel { value: Some(routes.len() as usize), ..target }),
                    routes.push((value, pieces)),
                ),
            }
        }),
{
    let e = Seq::<Step>::empty();
    lemma_shape_pieces(m0, e, pieces);
    let (t, p) = insert_pieces_spec(m0, e, pieces);
    let target = at(t, p);
    assert(param_steps(m0, e) == 0);
    assert(t.key is String);
    match target.value {
        Some(old_id) => {
            let r2 = routes.update(
                old_id as int,
                (value, if empty_path {
                    routes[old_id as int].1
                } else {
                    pieces
                }),
            );
            let q1 = choose|q1: Seq<Step>|
                #[trigger] valid_path(m0, q1) && at(m0, q1).value == at(t, p).value && param_steps(m0, q1) == param_steps(t, p);
            assert(valid_path(m0, q1) && at(m0, q1).value is Some);
            if empty_path {
                assert(pieces.len() == 0);
                assert(param_pieces(pieces) == 0);
            }
            assert(param_pieces(r2[old_id as int].1) == param_pieces(routes[old_id as int].1));
            assert forall|q: Seq<Step>| #[trigger] valid_path(t, q) && at(t, q).value is Some implies at(t, q).value->Some_0
                < r2.len() && param_steps(t, q) == param_pieces(r2[at(t, q).value->Some_0 as int].1) by {
                let q0 = choose|q0: Seq<Step>|
                    #[trigger] valid_path(m0, q0) && at(m0, q0).value == at(t, q).value && param_steps(m0, q0) == param_steps(t, q);
                assert(valid_path(m0, q0) && at(m0, q0).value is Some);
            }
        },
        None => {
            let n = routes.len();
            let done = NodeModel { value: Some(n as usize), ..target };
            let r2 = routes.push((value, pieces));
            let t2 = put(t, p, done);
            assert forall|q: Seq<Step>| #[trigger] valid_path(t2, q) && at(t2, q).value is Some implies at(t2, q).value->Some_0
                < r2.len() && param_steps(t2, q) == param_pieces(r2[at(t2, q).value->Some_0 as int].1) by {
                lemma_put_at(t, p, done, q);
                if q == p {
                    assert(r2[n as int].1 == pieces);
                } else {
                    let q0 = choose|q0: Seq<Step>|
                        #[trigger] valid_path(m0, q0) && at(m0, q0).value == at(t, q).value && param_steps(m0, q0) == param_steps(
                            t,
                            q,
                        );
                    assert(valid_path(m0, q0) && at(m0, q0).value is Some);
                }
            }
        },
    }
}

} // verus!
