//! Laws of the router as a whole: how deep inserting makes the tree, which
//! routes every insertion keeps, and what matching gives back of a route.
use vstd::prelude::*;
use vstd::utf8::valid_utf8;

use crate::find::{find_at, height_within};
use crate::find_laws::law_single_param;
use crate::keep::{lemma_keep_bytes, lemma_keep_param, lemma_keep_put, routes_to};
use crate::node::{at, insert_bytes_spec, insert_param_spec, kids, put, wf, KeyModel, NodeModel, Step};
use crate::parser::{parse_pattern, Kind, PieceView, PositionView};
use crate::find_laws::{takes, walks};
use crate::router::{captures_text, insert_pieces_spec, is_literal, url_bytes};
use crate::shape::param_pieces;
use crate::tree_laws::{
    lemma_at_key, lemma_insert_bytes_wf, lemma_insert_param_wf, lemma_put_put, lemma_put_wf, lemma_same_place_rekeep,
    lemma_valid_concat, lemma_wf_at, valid_path,
};

verus! {

/// Inserting a single literal piece is inserting its bytes at the root.
pub proof fn lemma_insert_literal(m: NodeModel<usize>, b: Seq<u8>)
    ensures
        insert_pieces_spec(m, Seq::empty(), seq![PieceView::String(b)]) == insert_bytes_spec(m, b),
{
    let ps = seq![PieceView::String(b)];
    let r = insert_bytes_spec(m, b);
    assert(at(m, Seq::empty()) == m);
    assert(put(m, Seq::empty(), r.0) == r.0);
    assert(Seq::<Step>::empty() + r.1 =~= r.1);
    assert(ps.drop_first() =~= Seq::<PieceView>::empty());
    assert(insert_pieces_spec(r.0, r.1, Seq::<PieceView>::empty()) == r);
}

/// Inserting the pieces of a pattern deepens the tree by at most one level
/// per piece.
pub proof fn lemma_height_pieces(m: NodeModel<usize>, path: Seq<Step>, pieces: Seq<PieceView>, h: nat)
    requires
        wf(m),
        valid_path(m, path),
        height_within(m, h),
        forall|j: int| 0 <= j < pieces.len() ==> (#[trigger] pieces[j] matches PieceView::String(lit) ==> lit.len() > 0),
    ensures
        height_within(insert_pieces_spec(m, path, pieces).0, h + pieces.len()),
    decreases pieces.len(),
{
    if pieces.len() > 0 {
        let cur = at(m, path);
        lemma_wf_at(m, path);
        crate::height::lemma_height_at(m, path, h);
        crate::height::lemma_height_mono(m, h, h + 1);
        if path.len() > 0 {
            lemma_at_key(m, path);
        }
        let rest = pieces.drop_first();
        assert forall|j: int| 0 <= j < rest.len() implies (#[trigger] rest[j] matches PieceView::String(lit) ==> lit.len() > 0) by {
            assert(rest[j] == pieces[j + 1]);
        }
        match pieces[0] {
            PieceView::String(b) => {
                let r = insert_bytes_spec(cur, b);
                crate::height::lemma_height_bytes(cur, b, (h - path.len()) as nat);
                lemma_insert_bytes_wf(cur, b);
                crate::height::lemma_height_put(m, path, r.0, h + 1);
                lemma_put_wf(m, path, r.0);
                let m2 = put(m, path, r.0);
                lemma_put_put(m, path, Seq::empty(), r.0, r.0);
                assert(path + Seq::<Step>::empty() =~= path);
                lemma_valid_concat(m2, path, r.1);
                lemma_height_pieces(m2, path + r.1, rest, h + 1);
            },
            PieceView::Parameter(_, k) => {
                let r = insert_param_spec(cur, k);
                let st = seq![Step { params: true, index: r.1 }];
                crate::height::lemma_height_param(cur, k, (h - path.len()) as nat);
                lemma_insert_param_wf(cur, k);
                if path.len() > 0 {
                    lemma_same_place_rekeep(cur, r.0);
                }
                crate::height::lemma_height_put(m, path, r.0, h + 1);
                lemma_put_wf(m, path, r.0);
                let m2 = put(m, path, r.0);
                lemma_put_put(m, path, Seq::empty(), r.0, r.0);
                assert(path + Seq::<Step>::empty() =~= path);
                lemma_valid_concat(m2, path, st);
                lemma_height_pieces(m2, path + st, rest, h + 1);
            },
        }
    }
}

/// Inserting the pieces of a pattern keeps every literal path that leads to
/// a value leading to it.
pub proof fn lemma_keep_pieces(m: NodeModel<usize>, path: Seq<Step>, pieces: Seq<PieceView>, b: Seq<u8>, v: usize)
    requires
        wf(m),
        valid_path(m, path),
        routes_to(m, b, v),
        forall|j: int| 0 <= j < pieces.len() ==> (#[trigger] pieces[j] matches PieceView::String(lit) ==> lit.len() > 0),
    ensures
        routes_to(insert_pieces_spec(m, path, pieces).0, b, v),
    decreases pieces.len(),
{
    if pieces.len() > 0 {
        let cur = at(m, path);
        lemma_wf_at(m, path);
        if path.len() > 0 {
            lemma_at_key(m, path);
        }
        let rest = pieces.drop_first();
        assert forall|j: int| 0 <= j < rest.len() implies (#[trigger] rest[j] matches PieceView::String(lit) ==> lit.len() > 0) by {
            assert(rest[j] == pieces[j + 1]);
        }
        match pieces[0] {
            PieceView::String(b2) => {
                let r = insert_bytes_spec(cur, b2);
                lemma_insert_bytes_wf(cur, b2);
                assert forall|bs: Seq<u8>| routes_to(cur, bs, v) implies #[trigger] routes_to(r.0, bs, v) by {
                    lemma_keep_bytes(cur, bs, v, b2);
                }
                lemma_keep_put(m, path, r.0, b, v);
                lemma_put_wf(m, path, r.0);
                let m2 = put(m, path, r.0);
                lemma_put_put(m, path, Seq::empty(), r.0, r.0);
                assert(path + Seq::<Step>::empty() =~= path);
                lemma_valid_concat(m2, path, r.1);
                lemma_keep_pieces(m2, path + r.1, rest, b, v);
            },
            PieceView::Parameter(_, k) => {
                let r = insert_param_spec(cur, k);
                let st = seq![Step { params: true, index: r.1 }];
                lemma_insert_param_wf(cur, k);
                if path.len() > 0 {
                    lemma_same_place_rekeep(cur, r.0);
                }
                assert forall|bs: Seq<u8>| routes_to(cur, bs, v) implies #[trigger] routes_to(r.0, bs, v) by {
                    lemma_keep_param(cur, bs, v, k);
                }
                lemma_keep_put(m, path, r.0, b, v);
                lemma_put_wf(m, path, r.0);
                let m2 = put(m, path, r.0);
                lemma_put_put(m, path, Seq::empty(), r.0, r.0);
                assert(path + Seq::<Step>::empty() =~= path);
                lemma_valid_concat(m2, path, st);
                lemma_keep_pieces(m2, path + st, rest, b, v);
            },
        }
    }
}

/// On a new router, the first route, when its pattern is a literal followed
/// by one `:name` parameter, matches the literal followed by any non-empty
/// piece without `/`, and captures that piece.
pub proof fn law_new_param_route(pattern: Seq<u8>, s: Seq<u8>, pos: PositionView, piece: Seq<u8>)
    requires
        parse_pattern(pattern) == seq![PieceView::String(s), PieceView::Parameter(pos, Kind::Normal)],
        piece.len() > 0,
        forall|j: int| 0 <= j < piece.len() ==> piece[j] != crate::bytes::SLASH,
    ensures
        ({
            let root = NodeModel::<usize> { key: KeyModel::String(Seq::empty()), value: None, nodes0: None, nodes1: None };
            let (t, p) = insert_pieces_spec(root, Seq::empty(), parse_pattern(pattern));
            let target = at(t, p);
            &&& target.value is None
            &&& find_at(put(t, p, NodeModel { value: Some(0usize), ..target }), 0, s + piece) == Some(
                (0usize, seq![(s.len() as int, (s.len() + piece.len()) as int)]),
            )
        }),
{
    let ps = parse_pattern(pattern);
    crate::parser::lemma_parse_literals(pattern, 0, 0);
    assert(ps[0] == PieceView::String(s));
    let root = NodeModel::<usize> { key: KeyModel::String(Seq::empty()), value: None, nodes0: None, nodes1: None };
    let e = Seq::<Step>::empty();
    let m1 = NodeModel { key: KeyModel::String(s), ..root };
    assert(at(root, e) == root);
    assert(insert_bytes_spec(root, s) == (m1, e));
    assert(put(root, e, m1) == m1);
    assert(e + e =~= e);
    let rest = ps.drop_first();
    assert(rest =~= seq![PieceView::Parameter(pos, Kind::Normal)]);
    assert(insert_pieces_spec(root, e, ps) == insert_pieces_spec(m1, e, rest));
    let leafp = crate::node::leaf::<usize>(KeyModel::Parameter(Kind::Normal));
    let m2 = NodeModel { nodes1: Some(seq![leafp]), ..m1 };
    assert(kids(m1, true) == Seq::<NodeModel<usize>>::empty());
    assert(Seq::<NodeModel<usize>>::empty().insert(0, leafp) =~= seq![leafp]);
    assert(insert_param_spec(m1, Kind::Normal) == (m2, 0int));
    assert(at(m1, e) == m1);
    assert(put(m1, e, m2) == m2);
    let st = seq![Step { params: true, index: 0 }];
    assert(e + st =~= st);
    assert(rest.drop_first() =~= Seq::<PieceView>::empty());
    assert(insert_pieces_spec(m1, e, rest) == insert_pieces_spec(m2, st, Seq::<PieceView>::empty()));
    assert(insert_pieces_spec(m2, st, Seq::<PieceView>::empty()) == (m2, st));
    crate::node::lemma_at_cons(m2, Step { params: true, index: 0 }, e);
    assert(st =~= seq![Step { params: true, index: 0 }] + e);
    assert(at(m2, st) == leafp);
    let valued = NodeModel { value: Some(0usize), ..leafp };
    crate::node::lemma_put_one(m2, Step { params: true, index: 0 }, valued);
    assert(seq![leafp].update(0, valued) =~= seq![valued]);
    law_single_param(s, 0usize, piece);
}

/// Matching a path made of ASCII bytes captures text: every range it records
/// covers whole characters.
pub proof fn lemma_ascii_captures<T>(m: NodeModel<T>, b: Seq<u8>)
    requires
        forall|i: int| 0 <= i < b.len() ==> b[i] < 128,
    ensures
        captures_text(b, find_at(m, 0, b)),
{
    crate::find_laws::lemma_find_within(m, 0, b);
    let f = find_at(m, 0, b);
    if f is Some {
        let p = f->Some_0.1;
        assert forall|i: int| 0 <= i < p.len() implies valid_utf8(b.subrange(#[trigger] p[i].0, p[i].1)) by {
            let c = b.subrange(p[i].0, p[i].1);
            assert forall|j: int| 0 <= 0 <= j < c.len() <= c.len() implies #[trigger] vstd::utf8::is_leading_byte_width_1(c[j]) by {
                assert(c[j] == b[p[i].0 + j]);
            }
            assert(c.subrange(0, 0) =~= Seq::<u8>::empty());
            vstd::utf8::partial_valid_utf8_extend_ascii_block(c, 0, c.len() as int);
            assert(c.subrange(0, c.len() as int) =~= c);
        }
    }
}


/// One insertion of the pattern `b` as the router makes it, into the tree `m`
/// whose next id is `n`: the node that the pattern leads to keeps its id, or
/// gets `n`. Gives the tree, the next id and the id handed back.
pub open spec fn insert_route_spec(m: NodeModel<usize>, n: nat, b: Seq<u8>) -> (NodeModel<usize>, nat, usize) {
    let (t, p) = insert_pieces_spec(m, Seq::empty(), parse_pattern(b));
    let target = at(t, p);
    match target.value {
        Some(v) => (t, n, v),
        None => (put(t, p, NodeModel { value: Some(n as usize), ..target }), n + 1, n as usize),
    }
}

/// The patterns `ps` inserted in turn: the tree, the next id, and the id that
/// each insertion handed back.
pub open spec fn inserts_spec(m: NodeModel<usize>, n: nat, ps: Seq<Seq<u8>>) -> (NodeModel<usize>, nat, Seq<usize>)
    decreases ps.len(),
{
    if ps.len() == 0 {
        (m, n, Seq::empty())
    } else {
        let r = insert_route_spec(m, n, ps[0]);
        let rest = inserts_spec(r.0, r.1, ps.drop_first());
        (rest.0, rest.1, seq![r.2] + rest.2)
    }
}

/// One literal insertion: the tree stays well formed, its root key starts
/// with the first byte of `b`, `b` leads to the id handed back, and every
/// literal path that led to a value still does.
proof fn lemma_literal_step(m: NodeModel<usize>, n: nat, b: Seq<u8>)
    requires
        wf(m),
        is_literal(b),
        takes(m, b),
    ensures
        ({
            let r = insert_route_spec(m, n, b);
            &&& wf(r.0)
            &&& r.0.key matches KeyModel::String(k) && k.len() > 0 && k[0] == b[0]
            &&& routes_to(r.0, b, r.2)
            &&& forall|x: Seq<u8>, v: usize| routes_to(m, x, v) ==> #[trigger] routes_to(r.0, x, v)
        }),
{
    let pieces = parse_pattern(b);
    lemma_insert_literal(m, b);
    let (t, p) = insert_bytes_spec(m, b);
    lemma_insert_bytes_wf(m, b);
    crate::find_laws::lemma_bytes_walks(m, b);
    lemma_wf_at(t, p);
    let target = at(t, p);
    let r = insert_route_spec(m, n, b);
    assert forall|x: Seq<u8>, v: usize| routes_to(m, x, v) implies #[trigger] routes_to(t, x, v) by {
        lemma_keep_pieces(m, Seq::empty(), pieces, x, v);
    }
    if target.value is Some {
        assert(walks(r.0, b, p) && at(r.0, p).value == Some(r.2));
    } else {
        let done = NodeModel { value: Some(n as usize), ..target };
        crate::tree_laws::lemma_wf_rekey(target, done);
        if p.len() > 0 {
            lemma_at_key(t, p);
            lemma_same_place_rekeep(target, done);
        }
        lemma_put_wf(t, p, done);
        crate::find_laws::lemma_walk_put(t, b, p, done);
        assert(walks(r.0, b, p) && at(r.0, p).value == Some(r.2));
        assert forall|x: Seq<u8>, v: usize| routes_to(m, x, v) implies #[trigger] routes_to(r.0, x, v) by {
            assert(routes_to(t, x, v));
            assert forall|bs: Seq<u8>| routes_to(target, bs, v) implies #[trigger] routes_to(done, bs, v) by {
                let q = choose|q: Seq<Step>| #[trigger] walks(target, bs, q) && at(target, q).value == Some(v);
                crate::keep::lemma_walk_same_lits(target, done, bs, q);
                assert(walks(done, bs, q) && at(done, q).value == Some(v));
            }
            lemma_keep_put(t, p, done, x, v);
        }
    }
    let k = r.0.key->String_0;
    assert(b.subrange(0, k.len() as int)[0] == b[0]);
}

/// Literal insertions in turn, into a tree whose root key is empty or starts
/// with their common first byte: each path leads to the id its insertion
/// handed back, and every literal path that led to a value before still does.
proof fn lemma_literal_steps(m: NodeModel<usize>, n: nat, ps: Seq<Seq<u8>>, c: u8)
    requires
        wf(m),
        m.key matches KeyModel::String(k) && (k.len() == 0 || k[0] == c),
        forall|i: int| 0 <= i < ps.len() ==> is_literal(#[trigger] ps[i]) && ps[i].len() > 0 && ps[i][0] == c,
    ensures
        ({
            let r = inserts_spec(m, n, ps);
            &&& r.2.len() == ps.len()
            &&& forall|i: int| 0 <= i < ps.len() ==> routes_to(r.0, #[trigger] ps[i], r.2[i])
            &&& forall|x: Seq<u8>, v: usize| routes_to(m, x, v) ==> #[trigger] routes_to(r.0, x, v)
        }),
    decreases ps.len(),
{
    if ps.len() > 0 {
        let b = ps[0];
        assert(is_literal(b) && b.len() > 0 && b[0] == c);
        lemma_literal_step(m, n, b);
        let s = insert_route_spec(m, n, b);
        let rest = ps.drop_first();
        assert forall|i: int| 0 <= i < rest.len() implies is_literal(#[trigger] rest[i]) && rest[i].len() > 0
            && rest[i][0] == c by {
            assert(rest[i] == ps[i + 1]);
        }
        lemma_literal_steps(s.0, s.1, rest, c);
        let r = inserts_spec(m, n, ps);
        let rr = inserts_spec(s.0, s.1, rest);
        assert forall|i: int| 0 <= i < ps.len() implies routes_to(r.0, #[trigger] ps[i], r.2[i]) by {
            if i == 0 {
                assert(routes_to(s.0, b, s.2));
            } else {
                assert(ps[i] == rest[i - 1]);
                assert(r.2[i] == rr.2[i - 1]);
            }
        }
    }
}

/// On a new router, after literal paths that all start with the same byte
/// are inserted one after the other, each of them is matched, capturing
/// nothing, to the id that its own insertion handed back.
pub proof fn law_literal_routes_found(ps: Seq<Seq<u8>>)
    requires
        forall|i: int| 0 <= i < ps.len() ==> is_literal(#[trigger] ps[i]) && ps[i].len() > 0 && ps[i][0] == ps[0][0],
    ensures
        ({
            let root = NodeModel::<usize> { key: KeyModel::String(Seq::empty()), value: None, nodes0: None, nodes1: None };
            let r = inserts_spec(root, 0, ps);
            &&& r.2.len() == ps.len()
            &&& forall|i: int|
                0 <= i < ps.len() ==> find_at(r.0, 0, #[trigger] ps[i]) == Some((r.2[i], Seq::<(int, int)>::empty()))
        }),
{
    let root = NodeModel::<usize> { key: KeyModel::String(Seq::empty()), value: None, nodes0: None, nodes1: None };
    assert(wf(root)) by {
        assert(kids(root, false) =~= Seq::<NodeModel<usize>>::empty());
        assert(kids(root, true) =~= Seq::<NodeModel<usize>>::empty());
    }
    if ps.len() > 0 {
        lemma_literal_steps(root, 0, ps, ps[0][0]);
        let r = inserts_spec(root, 0, ps);
        assert forall|i: int| 0 <= i < ps.len() implies find_at(r.0, 0, #[trigger] ps[i]) == Some(
            (r.2[i], Seq::<(int, int)>::empty()),
        ) by {
            crate::keep::lemma_routes_find(r.0, ps[i], r.2[i]);
        }
    }
}


/// Literal insertions of paths that the tree routes nowhere yet, all
/// different: each gets the next id.
proof fn lemma_numbered_steps(m: NodeModel<usize>, n: nat, ps: Seq<Seq<u8>>, done: Seq<Seq<u8>>, c: u8)
    requires
        wf(m),
        crate::fresh::lits_only(m),
        m.key matches KeyModel::String(k) && (k.len() == 0 ==> m.value is None && kids(m, false).len() == 0)
            && (k.len() > 0 ==> k[0] == c),
        done.len() == n,
        n + ps.len() <= usize::MAX + 1,
        forall|x: Seq<u8>, v: usize| #[trigger] routes_to(m, x, v) ==> v < n && x == done[v as int],
        forall|i: int| 0 <= i < ps.len() ==> is_literal(#[trigger] ps[i]) && ps[i].len() > 0 && ps[i][0] == c,
        forall|i: int, j: int| 0 <= i < j < ps.len() ==> ps[i] != ps[j],
        forall|i: int, j: int| 0 <= i < done.len() && 0 <= j < ps.len() ==> done[i] != ps[j],
    ensures
        inserts_spec(m, n, ps).2.len() == ps.len(),
        forall|i: int| 0 <= i < ps.len() ==> #[trigger] inserts_spec(m, n, ps).2[i] == (n + i) as usize,
        wf(inserts_spec(m, n, ps).0),
        crate::fresh::lits_only(inserts_spec(m, n, ps).0),
        inserts_spec(m, n, ps).0.key matches KeyModel::String(k) && (k.len() == 0 ==> inserts_spec(m, n, ps).0.value is None
            && kids(inserts_spec(m, n, ps).0, false).len() == 0),
        forall|x: Seq<u8>, v: usize|
            #[trigger] routes_to(inserts_spec(m, n, ps).0, x, v) ==> v < n + ps.len() && x == (done + ps)[v as int],
    decreases ps.len(),
{
    if ps.len() == 0 {
        assert(done + ps =~= done);
    } else {
        let b = ps[0];
        assert(is_literal(b) && b.len() > 0 && b[0] == c);
        lemma_insert_literal(m, b);
        let (t, p) = insert_bytes_spec(m, b);
        lemma_insert_bytes_wf(m, b);
        crate::find_laws::lemma_bytes_walks(m, b);
        let target = at(t, p);
        if target.value is Some {
            let v = target.value->Some_0;
            crate::fresh::lemma_no_new_bytes(m, b, p, v, b);
            assert(routes_to(m, b, v));
            assert(done[v as int] != ps[0]);
            assert(false);
        }
        lemma_literal_step(m, n, b);
        let s = insert_route_spec(m, n, b);
        let dn = NodeModel { value: Some(n as usize), ..target };
        crate::fresh::lemma_insert_bytes_lits(m, b);
        crate::fresh::lemma_lits_at(t, p);
        assert(kids(dn, false) == kids(target, false) && kids(dn, true) == kids(target, true));
        assert(crate::fresh::lits_only(dn));
        crate::fresh::lemma_put_lits(t, p, dn);
        assert(s.0 == put(t, p, dn) && s.1 == n + 1 && s.2 == n as usize);
        let done2 = done.push(b);
        assert forall|x: Seq<u8>, v: usize| #[trigger] routes_to(s.0, x, v) implies v < n + 1 && x == done2[v as int] by {
            let q = choose|q: Seq<Step>| #[trigger] walks(s.0, x, q) && at(s.0, q).value == Some(v);
            crate::fresh::lemma_put_walks(t, p, dn, x, q);
            if q == p {
                crate::fresh::lemma_walk_unique(t, x, b, p);
            } else {
                assert(walks(t, x, q) && at(t, q).value == Some(v));
                crate::fresh::lemma_no_new_bytes(m, x, q, v, b);
            }
        }
        let rest = ps.drop_first();
        assert forall|i: int| 0 <= i < rest.len() implies is_literal(#[trigger] rest[i]) && rest[i].len() > 0
            && rest[i][0] == c by {
            assert(rest[i] == ps[i + 1]);
        }
        assert forall|i: int, j: int| 0 <= i < j < rest.len() implies rest[i] != rest[j] by {
            assert(rest[i] == ps[i + 1] && rest[j] == ps[j + 1]);
        }
        assert forall|i: int, j: int| 0 <= i < done2.len() && 0 <= j < rest.len() implies done2[i] != rest[j] by {
            assert(rest[j] == ps[j + 1]);
            if i < done.len() {
                assert(done2[i] == done[i]);
            } else {
                assert(done2[i] == ps[0]);
            }
        }
        lemma_numbered_steps(s.0, s.1, rest, done2, c);
        let r = inserts_spec(m, n, ps);
        let rr = inserts_spec(s.0, s.1, rest);
        assert(r.2 == seq![s.2] + rr.2);
        assert(done2 + rest =~= done + ps);
        assert forall|i: int| 0 <= i < ps.len() implies #[trigger] inserts_spec(m, n, ps).2[i] == (n + i) as usize by {
            if i > 0 {
                assert(r.2[i] == rr.2[i - 1]);
            }
        }
    }
}

/// On a new router, literal paths that all differ and all start with the
/// same byte, inserted one after the other, are numbered 0, 1, 2, ... in the
/// order of insertion, and each is matched to its own number, capturing
/// nothing.
pub proof fn law_literal_routes_numbered(ps: Seq<Seq<u8>>)
    requires
        ps.len() <= usize::MAX,
        forall|i: int| 0 <= i < ps.len() ==> is_literal(#[trigger] ps[i]) && ps[i].len() > 0 && ps[i][0] == ps[0][0],
        forall|i: int, j: int| 0 <= i < j < ps.len() ==> ps[i] != ps[j],
    ensures
        ({
            let root = NodeModel::<usize> { key: KeyModel::String(Seq::empty()), value: None, nodes0: None, nodes1: None };
            let r = inserts_spec(root, 0, ps);
            &&& r.2.len() == ps.len()
            &&& forall|i: int| 0 <= i < ps.len() ==> #[trigger] r.2[i] == i as usize
            &&& forall|i: int|
                0 <= i < ps.len() ==> find_at(r.0, 0, #[trigger] ps[i]) == Some((i as usize, Seq::<(int, int)>::empty()))
        }),
{
    let root = NodeModel::<usize> { key: KeyModel::String(Seq::empty()), value: None, nodes0: None, nodes1: None };
    law_literal_routes_found(ps);
    if ps.len() > 0 {
        assert(wf(root)) by {
            assert(kids(root, false) =~= Seq::<NodeModel<usize>>::empty());
            assert(kids(root, true) =~= Seq::<NodeModel<usize>>::empty());
        }
        assert(kids(root, false) =~= Seq::<NodeModel<usize>>::empty());
        assert forall|x: Seq<u8>, v: usize| #[trigger] routes_to(root, x, v) implies v < 0 && x == Seq::<Seq<u8>>::empty()[v as int] by {
            let q = choose|q: Seq<Step>| #[trigger] walks(root, x, q) && at(root, q).value == Some(v);
        }
        lemma_numbered_steps(root, 0, ps, Seq::empty(), ps[0][0]);
        let r = inserts_spec(root, 0, ps);
        assert forall|i: int| 0 <= i < ps.len() implies #[trigger] r.2[i] == i as usize by {
            assert(inserts_spec(root, 0, ps).2[i] == (0 + i) as usize);
        }
    }
}


/// On a new router, after literal paths that all differ and all start with
/// the same byte are inserted one after the other, a path is matched exactly
/// when it is one of them, to the number of its insertion and capturing
/// nothing; whichever order they came in, each path finds its own route.
pub proof fn law_literal_routes_exact(ps: Seq<Seq<u8>>, u: Seq<u8>)
    requires
        ps.len() <= usize::MAX,
        forall|i: int| 0 <= i < ps.len() ==> is_literal(#[trigger] ps[i]) && ps[i].len() > 0 && ps[i][0] == ps[0][0],
        forall|i: int, j: int| 0 <= i < j < ps.len() ==> ps[i] != ps[j],
    ensures
        ({
            let root = NodeModel::<usize> { key: KeyModel::String(Seq::empty()), value: None, nodes0: None, nodes1: None };
            let r = inserts_spec(root, 0, ps);
            match find_at(r.0, 0, u) {
                Some((v, p)) => v < ps.len() && ps[v as int] == u && p.len() == 0,
                None => forall|i: int| 0 <= i < ps.len() ==> ps[i] != u,
            }
        }),
{
    let root = NodeModel::<usize> { key: KeyModel::String(Seq::empty()), value: None, nodes0: None, nodes1: None };
    law_literal_routes_numbered(ps);
    let r = inserts_spec(root, 0, ps);
    if ps.len() == 0 {
        assert(r.0 == root);
        assert(kids(root, false).len() == 0 && kids(root, true).len() == 0);
        assert(find_at(root, 0, u) is None);
    } else {
        assert(wf(root)) by {
            assert(kids(root, false) =~= Seq::<NodeModel<usize>>::empty());
            assert(kids(root, true) =~= Seq::<NodeModel<usize>>::empty());
        }
        assert(kids(root, false) =~= Seq::<NodeModel<usize>>::empty());
        assert(kids(root, true) =~= Seq::<NodeModel<usize>>::empty());
        assert(crate::fresh::lits_only(root));
        assert forall|x: Seq<u8>, v: usize| #[trigger] routes_to(root, x, v) implies v < 0 && x == Seq::<Seq<u8>>::empty()[v as int] by {
            let q = choose|q: Seq<Step>| #[trigger] walks(root, x, q) && at(root, q).value == Some(v);
        }
        lemma_numbered_steps(root, 0, ps, Seq::empty(), ps[0][0]);
        assert(Seq::<Seq<u8>>::empty() + ps =~= ps);
        crate::fresh::lemma_find_lits(r.0, 0, u);
        if find_at(r.0, 0, u) is None {
            assert forall|i: int| 0 <= i < ps.len() implies ps[i] != u by {
                assert(find_at(r.0, 0, ps[i]) == Some((i as usize, Seq::<(int, int)>::empty())));
            }
        }
    }
}


/// The order of insertion does not change what is found: when `qs` holds the
/// same literal paths as `ps` (all different, all starting with the same
/// byte), a path is matched on the router built from `ps` exactly when it is
/// matched on the one built from `qs`, both times to the insertion of that
/// same path and capturing nothing.
pub proof fn law_literal_order(ps: Seq<Seq<u8>>, qs: Seq<Seq<u8>>, u: Seq<u8>)
    requires
        ps.len() <= usize::MAX,
        qs.len() <= usize::MAX,
        forall|i: int| 0 <= i < ps.len() ==> is_literal(#[trigger] ps[i]) && ps[i].len() > 0 && ps[i][0] == ps[0][0],
        forall|i: int| 0 <= i < qs.len() ==> is_literal(#[trigger] qs[i]) && qs[i].len() > 0 && qs[i][0] == qs[0][0],
        forall|i: int, j: int| 0 <= i < j < ps.len() ==> ps[i] != ps[j],
        forall|i: int, j: int| 0 <= i < j < qs.len() ==> qs[i] != qs[j],
        forall|x: Seq<u8>| ps.contains(x) <==> qs.contains(x),
    ensures
        ({
            let root = NodeModel::<usize> { key: KeyModel::String(Seq::empty()), value: None, nodes0: None, nodes1: None };
            let f1 = find_at(inserts_spec(root, 0, ps).0, 0, u);
            let f2 = find_at(inserts_spec(root, 0, qs).0, 0, u);
            &&& (f1 is Some <==> f2 is Some)
            &&& f1 matches Some((v, p)) ==> ps[v as int] == u && p.len() == 0
            &&& f2 matches Some((w, p)) ==> qs[w as int] == u && p.len() == 0
        }),
{
    law_literal_routes_exact(ps, u);
    law_literal_routes_exact(qs, u);
    let root = NodeModel::<usize> { key: KeyModel::String(Seq::empty()), value: None, nodes0: None, nodes1: None };
    let f1 = find_at(inserts_spec(root, 0, ps).0, 0, u);
    let f2 = find_at(inserts_spec(root, 0, qs).0, 0, u);
    if f1 is Some {
        let v = f1->Some_0.0;
        assert(ps.contains(u)) by {
            assert(ps[v as int] == u);
        }
        let j = choose|j: int| 0 <= j < qs.len() && qs[j] == u;
    }
    if f2 is Some {
        let w = f2->Some_0.0;
        assert(qs.contains(u)) by {
            assert(qs[w as int] == u);
        }
        let j = choose|j: int| 0 <= j < ps.len() && ps[j] == u;
    }
}


/// Literal insertions, repeats allowed, into a tree whose literal routes are
/// exactly the paths `done`, the `v`-th leading to `v`: each path is handed
/// back the number of its place in the list of different paths met so far
/// (`fin`), and a path met for the first time gets a number above all those
/// handed back before it.
proof fn lemma_id_steps(m: NodeModel<usize>, n: nat, ps: Seq<Seq<u8>>, done: Seq<Seq<u8>>, c: u8) -> (fin: Seq<Seq<u8>>)
    requires
        wf(m),
        m.key matches KeyModel::String(k) && (k.len() == 0 ==> m.value is None && kids(m, false).len() == 0)
            && (k.len() > 0 ==> k[0] == c),
        done.len() == n,
        n + ps.len() <= usize::MAX + 1,
        forall|i: int, j: int| 0 <= i < j < done.len() ==> done[i] != done[j],
        forall|x: Seq<u8>, v: usize| #[trigger] routes_to(m, x, v) ==> v < n && x == done[v as int],
        forall|v: int| 0 <= v < n ==> routes_to(m, #[trigger] done[v], v as usize),
        forall|i: int| 0 <= i < ps.len() ==> is_literal(#[trigger] ps[i]) && ps[i].len() > 0 && ps[i][0] == c,
    ensures
        ({
            let r = inserts_spec(m, n, ps);
            &&& r.2.len() == ps.len()
            &&& fin.len() >= n
            &&& fin.len() <= n + ps.len()
            &&& fin.take(n as int) == done
            &&& forall|i: int, j: int| 0 <= i < j < fin.len() ==> fin[i] != fin[j]
            &&& forall|i: int| 0 <= i < ps.len() ==> r.2[i] < fin.len() && fin[r.2[i] as int] == #[trigger] ps[i]
            &&& forall|i: int|
                0 <= i < ps.len() && (forall|v: int| 0 <= v < n ==> done[v] != ps[i]) && (forall|j: int|
                    0 <= j < i ==> ps[j] != ps[i]) ==> n <= #[trigger] r.2[i] && forall|j: int| 0 <= j < i ==> r.2[j] < r.2[i]
        }),
    decreases ps.len(),
{
    if ps.len() == 0 {
        assert(done.take(n as int) =~= done);
        done
    } else {
        let b = ps[0];
        assert(is_literal(b) && b.len() > 0 && b[0] == c);
        lemma_insert_literal(m, b);
        let (t, p) = insert_bytes_spec(m, b);
        lemma_insert_bytes_wf(m, b);
        crate::find_laws::lemma_bytes_walks(m, b);
        let target = at(t, p);
        let rest = ps.drop_first();
        assert forall|i: int| 0 <= i < rest.len() implies is_literal(#[trigger] rest[i]) && rest[i].len() > 0
            && rest[i][0] == c by {
            assert(rest[i] == ps[i + 1]);
        }
        let known = exists|v: int| 0 <= v < n && done[v] == b;
        let s = insert_route_spec(m, n, b);
        let (done2, n2) = if known {
            let v = choose|v: int| 0 <= v < n && done[v] == b;
            let q = choose|q: Seq<Step>| #[trigger] walks(m, b, q) && at(m, q).value == Some(v as usize);
            crate::keep::lemma_walk_insert_same(m, b, q);
            assert(s == (m, n, v as usize));
            (done, n)
        } else {
            if target.value is Some {
                let v = target.value->Some_0;
                crate::fresh::lemma_no_new_bytes(m, b, p, v, b);
                assert(routes_to(m, b, v));
                assert(done[v as int] == b);
                assert(false);
            }
            lemma_literal_step(m, n, b);
            let dn = NodeModel { value: Some(n as usize), ..target };
            assert(s.0 == put(t, p, dn) && s.1 == n + 1 && s.2 == n as usize);
            let done2 = done.push(b);
            assert forall|x: Seq<u8>, v: usize| #[trigger] routes_to(s.0, x, v) implies v < n + 1 && x == done2[v as int] by {
                let q = choose|q: Seq<Step>| #[trigger] walks(s.0, x, q) && at(s.0, q).value == Some(v);
                crate::fresh::lemma_put_walks(t, p, dn, x, q);
                if q == p {
                    crate::fresh::lemma_walk_unique(t, x, b, p);
                } else {
                    assert(walks(t, x, q) && at(t, q).value == Some(v));
                    crate::fresh::lemma_no_new_bytes(m, x, q, v, b);
                }
            }
            assert forall|v: int| 0 <= v < n + 1 implies routes_to(s.0, #[trigger] done2[v], v as usize) by {
                if v < n {
                    assert(done2[v] == done[v]);
                    assert(routes_to(m, done[v], v as usize));
                }
            }
            assert forall|i: int, j: int| 0 <= i < j < done2.len() implies done2[i] != done2[j] by {
                if j == n {
                    assert(done2[i] == done[i]);
                }
            }
            (done2, n + 1)
        };
        assert(s.1 == n2);
        let fin = lemma_id_steps(s.0, n2, rest, done2, c);
        let r = inserts_spec(m, n, ps);
        let rr = inserts_spec(s.0, s.1, rest);
        assert(r.2 == seq![s.2] + rr.2);
        assert(fin.take(n as int) =~= done) by {
            assert(done2.take(n as int) =~= done);
            assert(fin.take(n2 as int) == done2);
            assert forall|x: int| 0 <= x < n implies fin.take(n as int)[x] == done[x] by {
                assert(fin.take(n2 as int)[x] == done2[x]);
            }
        }
        assert(fin.take(n2 as int)[s.2 as int] == done2[s.2 as int]);
        assert forall|i: int| 0 <= i < ps.len() implies r.2[i] < fin.len() && fin[r.2[i] as int] == #[trigger] ps[i] by {
            if i > 0 {
                assert(ps[i] == rest[i - 1]);
                assert(r.2[i] == rr.2[i - 1]);
            }
        }
        assert forall|i: int|
            0 <= i < ps.len() && (forall|v: int| 0 <= v < n ==> done[v] != ps[i]) && (forall|j: int|
                0 <= j < i ==> ps[j] != ps[i]) implies n <= #[trigger] r.2[i] && forall|j: int|
                0 <= j < i ==> r.2[j] < r.2[i] by {
            if i > 0 {
                assert(ps[i] == rest[i - 1]);
                assert(r.2[i] == rr.2[i - 1]);
                assert(ps[0] != ps[i]);
                assert forall|v: int| 0 <= v < n2 implies done2[v] != rest[i - 1] by {
                    if v >= n {
                        assert(done2[v] == b);
                    } else {
                        assert(done2[v] == done[v]);
                    }
                }
                assert forall|j: int| 0 <= j < i - 1 implies #[trigger] rest[j] != rest[i - 1] by {
                    assert(rest[j] == ps[j + 1]);
                }
                assert forall|j: int| 0 <= j < i implies r.2[j] < r.2[i] by {
                    if j > 0 {
                        assert(r.2[j] == rr.2[j - 1]);
                    }
                }
            } else {
                assert(!known);
            }
        }
        fin
    }
}

/// On a new router, literal paths that all start with the same byte,
/// inserted one after the other, repeats allowed: two insertions hand back
/// the same id exactly when their paths are the same, a path met for the
/// first time gets an id above all the ids handed back before it, and each
/// path is matched to its id, capturing nothing.
pub proof fn law_literal_ids(ps: Seq<Seq<u8>>)
    requires
        ps.len() <= usize::MAX,
        forall|i: int| 0 <= i < ps.len() ==> is_literal(#[trigger] ps[i]) && ps[i].len() > 0 && ps[i][0] == ps[0][0],
    ensures
        ({
            let root = NodeModel::<usize> { key: KeyModel::String(Seq::empty()), value: None, nodes0: None, nodes1: None };
            let r = inserts_spec(root, 0, ps);
            &&& r.2.len() == ps.len()
            &&& forall|i: int, j: int|
                0 <= i < ps.len() && 0 <= j < ps.len() ==> (#[trigger] r.2[i] == #[trigger] r.2[j] <==> ps[i] == ps[j])
            &&& forall|i: int|
                0 <= i < ps.len() && (forall|j: int| 0 <= j < i ==> ps[j] != ps[i]) ==> forall|j: int|
                    0 <= j < i ==> r.2[j] < #[trigger] r.2[i]
            &&& forall|i: int|
                0 <= i < ps.len() ==> find_at(r.0, 0, #[trigger] ps[i]) == Some((r.2[i], Seq::<(int, int)>::empty()))
        }),
{
    let root = NodeModel::<usize> { key: KeyModel::String(Seq::empty()), value: None, nodes0: None, nodes1: None };
    law_literal_routes_found(ps);
    if ps.len() > 0 {
        assert(wf(root)) by {
            assert(kids(root, false) =~= Seq::<NodeModel<usize>>::empty());
            assert(kids(root, true) =~= Seq::<NodeModel<usize>>::empty());
        }
        assert(kids(root, false) =~= Seq::<NodeModel<usize>>::empty());
        assert forall|x: Seq<u8>, v: usize| #[trigger] routes_to(root, x, v) implies v < 0 && x == Seq::<Seq<u8>>::empty()[v as int] by {
            let q = choose|q: Seq<Step>| #[trigger] walks(root, x, q) && at(root, q).value == Some(v);
        }
        let fin = lemma_id_steps(root, 0, ps, Seq::empty(), ps[0][0]);
        let r = inserts_spec(root, 0, ps);
        assert forall|i: int, j: int|
            0 <= i < ps.len() && 0 <= j < ps.len() implies (#[trigger] r.2[i] == #[trigger] r.2[j] <==> ps[i] == ps[j]) by {
            assert(fin[r.2[i] as int] == ps[i]);
            assert(fin[r.2[j] as int] == ps[j]);
            if ps[i] == ps[j] && r.2[i] != r.2[j] {
                if r.2[i] < r.2[j] {
                    assert(fin[r.2[i] as int] != fin[r.2[j] as int]);
                } else {
                    assert(fin[r.2[j] as int] != fin[r.2[i] as int]);
                }
            }
        }
    }
}


/// The literal bytes of `pieces`, one after the other, parameters left out.
pub open spec fn literal_text(pieces: Seq<PieceView>) -> Seq<u8>
    decreases pieces.len(),
{
    if pieces.len() == 0 {
        Seq::empty()
    } else {
        (match pieces[0] {
            PieceView::String(s) => s,
            PieceView::Parameter(_, _) => Seq::empty(),
        }) + literal_text(pieces.drop_first())
    }
}

/// A URL starts with the bytes of a literal first piece, exactly as they
/// stand in the piece (nothing escaped), followed by the URL of the rest with
/// the same values.
pub proof fn law_url_literal_first(s: Seq<u8>, rest: Seq<PieceView>, params: Seq<Seq<u8>>)
    ensures
        url_bytes(seq![PieceView::String(s)] + rest, params) == s + url_bytes(rest, params),
{
    let ps = seq![PieceView::String(s)] + rest;
    assert(ps[0] == PieceView::String(s));
    assert(ps.drop_first() =~= rest);
}

/// The URL of a route whose pieces are all literal is those pieces' bytes
/// one after the other, whatever the values given.
pub proof fn law_url_all_literal(pieces: Seq<PieceView>, params: Seq<Seq<u8>>)
    requires
        forall|j: int| 0 <= j < pieces.len() ==> #[trigger] pieces[j] is String,
    ensures
        url_bytes(pieces, params) == literal_text(pieces),
    decreases pieces.len(),
{
    if pieces.len() > 0 {
        let rest = pieces.drop_first();
        assert forall|j: int| 0 <= j < rest.len() implies #[trigger] rest[j] is String by {
            assert(rest[j] == pieces[j + 1]);
        }
        assert(pieces[0] is String);
        law_url_all_literal(rest, params);
    }
}

/// The URL of a literal route is its pattern itself.
pub proof fn law_url_literal_route(b: Seq<u8>, params: Seq<Seq<u8>>)
    requires
        is_literal(b),
    ensures
        url_bytes(parse_pattern(b), params) == b,
{
    let e = Seq::<PieceView>::empty();
    law_url_literal_first(b, e, params);
    assert(seq![PieceView::String(b)] + e =~= parse_pattern(b));
    assert(url_bytes(e, params) == Seq::<u8>::empty());
    assert(b + Seq::<u8>::empty() =~= b);
}

/// The values that the parameters of `pieces` take from `params`: one each,
/// as long as there are values.
pub open spec fn values_used(pieces: Seq<PieceView>, params: Seq<Seq<u8>>) -> nat {
    if param_pieces(pieces) < params.len() {
        param_pieces(pieces)
    } else {
        params.len()
    }
}

/// A URL is built piece by piece: the URL of two runs of pieces is the URL
/// of the first, then the URL of the second with the values that the first
/// did not take.
pub proof fn law_url_concat(ps1: Seq<PieceView>, ps2: Seq<PieceView>, params: Seq<Seq<u8>>)
    ensures
        url_bytes(ps1 + ps2, params) == url_bytes(ps1, params) + url_bytes(ps2, params.skip(values_used(ps1, params) as int)),
    decreases ps1.len(),
{
    if ps1.len() == 0 {
        assert(ps1 + ps2 =~= ps2);
        assert(params.skip(0) =~= params);
        assert(param_pieces(ps1) == 0);
    } else {
        let rest = ps1.drop_first();
        assert((ps1 + ps2)[0] == ps1[0]);
        assert((ps1 + ps2).drop_first() =~= rest + ps2);
        match ps1[0] {
            PieceView::String(s) => {
                law_url_concat(rest, ps2, params);
                assert(param_pieces(ps1) == param_pieces(rest));
            },
            PieceView::Parameter(_, _) => {
                assert(param_pieces(ps1) == 1 + param_pieces(rest));
                if params.len() > 0 {
                    law_url_concat(rest, ps2, params.drop_first());
                    assert(params.drop_first().skip(values_used(rest, params.drop_first()) as int) =~= params.skip(
                        values_used(ps1, params) as int,
                    ));
                } else {
                    law_url_concat(rest, ps2, params);
                }
            },
        }
    }
}


/// A parameter piece takes the next value, when there is one, and gives
/// nothing once the values have run out.
pub proof fn law_url_param_first(pos: PositionView, k: Kind, rest: Seq<PieceView>, params: Seq<Seq<u8>>)
    ensures
        url_bytes(seq![PieceView::Parameter(pos, k)] + rest, params) == if params.len() > 0 {
            params[0] + url_bytes(rest, params.drop_first())
        } else {
            url_bytes(rest, params)
        },
{
    let ps = seq![PieceView::Parameter(pos, k)] + rest;
    assert(ps[0] == PieceView::Parameter(pos, k));
    assert(ps.drop_first() =~= rest);
}

} // verus!
