//! The router: patterns with the values they route to, and the tree that
//! matches paths against them.
use vstd::prelude::*;
use vstd::string::StringSliceAdditionalSpecFns;
use vstd::utf8::{decode_utf8, valid_utf8};

use crate::node::{
    at, insert_bytes_spec, kids, insert_param_spec, put, wf, Key, KeyModel, Node, NodeModel, Step,
};
use crate::find::{find_at, height_within, max_height, Found};
use crate::parser::{parse_pattern, pieces_view, Parser, Piece, PieceView};
use crate::small::{ranges_of, raws_of, Ranges, Raws};
use crate::path::Path;
use crate::text::{str_from_utf8, string_from_utf8_lossy, utf8_lossy};
use crate::bytes::append_bytes;
use crate::cloning::{copy_node, copy_pieces, lemma_copy_same};
use crate::find_laws::{law_insert_then_find, takes, walks};
use crate::keep::{lemma_keep_put, routes_to};
use crate::tree_laws::{
    lemma_at_key, lemma_insert_bytes_values, lemma_insert_bytes_wf, lemma_insert_param_values,
    lemma_insert_param_wf, lemma_put_put, lemma_put_same, lemma_put_values, lemma_put_wf,
    lemma_same_place_rekeep, lemma_valid_concat, lemma_values_at, lemma_values_mono, lemma_values_rekey,
    lemma_wf_at, lemma_wf_rekey, valid_path, values_below,
};

verus! {

/// Inserting the pieces of a pattern, one after the other, each at the node
/// that the one before handed back (starting at `path` in `m`): the tree
/// after the last piece, and the path to the node that ends the pattern.
pub open spec fn insert_pieces_spec(m: NodeModel<usize>, path: Seq<Step>, pieces: Seq<PieceView>) -> (
    NodeModel<usize>,
    Seq<Step>,
)
    decreases pieces.len(),
{
    if pieces.len() == 0 {
        (m, path)
    } else {
        let cur = at(m, path);
        let r = match pieces[0] {
            PieceView::String(b) => insert_bytes_spec(cur, b),
            PieceView::Parameter(_, k) => {
                let (mid, i) = insert_param_spec(cur, k);
                (mid, seq![Step { params: true, index: i }])
            },
        };
        insert_pieces_spec(put(m, path, r.0), path + r.1, pieces.drop_first())
    }
}

/// A pattern made of one literal piece: the path itself, with nothing that
/// opens a parameter or escapes a byte.
pub open spec fn is_literal(b: Seq<u8>) -> bool {
    parse_pattern(b) == seq![PieceView::String(b)]
}

/// Each range that a match captured covers whole characters of `b`.
pub open spec fn captures_text<T>(b: Seq<u8>, f: Found<T>) -> bool {
    match f {
        Some((_, p)) => forall|i: int|
            #![trigger p[i]]
            0 <= i < p.len() ==> valid_utf8(b.subrange(p[i].0, p[i].1)),
        None => true,
    }
}

/// Each range in `p` lies within `b` and covers whole characters of it.
pub open spec fn ranges_text(b: Seq<u8>, p: Seq<(int, int)>) -> bool {
    forall|i: int|
        #![trigger p[i]]
        0 <= i < p.len() ==> 0 <= p[i].0 <= p[i].1 <= b.len() && valid_utf8(b.subrange(p[i].0, p[i].1))
}

/// The text of the ranges captured in `b`, the range recorded last first.
pub open spec fn captured(b: Seq<u8>, p: Seq<(int, int)>) -> Seq<Seq<char>> {
    Seq::new(p.len(), |i: int| decode_utf8(b.subrange(p[p.len() - 1 - i].0, p[p.len() - 1 - i].1)))
}

/// The bytes of a URL built from `pieces`: each literal as it is, each
/// parameter replaced by the next of `params`, or by nothing once they have
/// run out.
pub open spec fn url_bytes(pieces: Seq<PieceView>, params: Seq<Seq<u8>>) -> Seq<u8>
    decreases pieces.len(),
{
    if pieces.len() == 0 {
        Seq::empty()
    } else {
        match pieces[0] {
            PieceView::String(s) => s + url_bytes(pieces.drop_first(), params),
            PieceView::Parameter(_, _) => if params.len() > 0 {
                params[0] + url_bytes(pieces.drop_first(), params.drop_first())
            } else {
                url_bytes(pieces.drop_first(), params)
            },
        }
    }
}

/// The bytes of each text in `params`.
pub open spec fn texts_bytes(params: Seq<&str>) -> Seq<Seq<u8>> {
    params.map_values(|s: &str| s.spec_bytes())
}

/// A router from path patterns to values of type `T`.
pub struct PathTree<T> {
    id: usize,
    routes: Vec<(T, Vec<Piece>)>,
    pub node: Node<usize>,
}

impl<T> Default for PathTree<T> {
    /// An empty router.
    fn default() -> (t: Self)
        ensures
            t.wf(),
            t.count() == 0,
            height_within(t.tree(), 1),
            t.routes() == Seq::<(T, Seq<PieceView>)>::empty(),
            t.tree() == (NodeModel::<usize> {
                key: KeyModel::String(Seq::empty()),
                value: None,
                nodes0: None,
                nodes1: None,
            }),
    {
        Self::new()
    }
}

impl<T: Clone> Clone for PathTree<T> {
    /// A copy of the router: the same tree and patterns, each value cloned.
    fn clone(&self) -> (c: Self)
        ensures
            c.count() == self.count(),
            c.tree() == self.tree(),
            c.routes().len() == self.routes().len(),
            forall|i: int|
                0 <= i < self.routes().len() ==> cloned(self.routes()[i].0, #[trigger] c.routes()[i].0)
                    && c.routes()[i].1 == self.routes()[i].1,
            self.wf() ==> c.wf(),
    {
        let node = copy_node(&self.node);
        proof {
            lemma_copy_same(self.node@, node@);
        }
        let mut routes: Vec<(T, Vec<Piece>)> = Vec::new();
        let mut i: usize = 0;
        while i < self.routes.len()
            invariant
                i <= self.routes@.len(),
                routes@.len() == i,
                forall|j: int|
                    0 <= j < i ==> cloned(self.routes@[j].0, #[trigger] routes@[j].0)
                        && pieces_view(routes@[j].1@) == pieces_view(self.routes@[j].1@),
            decreases self.routes@.len() - i,
        {
            let route = &self.routes[i];
            routes.push((route.0.clone(), copy_pieces(&route.1)));
            i = i + 1;
        }
        let c = PathTree { id: self.id, routes, node };
        proof {
            assert forall|j: int| 0 <= j < self.routes().len() implies cloned(self.routes()[j].0, #[trigger] c.routes()[j].0)
                && c.routes()[j].1 == self.routes()[j].1 by {
                assert(cloned(self.routes@[j].0, routes@[j].0));
            }
        }
        c
    }
}

/// The text of each range in `ranges`, the range recorded last first, or
/// `None` when some range does not cover whole characters.
fn texts_checked<'b>(bytes: &'b [u8], ranges: &Ranges, Ghost(p): Ghost<Seq<(int, int)>>) -> (raws: Option<Raws<'b>>)
    requires
        crate::find::as_ints(ranges_of(*ranges)) == p,
        ranges_of(*ranges).len() <= max_height(),
        forall|i: int| #![trigger p[i]] 0 <= i < p.len() ==> 0 <= p[i].0 <= p[i].1 <= bytes@.len(),
    ensures
        raws is Some <==> ranges_text(bytes@, p),
        raws matches Some(r) ==> raws_of(r) == captured(bytes@, p),
{
    let n = ranges.len();
    let mut raws = Raws::new();
    let mut j: usize = 0;
    while j < n
        invariant
            n == p.len(),
            crate::find::as_ints(ranges_of(*ranges)) == p,
            n <= max_height(),
            j <= n,
            forall|i: int| #![trigger p[i]] 0 <= i < p.len() ==> 0 <= p[i].0 <= p[i].1 <= bytes@.len(),
            forall|i: int| #![trigger p[i]] n - j <= i < n ==> valid_utf8(bytes@.subrange(p[i].0, p[i].1)),
            raws_of(raws) == captured(bytes@, p).take(j as int),
        decreases n - j,
    {
        let (a, b) = ranges.get(n - 1 - j);
        proof {
            let k = n - 1 - j;
            assert(crate::find::as_ints(ranges_of(*ranges))[k as int] == (a as int, b as int));
            assert(p[k as int] == (a as int, b as int));
        }
        match str_from_utf8(vstd::slice::slice_subrange(bytes, a, b)) {
            Some(s) => {
                proof {
                    vstd::utf8::encode_utf8_decode_utf8(s@);
                    assert(captured(bytes@, p).take(j + 1) =~= captured(bytes@, p).take(j as int).push(s@));
                }
                raws.push(s);
            },
            None => {
                proof {
                    let k = (n - 1 - j) as int;
                    assert(!valid_utf8(bytes@.subrange(p[k].0, p[k].1)));
                }
                return None;
            },
        }
        j = j + 1;
    }
    proof {
        assert(captured(bytes@, p).take(n as int) =~= captured(bytes@, p));
    }
    Some(raws)
}

/// The text of each range in `ranges`, the range recorded last first.
fn texts_of<'b>(bytes: &'b [u8], ranges: &Ranges, Ghost(p): Ghost<Seq<(int, int)>>) -> (raws: Raws<'b>)
    requires
        crate::find::as_ints(ranges_of(*ranges)) == p,
        ranges_of(*ranges).len() <= max_height(),
        ranges_text(bytes@, p),
    ensures
        raws_of(raws) == captured(bytes@, p),
{
    let n = ranges.len();
    let mut raws = Raws::new();
    let mut j: usize = 0;
    while j < n
        invariant
            n == p.len(),
            crate::find::as_ints(ranges_of(*ranges)) == p,
            n <= max_height(),
            j <= n,
            ranges_text(bytes@, p),
            raws_of(raws) == captured(bytes@, p).take(j as int),
        decreases n - j,
    {
        let (a, b) = ranges.get(n - 1 - j);
        proof {
            let k = n - 1 - j;
            assert(crate::find::as_ints(ranges_of(*ranges))[k as int] == (a as int, b as int));
            assert(p[k as int] == (a as int, b as int));
            assert(valid_utf8(bytes@.subrange(a as int, b as int)));
        }
        let s = str_from_utf8(vstd::slice::slice_subrange(bytes, a, b)).unwrap();
        proof {
            vstd::utf8::encode_utf8_decode_utf8(s@);
            assert(captured(bytes@, p).take(j + 1) =~= captured(bytes@, p).take(j as int).push(s@));
        }
        raws.push(s);
        j = j + 1;
    }
    proof {
        assert(captured(bytes@, p).take(n as int) =~= captured(bytes@, p));
    }
    raws
}

impl<T> PathTree<T> {
    /// The number of distinct patterns inserted, which is the next id.
    pub closed spec fn count(&self) -> nat {
        self.id as nat
    }

    /// The routes by id: the value and the pieces of the pattern.
    pub closed spec fn routes(&self) -> Seq<(T, Seq<PieceView>)> {
        self.routes@.map_values(|r: (T, Vec<Piece>)| (r.0, pieces_view(r.1@)))
    }

    /// The model of the tree.
    pub closed spec fn tree(&self) -> NodeModel<usize> {
        self.node@
    }

    /// The tree holds one route per id, and every id in the tree has a route.
    pub closed spec fn wf(&self) -> bool {
        &&& self.routes@.len() == self.id
        &&& wf(self.node@)
        &&& values_below(self.node@, self.id as nat)
        &&& crate::shape::shaped(self.node@, self.routes())
    }

    /// An empty router.
    pub fn new() -> (t: Self)
        ensures
            t.wf(),
            t.count() == 0,
            height_within(t.tree(), 1),
            t.routes() == Seq::<(T, Seq<PieceView>)>::empty(),
            t.tree() == (NodeModel::<usize> {
                key: KeyModel::String(Seq::empty()),
                value: None,
                nodes0: None,
                nodes1: None,
            }),
    {
        let t = PathTree { id: 0, routes: Vec::new(), node: Node::new(Key::String(Vec::new()), None) };
        proof {
            assert(t.routes() =~= Seq::<(T, Seq<PieceView>)>::empty());
            assert(wf(t.node@));
            assert(values_below(t.node@, 0));
            crate::height::lemma_height_leaf::<usize>(KeyModel::String(Seq::empty()));
        }
        t
    }

    /// The route with this id: its value and its pattern's pieces.
    #[inline]
    pub fn get_route(&self, index: usize) -> (r: Option<&(T, Vec<Piece>)>)
        ensures
            index < self.routes().len() ==> (r matches Some(x) && x.0 == self.routes()[index as int].0
                && pieces_view(x.1@) == self.routes()[index as int].1),
            index >= self.routes().len() ==> r is None,
    {
        if index < self.routes.len() {
            Some(&self.routes[index])
        } else {
            None
        }
    }

    /// The routes are numbered by the ids given so far.
    pub proof fn lemma_wf_routes(&self)
        requires
            self.wf(),
        ensures
            self.routes().len() == self.count(),
    {
    }

    /// A match records one range for each parameter of the route it finds.
    pub proof fn lemma_captures_count(&self, b: Seq<u8>)
        requires
            self.wf(),
        ensures
            find_at(self.tree(), 0, b) matches Some((id, p)) ==> id < self.routes().len() && p.len()
                == crate::shape::param_pieces(self.routes()[id as int].1),
    {
        crate::find_path::law_find_ranges_count(self.tree(), 0, b);
        if find_at(self.tree(), 0, b) is Some {
            let id = find_at(self.tree(), 0, b)->Some_0.0;
            let rs = find_at(self.tree(), 0, b)->Some_0.1;
            let q = choose|q: Seq<Step>|
                #[trigger] valid_path(self.tree(), q) && at(self.tree(), q).value == Some(id) && rs.len()
                    == crate::find_path::param_nodes(self.tree(), q);
            crate::shape::lemma_nodes_steps(self.tree(), q);
            assert(valid_path(self.node@, q) && at(self.node@, q).value is Some);
        }
    }

    /// Matches `path`: the route of the value that the tree reaches, with the
    /// text of each parameter. Every id in the tree has a route, so a match
    /// always gives one, with one text for each parameter of its pattern.
    pub fn find<'a, 'b>(&'a self, path: &'b str) -> (r: Option<Path<'a, 'b, T>>)
        requires
            self.wf(),
            height_within(self.tree(), max_height()),
            captures_text(path.spec_bytes(), find_at(self.tree(), 0, path.spec_bytes())),
        ensures
            match find_at(self.tree(), 0, path.spec_bytes()) {
                Some((id, p)) => {
                    &&& id < self.routes().len()
                    &&& r matches Some(x)
                    &&& *x.id == id
                    &&& *x.value == self.routes()[id as int].0
                    &&& pieces_view(x.pieces@) == self.routes()[id as int].1
                    &&& raws_of(x.raws) == captured(path.spec_bytes(), p)
                },
                None => r is None,
            },
            r matches Some(x) ==> raws_of(x.raws).len() == crate::shape::param_pieces(pieces_view(x.pieces@)),
    {
        let bytes = path.as_bytes();
        proof {
            self.lemma_captures_count(bytes@);
            crate::find_laws::lemma_find_below(self.node@, 0, bytes@, self.id as nat);
            crate::find_laws::lemma_find_within(self.node@, 0, bytes@);
        }
        match self.node.find(bytes) {
            Some((id, ranges)) => {
                let ghost p = find_at(self.tree(), 0, bytes@)->Some_0.1;
                match self.get_route(*id) {
                    Some(route) => {
                        let raws = texts_of(bytes, &ranges, Ghost(p));
                        Some(Path { id, value: &route.0, pieces: route.1.as_slice(), raws })
                    },
                    None => None,
                }
            },
            None => None,
        }
    }

    /// Matches `path` as [`PathTree::find`] does, but gives `None` where a
    /// captured range does not cover whole characters of `path` (where
    /// `find` has no text to give).
    pub fn find_text<'a, 'b>(&'a self, path: &'b str) -> (r: Option<Path<'a, 'b, T>>)
        requires
            self.wf(),
            height_within(self.tree(), max_height()),
        ensures
            match find_at(self.tree(), 0, path.spec_bytes()) {
                Some((id, p)) => if captures_text(path.spec_bytes(), find_at(self.tree(), 0, path.spec_bytes())) {
                    &&& id < self.routes().len()
                    &&& r matches Some(x)
                    &&& *x.id == id
                    &&& *x.value == self.routes()[id as int].0
                    &&& pieces_view(x.pieces@) == self.routes()[id as int].1
                    &&& raws_of(x.raws) == captured(path.spec_bytes(), p)
                } else {
                    r is None
                },
                None => r is None,
            },
            r matches Some(x) ==> raws_of(x.raws).len() == crate::shape::param_pieces(pieces_view(x.pieces@)),
    {
        let bytes = path.as_bytes();
        proof {
            self.lemma_captures_count(bytes@);
            crate::find_laws::lemma_find_below(self.node@, 0, bytes@, self.id as nat);
            crate::find_laws::lemma_find_within(self.node@, 0, bytes@);
        }
        match self.node.find(bytes) {
            Some((id, ranges)) => {
                let ghost p = find_at(self.tree(), 0, bytes@)->Some_0.1;
                match self.get_route(*id) {
                    Some(route) => {
                        match texts_checked(bytes, &ranges, Ghost(p)) {
                            Some(raws) => Some(Path { id, value: &route.0, pieces: route.1.as_slice(), raws }),
                            None => None,
                        }
                    },
                    None => None,
                }
            },
            None => None,
        }
    }

    /// The URL of the route with this id, its parameters filled in from
    /// `params` in order; `None` when there is no such route.
    pub fn url_for(&self, index: usize, params: &[&str]) -> (r: Option<String>)
        ensures
            index < self.routes().len() ==> (r matches Some(s) && s@ == utf8_lossy(
                url_bytes(self.routes()[index as int].1, texts_bytes(params@)),
            ) && (valid_utf8(url_bytes(self.routes()[index as int].1, texts_bytes(params@))) ==> s@
                == decode_utf8(url_bytes(self.routes()[index as int].1, texts_bytes(params@))))),
            index >= self.routes().len() ==> r is None,
    {
        match self.get_route(index) {
            Some(route) => {
                let pieces = &route.1;
                let ghost ps = pieces_view(pieces@);
                let ghost all = texts_bytes(params@);
                let mut bytes: Vec<u8> = Vec::new();
                let mut i: usize = 0;
                let mut k: usize = 0;
                proof {
                    assert(ps.skip(0) =~= ps);
                    assert(all.skip(0) =~= all);
                }
                while i < pieces.len()
                    invariant
                        i <= pieces@.len(),
                        k <= params@.len(),
                        ps == pieces_view(pieces@),
                        all == texts_bytes(params@),
                        bytes@ + url_bytes(ps.skip(i as int), all.skip(k as int)) == url_bytes(ps, all),
                    decreases pieces@.len() - i,
                {
                    let ghost before = bytes@;
                    proof {
                        assert(ps.skip(i as int)[0] == pieces@[i as int]@);
                        assert(ps.skip(i as int).drop_first() =~= ps.skip(i as int + 1));
                    }
                    match &pieces[i] {
                        Piece::String(s) => {
                            append_bytes(&mut bytes, s.as_slice());
                            proof {
                                assert(before + (s@ + url_bytes(ps.skip(i as int + 1), all.skip(k as int)))
                                    =~= bytes@ + url_bytes(ps.skip(i as int + 1), all.skip(k as int)));
                            }
                        },
                        Piece::Parameter(_, _) => {
                            if k < params.len() {
                                let p: &str = params[k];
                                append_bytes(&mut bytes, p.as_bytes());
                                proof {
                                    assert(all.skip(k as int)[0] == p.spec_bytes());
                                    assert(all.skip(k as int).drop_first() =~= all.skip(k as int + 1));
                                    assert(before + (p.spec_bytes() + url_bytes(ps.skip(i as int + 1), all.skip(k as int + 1)))
                                        =~= bytes@ + url_bytes(ps.skip(i as int + 1), all.skip(k as int + 1)));
                                }
                                k = k + 1;
                            }
                        },
                    }
                    i = i + 1;
                }
                proof {
                    assert(bytes@ + url_bytes(ps.skip(i as int), all.skip(k as int)) =~= bytes@);
                }
                Some(string_from_utf8_lossy(bytes.as_slice()))
            },
            None => None,
        }
    }

    /// Inserts a pattern that routes to `value` and gives its id. A pattern
    /// whose node in the tree already has an id keeps that id and gets the
    /// new value and pieces; any other pattern gets the next id. The empty
    /// pattern stands for the root: where the root has an id, it gets that id
    /// and only the value changes; otherwise nothing changes and the next id
    /// is given back, with no route behind it.
    ///
    /// Besides, inserting keeps the tree well formed and deepens it by at
    /// most one level per piece; every literal path that led to a value
    /// still leads to it; a literal path is matched afterwards to its id,
    /// capturing nothing; and a literal path that already led somewhere
    /// keeps the tree as it was and gets that id back.
    #[verifier::rlimit(40)]
    #[verifier::spinoff_prover]
    pub fn insert(&mut self, path: &str, value: T) -> (id: usize)
        requires
            old(self).wf(),
        ensures
            final(self).wf(),
            final(self).routes().len() == final(self).count(),
            path@.len() > 0 || old(self).tree().value is Some ==> id < final(self).routes().len()
                && final(self).routes()[id as int].0 == value,
            path@.len() > 0 ==> final(self).routes()[id as int].1 == parse_pattern(path.spec_bytes()),
            path@.len() > 0 ==> crate::router_laws::insert_route_spec(old(self).tree(), old(self).count(), path.spec_bytes())
                == (final(self).tree(), final(self).count(), id),
            parse_pattern(path.spec_bytes()).len() <= path.spec_bytes().len(),
            forall|h: nat|
                #[trigger] height_within(old(self).tree(), h) ==> height_within(
                    final(self).tree(),
                    h + parse_pattern(path.spec_bytes()).len(),
                ),
            forall|b: Seq<u8>, v: usize|
                #[trigger] routes_to(old(self).tree(), b, v) ==> routes_to(final(self).tree(), b, v),
            forall|v: usize|
                #[trigger] routes_to(old(self).tree(), path.spec_bytes(), v) && is_literal(path.spec_bytes()) ==> id
                    == v && final(self).tree() == old(self).tree(),
            is_literal(path.spec_bytes()) && takes(old(self).tree(), path.spec_bytes()) ==> routes_to(
                final(self).tree(),
                path.spec_bytes(),
                id,
            ),
            is_literal(path.spec_bytes()) && takes(old(self).tree(), path.spec_bytes()) ==> find_at(
                final(self).tree(),
                0,
                path.spec_bytes(),
            ) == Some((id, Seq::<(int, int)>::empty())),
            ({
                let pieces = parse_pattern(path.spec_bytes());
                let (t, p) = insert_pieces_spec(old(self).tree(), Seq::empty(), pieces);
                let target = at(t, p);
                match target.value {
                    Some(old_id) => {
                        &&& id == old_id
                        &&& old_id < old(self).routes().len()
                        &&& final(self).count() == old(self).count()
                        &&& final(self).routes() == old(self).routes().update(
                            old_id as int,
                            (value, if path@.len() == 0 {
                                old(self).routes()[old_id as int].1
                            } else {
                                pieces
                            }),
                        )
                        &&& final(self).tree() == t
                    },
                    None => if path@.len() == 0 {
                        &&& id == old(self).count()
                        &&& final(self).count() == old(self).count()
                        &&& final(self).routes() == old(self).routes()
                        &&& final(self).tree() == old(self).tree()
                    } else {
                        &&& id == old(self).count()
                        &&& final(self).count() == old(self).count() + 1
                        &&& final(self).routes() == old(self).routes().push((value, pieces))
                        &&& final(self).tree() == put(t, p, NodeModel { value: Some(id), ..target })
                    },
                }
            }),
    {
        let pieces = Parser::new(path).collect_pieces();
        let ghost pv = pieces_view(pieces@);
        proof {
            crate::parser::lemma_parse_literals(path.spec_bytes(), 0, 0);
        }
        let mut root = Node::new(Key::String(Vec::new()), None);
        core::mem::swap(&mut root, &mut self.node);
        let ghost m0 = root@;
        let ghost count = self.id as nat;
        let ghost mut tm = m0;
        let ghost mut tp = Seq::<Step>::empty();
        let mut node = &mut root;
        let mut i: usize = 0;
        assert(pv.skip(0) =~= pv);
        while i < pieces.len()
            invariant
                i <= pieces@.len(),
                pv == pieces_view(pieces@),
                pv == parse_pattern(path.spec_bytes()),
                forall|j: int|
                    0 <= j < pv.len() ==> (#[trigger] pv[j] matches PieceView::String(lit) ==> lit.len() > 0),
                insert_pieces_spec(tm, tp, pv.skip(i as int)) == insert_pieces_spec(m0, Seq::empty(), pv),
                node@ == at(tm, tp),
                after_borrow(root)@ == put(tm, tp, final(node)@),
                wf(tm),
                valid_path(tm, tp),
                values_below(tm, count),
            decreases pieces.len() - i,
        {
            let ghost cur = node@;
            let ghost piece = pv[i as int];
            proof {
                lemma_wf_at(tm, tp);
                lemma_values_at(tm, count, tp);
                assert(pv.skip(i as int)[0] == piece);
                assert(pv.skip(i as int).drop_first() =~= pv.skip(i + 1));
                if tp.len() > 0 {
                    lemma_at_key(tm, tp);
                }
            }
            match &pieces[i] {
                Piece::String(s) => {
                    proof {
                        assert(piece == PieceView::String(s@));
                        lemma_insert_bytes_wf(cur, s@);
                        lemma_insert_bytes_values(cur, s@, count);
                    }
                    let ghost r = insert_bytes_spec(cur, s@);
                    let next = node.insert_bytes(s);
                    proof {
                        lemma_put_put(tm, tp, r.1, r.0, final(next)@);
                        lemma_put_wf(tm, tp, r.0);
                        lemma_put_values(tm, count, tp, r.0);
                        lemma_valid_concat(put(tm, tp, r.0), tp, r.1);
                        tm = put(tm, tp, r.0);
                        tp = tp + r.1;
                    }
                    node = next;
                },
                Piece::Parameter(_, k) => {
                    proof {
                        assert(piece matches PieceView::Parameter(_, kk) && kk == *k);
                        lemma_insert_param_wf(cur, *k);
                        lemma_insert_param_values(cur, *k, count);
                    }
                    let ghost r = insert_param_spec(cur, *k);
                    let ghost st = seq![Step { params: true, index: r.1 }];
                    proof {
                        if tp.len() > 0 {
                            lemma_same_place_rekeep(cur, r.0);
                        }
                    }
                    let next = node.insert_parameter(*k);
                    proof {
                        crate::node::lemma_at_cons(r.0, Step { params: true, index: r.1 }, Seq::empty());
                        assert(seq![Step { params: true, index: r.1 }] + Seq::<Step>::empty() =~= st);
                        lemma_put_put(tm, tp, st, r.0, final(next)@);
                        lemma_put_wf(tm, tp, r.0);
                        lemma_put_values(tm, count, tp, r.0);
                        lemma_valid_concat(put(tm, tp, r.0), tp, st);
                        tm = put(tm, tp, r.0);
                        tp = tp + st;
                    }
                    node = next;
                },
            }
            i = i + 1;
        }
        proof {
            assert(pv.skip(pieces@.len() as int) =~= Seq::<PieceView>::empty());
            lemma_wf_at(tm, tp);
            lemma_values_at(tm, count, tp);
            if tp.len() > 0 {
                lemma_at_key(tm, tp);
            }
        }
        let existing = node.value;
        if existing.is_none() && path.is_empty() {
            proof {
                crate::parser::lemma_parse_len(path.spec_bytes(), 0, 0);
                assert(tm == m0 && tp.len() == 0);
            }
            core::mem::swap(&mut root, &mut self.node);
            proof {
                assert forall|h: nat| #[trigger] height_within(m0, h) implies height_within(self.node@, h + pv.len()) by {}
            }
            return self.id;
        }
        let id = match existing {
            Some(old_id) => old_id,
            None => {
                node.value = Some(self.id);
                self.id
            },
        };
        let ghost target = at(tm, tp);
        let ghost done = NodeModel { value: Some(id), ..target };
        proof {
            if tp.len() > 0 {
                lemma_same_place_rekeep(target, done);
            }
            lemma_wf_rekey(target, done);
            lemma_put_wf(tm, tp, done);
            lemma_values_mono(tm, count, count + 1);
            lemma_values_mono(target, count, count + 1);
            lemma_values_rekey(target, NodeModel { value: target.value, ..done }, count + 1);
            lemma_put_values(tm, count + 1, tp, done);
            if existing is Some {
                assert(done == target);
                lemma_put_same(tm, tp);
            }
        }
        core::mem::swap(&mut root, &mut self.node);
        match existing {
            Some(old_id) => {
                if path.is_empty() {
                    let kept = copy_pieces(&self.routes[old_id].1);
                    self.routes.set(old_id, (value, kept));
                } else {
                    self.routes.set(old_id, (value, pieces));
                }
            },
            None => {
                self.routes.push((value, pieces));
                self.id = self.routes.len();
            },
        }
        proof {
            crate::parser::lemma_parse_len(path.spec_bytes(), 0, 0);
            assert forall|h: nat| #[trigger] height_within(m0, h) implies height_within(self.node@, h + pv.len()) by {
                crate::router_laws::lemma_height_pieces(m0, Seq::empty(), pv, h);
                let hh = h + pv.len();
                crate::height::lemma_height_at(tm, tp, hh);
                let target = at(tm, tp);
                let done = NodeModel { value: Some(id), ..target };
                assert(kids(done, false) == kids(target, false) && kids(done, true) == kids(target, true));
                crate::height::lemma_height_same_kids(target, done, (hh - tp.len()) as nat);
                crate::height::lemma_height_put(tm, tp, done, hh);
            }
            let target = at(tm, tp);
            let done = NodeModel { value: Some(id), ..target };
            assert forall|b: Seq<u8>, v: usize| #[trigger] routes_to(m0, b, v) implies routes_to(self.node@, b, v) by {
                crate::router_laws::lemma_keep_pieces(m0, Seq::empty(), pv, b, v);
                if existing is None {
                    assert forall|bs: Seq<u8>| routes_to(target, bs, v) implies #[trigger] routes_to(done, bs, v) by {
                        let p = choose|p: Seq<Step>| #[trigger] walks(target, bs, p) && at(target, p).value == Some(v);
                        crate::keep::lemma_walk_same_lits(target, done, bs, p);
                        assert(walks(done, bs, p) && at(done, p).value == Some(v));
                    }
                    if tp.len() > 0 {
                        lemma_same_place_rekeep(target, done);
                    }
                    lemma_keep_put(tm, tp, done, b, v);
                }
            }
            crate::shape::lemma_shaped_insert(m0, old(self).routes(), pv, self.routes()[id as int].0, path@.len() == 0);
            let b = path.spec_bytes();
            assert forall|v: usize| #[trigger] routes_to(m0, b, v) && is_literal(b) implies id == v && self.node@ == m0 by {
                let p = choose|p: Seq<Step>| #[trigger] walks(m0, b, p) && at(m0, p).value == Some(v);
                crate::keep::lemma_walk_insert_same(m0, b, p);
                crate::router_laws::lemma_insert_literal(m0, b);
            }
            if is_literal(b) && takes(m0, b) {
                crate::router_laws::lemma_insert_literal(m0, b);
                law_insert_then_find(m0, b, id);
                crate::find_laws::lemma_bytes_walks(m0, b);
                let (t1, p1) = insert_bytes_spec(m0, b);
                let x = NodeModel { value: Some(id), ..at(t1, p1) };
                crate::find_laws::lemma_walk_put(t1, b, p1, x);
                assert(walks(self.node@, b, p1) && at(self.node@, p1).value == Some(id));
            }
        }
        id
    }
}

} // verus!
