//! Where a match ends: at a node below the one matching started from, which
//! holds the value found, and with one captured range for each parameter
//! node on the way down to it.
use vstd::prelude::*;

use crate::find::{
    as_ints, outcome,
    find_at, find_lit_at, find_named, find_rest, first_slash, name_limit, try_literals, try_params,
    try_places, try_places_lit, value_with, with_range, Found,
};
use crate::node::{at, byte_rank, kids, slot, KeyModel, NodeModel, Step};
use crate::parser::Kind;
use crate::small::{ranges_of, Ranges};
use crate::tree_laws::valid_path;

verus! {

/// One for a parameter node, none for a literal one.
pub open spec fn param_one<T>(m: NodeModel<T>) -> nat {
    if m.key is Parameter {
        1nat
    } else {
        0nat
    }
}

/// The parameter nodes along `p` below `m`, `m` itself included.
pub open spec fn param_nodes<T>(m: NodeModel<T>, p: Seq<Step>) -> nat
    decreases p.len(),
{
    param_one(m) + if p.len() == 0 {
        0nat
    } else {
        param_nodes(kids(m, p[0].params)[p[0].index], p.drop_first())
    }
}

/// `p` leads from `m` to a node that holds `v`, past `c` parameter nodes.
pub open spec fn ends_with<T>(m: NodeModel<T>, p: Seq<Step>, v: T, c: nat) -> bool {
    &&& valid_path(m, p)
    &&& at(m, p).value == Some(v)
    &&& param_nodes(m, p) == c
}

/// The match `f` at `m` ends below `m` at a node that holds its value, and
/// records `extra` ranges more than the parameter nodes on the way.
pub open spec fn on_path<T>(m: NodeModel<T>, f: Found<T>, extra: nat) -> bool {
    f matches Some((v, rs)) ==> rs.len() >= extra && exists|p: Seq<Step>|
        #[trigger] ends_with(m, p, v, (rs.len() - extra) as nat)
}

/// The match `f` ends below one of the nodes `s`, as [`on_path`] says.
pub open spec fn on_kids<T>(s: Seq<NodeModel<T>>, f: Found<T>, extra: nat) -> bool {
    f matches Some((v, rs)) ==> rs.len() >= extra && exists|i: int, q: Seq<Step>|
        0 <= i < s.len() && #[trigger] ends_with(s[i], q, v, (rs.len() - extra) as nat)
}

/// A path below a child, one step longer.
proof fn lemma_ends_cons<T>(m: NodeModel<T>, params: bool, i: int, q: Seq<Step>, v: T, c: nat)
    requires
        0 <= i < kids(m, params).len(),
        ends_with(kids(m, params)[i], q, v, c),
    ensures
        ends_with(m, seq![Step { params, index: i }] + q, v, c + param_one(m)),
{
    let p = seq![Step { params, index: i }] + q;
    assert(p[0] == Step { params, index: i });
    assert(p.drop_first() =~= q);
}

/// A match that ends below a child of `m` ends below `m`.
proof fn lemma_kids_on_path<T>(m: NodeModel<T>, params: bool, f: Found<T>, extra: nat)
    requires
        on_kids(kids(m, params), f, extra + param_one(m)),
    ensures
        on_path(m, f, extra),
{
    if f is Some {
        let v = f->Some_0.0;
        let rs = f->Some_0.1;
        let c = (rs.len() - extra - param_one(m)) as nat;
        let (i, q) = choose|i: int, q: Seq<Step>|
            0 <= i < kids(m, params).len() && #[trigger] ends_with(kids(m, params)[i], q, v, c);
        lemma_ends_cons(m, params, i, q, v, c);
        assert(ends_with(m, seq![Step { params, index: i }] + q, v, (rs.len() - extra) as nat));
    }
}

/// One child's match, seen among all children.
proof fn lemma_kid_on_kids<T>(s: Seq<NodeModel<T>>, i: int, f: Found<T>, extra: nat)
    requires
        0 <= i < s.len(),
        on_path(s[i], f, extra),
    ensures
        on_kids(s, f, extra),
{
    if f is Some {
        let v = f->Some_0.0;
        let rs = f->Some_0.1;
        let q = choose|q: Seq<Step>| #[trigger] ends_with(s[i], q, v, (rs.len() - extra) as nat);
        assert(ends_with(s[i], q, v, (rs.len() - extra) as nat));
    }
}

/// The value of a node itself, with `extra + param_one(m)` ranges.
proof fn lemma_here_on_path<T>(m: NodeModel<T>, f: Found<T>, extra: nat)
    requires
        f matches Some((v, rs)) ==> m.value == Some(v) && rs.len() == extra + param_one(m),
    ensures
        on_path(m, f, extra),
{
    if f is Some {
        let v = f->Some_0.0;
        let rs = f->Some_0.1;
        let e = Seq::<Step>::empty();
        assert(at(m, e) == m);
        assert(param_nodes(m, e) == param_one(m));
        assert(ends_with(m, e, v, (rs.len() - extra) as nat));
    }
}

/// Matching at `m` ends below `m`, with one range per parameter node.
pub proof fn lemma_find_path<T>(m: NodeModel<T>, start: int, b: Seq<u8>)
    ensures
        on_path(m, find_at(m, start, b), 0),
    decreases m, 3int, 0int,
{
    let f = find_at(m, start, b);
    match m.key {
        KeyModel::String(k) => {
            let len = b.len() as int;
            let kl = k.len() as int;
            if kl <= len && b.subrange(0, kl) == k {
                let rest = b.subrange(kl, len);
                let here = if kl == len {
                    match m.value {
                        Some(v) => Some((v, Seq::<(int, int)>::empty())),
                        None => None,
                    }
                } else {
                    None
                };
                if here is Some {
                    lemma_here_on_path(m, f, 0);
                } else {
                    let lit = if kl < len {
                        match m.nodes0 {
                            Some(s0) => {
                                let i = slot(s0, byte_rank(rest[0]));
                                if 0 <= i < s0.len() && crate::node::rank(s0[i]) == byte_rank(rest[0]) {
                                    find_at(s0[i], start + kl, rest)
                                } else {
                                    None
                                }
                            },
                            None => None,
                        }
                    } else {
                        None
                    };
                    if lit is Some {
                        let s0 = m.nodes0->Some_0;
                        let i = slot(s0, byte_rank(rest[0]));
                        assert(kids(m, false) == s0);
                        lemma_find_path(s0[i], start + kl, rest);
                        lemma_kid_on_kids(s0, i, f, 0);
                        lemma_kids_on_path(m, false, f, 0);
                    } else {
                        match m.nodes1 {
                            Some(s1) => {
                                assert(kids(m, true) == s1);
                                lemma_params_path(s1, 0, start + kl, rest, kl < len, false);
                                lemma_kids_on_path(m, true, f, 0);
                            },
                            None => {},
                        }
                    }
                }
            } else {
                match m.nodes1 {
                    Some(s1) => {
                        assert(kids(m, true) == s1);
                        lemma_params_path(s1, 0, start, b, true, true);
                        lemma_kids_on_path(m, true, f, 0);
                    },
                    None => {},
                }
            }
        },
        KeyModel::Parameter(k) => {
            if k == Kind::Normal || k == Kind::Optional || k == Kind::OptionalSegment {
                lemma_named_path(m, k, start, b);
            } else {
                lemma_rest_path(m, k, start, b);
            }
        },
    }
}

/// Trying parameter children ends below one of them.
proof fn lemma_params_path<T>(
    s: Seq<NodeModel<T>>,
    i: int,
    start: int,
    b: Seq<u8>,
    has_more: bool,
    segments_only: bool,
)
    ensures
        on_kids(s, try_params(s, i, start, b, has_more, segments_only), 0),
    decreases s, 0int, s.len() - i,
{
    if 0 <= i < s.len() {
        lemma_find_path(s[i], start, b);
        lemma_kid_on_kids(s, i, find_at(s[i], start, b), 0);
        lemma_params_path(s, i + 1, start, b, has_more, segments_only);
    }
}

/// Trying a literal child at each place ends below it, with one range more.
proof fn lemma_places_path<T>(kid: NodeModel<T>, start: int, b: Seq<u8>, pos: int, limit: int)
    ensures
        on_path(kid, try_places(kid, start, b, pos, limit), 1),
    decreases kid, 4int, limit - pos,
{
    if 0 <= pos < limit && pos < b.len() {
        let sub = find_at(kid, start + pos, b.subrange(pos, b.len() as int));
        lemma_find_path(kid, start + pos, b.subrange(pos, b.len() as int));
        lemma_with_range_path(kid, sub, 0, start, start + pos);
        lemma_places_path(kid, start, b, pos + 1, limit);
    }
}

/// Matching through literal keys alone ends below the node.
proof fn lemma_lit_path<T>(m: NodeModel<T>, start: int, b: Seq<u8>)
    ensures
        on_path(m, find_lit_at(m, start, b), 0),
    decreases m, 2int, 0int,
{
    let f = find_lit_at(m, start, b);
    if m.key is String {
        let k = m.key->String_0;
        let kl = k.len() as int;
        let len = b.len() as int;
        if kl <= len && b.subrange(0, kl) == k {
            if kl == len {
                lemma_here_on_path(m, f, 0);
            } else {
                match m.nodes0 {
                    Some(s0) => {
                        let rest = b.subrange(kl, len);
                        let i = slot(s0, byte_rank(rest[0]));
                        if 0 <= i < s0.len() {
                            assert(kids(m, false) == s0);
                            lemma_find_path(s0[i], start + kl, rest);
                            lemma_kid_on_kids(s0, i, f, 0);
                            lemma_kids_on_path(m, false, f, 0);
                        }
                    },
                    None => {},
                }
            }
        }
    }
}

/// Trying a literal child, through literal keys alone, at each place.
proof fn lemma_places_lit_path<T>(kid: NodeModel<T>, start: int, b: Seq<u8>, pos: int, limit: int)
    ensures
        on_path(kid, try_places_lit(kid, start, b, pos, limit), 1),
    decreases kid, 4int, limit - pos,
{
    if 0 <= pos < limit && pos < b.len() {
        let sub = find_lit_at(kid, start + pos, b.subrange(pos, b.len() as int));
        lemma_lit_path(kid, start + pos, b.subrange(pos, b.len() as int));
        lemma_with_range_path(kid, sub, 0, start, start + pos);
        lemma_places_lit_path(kid, start, b, pos + 1, limit);
    }
}

/// Trying literal children after a parameter ends below one of them, with one range more.
proof fn lemma_literals_path<T>(s: Seq<NodeModel<T>>, i: int, start: int, b: Seq<u8>, mode: int)
    ensures
        on_kids(s, try_literals(s, i, start, b, mode), 1),
    decreases s, 0int, s.len() - i,
{
    if 0 <= i < s.len() {
        let kid = s[i];
        let from = if mode == 0 || mode == 1 {
            1int
        } else {
            0int
        };
        lemma_places_path(kid, start, b, from, name_limit(b));
        lemma_places_path(kid, start, b, from, b.len() as int);
        lemma_places_lit_path(kid, start, b, from, b.len() as int);
        lemma_kid_on_kids(s, i, try_places(kid, start, b, from, name_limit(b)), 1);
        lemma_kid_on_kids(s, i, try_places(kid, start, b, from, b.len() as int), 1);
        lemma_kid_on_kids(s, i, try_places_lit(kid, start, b, from, b.len() as int), 1);
        lemma_literals_path(s, i + 1, start, b, mode);
    }
}

/// A range recorded after the others, below one of the children.
proof fn lemma_with_range_kids<T>(s: Seq<NodeModel<T>>, f: Found<T>, extra: nat, a: int, c: int)
    requires
        on_kids(s, f, extra),
    ensures
        on_kids(s, with_range(f, a, c), extra + 1),
{
    if f is Some {
        let v = f->Some_0.0;
        let rs = f->Some_0.1;
        let (i, q) = choose|i: int, q: Seq<Step>| 0 <= i < s.len() && #[trigger] ends_with(s[i], q, v, (rs.len() - extra) as nat);
        let g = with_range(f, a, c);
        let rs2 = rs.push((a, c));
        let e1: nat = extra + 1;
        assert(g == Some((v, rs2)));
        assert(rs2.len() == rs.len() + 1);
        assert((rs2.len() - e1) as nat == (rs.len() - extra) as nat);
        assert(ends_with(s[i], q, v, (rs2.len() - e1) as nat));
        assert(g matches Some((vv, rr)) ==> rr.len() >= e1);
        assert(g matches Some((vv, rr)) ==> vv == v && rr == rs2);
        assert(g matches Some((vv, rr)) ==> exists|j: int, p: Seq<Step>|
            0 <= j < s.len() && #[trigger] ends_with(s[j], p, vv, (rr.len() - e1) as nat));
        assert(on_kids(s, g, e1));
    }
}

/// A range recorded after the others.
proof fn lemma_with_range_path<T>(m: NodeModel<T>, f: Found<T>, extra: nat, a: int, c: int)
    requires
        on_path(m, f, extra),
    ensures
        on_path(m, with_range(f, a, c), extra + 1),
{
    if f is Some {
        let v = f->Some_0.0;
        let rs = f->Some_0.1;
        let q = choose|q: Seq<Step>| #[trigger] ends_with(m, q, v, (rs.len() - extra) as nat);
        let g = with_range(f, a, c);
        let rs2 = rs.push((a, c));
        let e1: nat = extra + 1;
        assert(g == Some((v, rs2)));
        assert(rs2.len() == rs.len() + 1);
        assert((rs2.len() - e1) as nat == (rs.len() - extra) as nat);
        assert(ends_with(m, q, v, (rs2.len() - e1) as nat));
        assert(exists|p: Seq<Step>| #[trigger] ends_with(m, p, v, (rs2.len() - e1) as nat));
        assert(g matches Some((vv, rr)) ==> rr.len() >= e1);
        assert(g matches Some((vv, rr)) ==> vv == v && rr == rs2);
        assert(g matches Some((vv, rr)) ==> exists|p: Seq<Step>| #[trigger] ends_with(m, p, vv, (rr.len() - e1) as nat));
        assert(on_path(m, g, e1));
    }
}

/// Matching at a `:name`, `:name?` or `/:name?/` node.
proof fn lemma_named_path<T>(m: NodeModel<T>, k: Kind, start: int, b: Seq<u8>)
    requires
        m.key == KeyModel::Parameter(k),
    ensures
        on_path(m, find_named(m, k, start, b), 0),
    decreases m, 1int, 0int,
{
    let f = find_named(m, k, start, b);
    let len = b.len() as int;
    assert(param_one(m) == 1);
    match m.nodes0 {
        Some(s) => {
            assert(kids(m, false) == s);
            let mode = if k == Kind::Normal {
                0int
            } else {
                3int
            };
            lemma_literals_path(s, 0, start, b, mode);
            if s.len() > 0 {
                let slash = first_slash(b, 0);
                let b2 = if slash < len {
                    b.subrange(slash, len)
                } else {
                    Seq::<u8>::empty()
                };
                let last = find_at(s[s.len() - 1], start, b2);
                lemma_find_path(s[s.len() - 1], start, b2);
                lemma_kid_on_kids(s, s.len() - 1, last, 0);
                lemma_with_range_kids(s, last, 0, start, start + len);
            }
        },
        None => {},
    }
    match m.nodes1 {
        Some(s) => {
            assert(kids(m, true) == s);
            if len > 0 {
                let tp = try_params(s, 0, start + 1, b.subrange(1, len), len - 1 > 0, false);
                lemma_params_path(s, 0, start + 1, b.subrange(1, len), len - 1 > 0, false);
                lemma_with_range_kids(s, tp, 0, start, start + 1);
            }
            let tp2 = try_params(s, 0, start, b, len > 0, false);
            lemma_params_path(s, 0, start, b, len > 0, false);
            lemma_with_range_kids(s, tp2, 0, start + len, start + len);
        },
        None => {},
    }
    if f is Some {
        let leafy = m.nodes0 is None && m.nodes1 is None;
        if len == 0 && leafy {
            lemma_here_on_path(m, f, 0);
        } else {
            let early = if len == 0 {
                None
            } else {
                let lit = match m.nodes0 {
                    Some(s) => try_literals(s, 0, start, b, if k == Kind::Normal { 0int } else { 3int }),
                    None => None,
                };
                if lit is Some {
                    lit
                } else {
                    match m.nodes1 {
                        Some(s) => if b[0] != crate::bytes::SLASH {
                            with_range(
                                try_params(s, 0, start + 1, b.subrange(1, len), len - 1 > 0, false),
                                start,
                                start + 1,
                            )
                        } else {
                            None
                        },
                        None => None,
                    }
                }
            };
            if early is Some {
                let lit = match m.nodes0 {
                    Some(s) => try_literals(s, 0, start, b, if k == Kind::Normal { 0int } else { 3int }),
                    None => None,
                };
                if lit is Some {
                    lemma_kids_on_path(m, false, f, 0);
                } else {
                    lemma_kids_on_path(m, true, f, 0);
                }
            } else {
                let opt = if k == Kind::Optional || k == Kind::OptionalSegment {
                    match m.nodes1 {
                        Some(s) => with_range(try_params(s, 0, start, b, len > 0, false), start + len, start + len),
                        None => None,
                    }
                } else {
                    None
                };
                if opt is Some {
                    lemma_kids_on_path(m, true, f, 0);
                } else {
                    let slash = first_slash(b, 0);
                    if slash >= len && m.value is Some {
                        lemma_here_on_path(m, f, 0);
                    } else {
                        lemma_kids_on_path(m, false, f, 0);
                    }
                }
            }
        }
    }
}

/// Matching at a `+`, `*` or `/*/` node.
proof fn lemma_rest_path<T>(m: NodeModel<T>, k: Kind, start: int, b: Seq<u8>)
    requires
        m.key == KeyModel::Parameter(k),
    ensures
        on_path(m, find_rest(m, k, start, b), 0),
    decreases m, 1int, 0int,
{
    let f = find_rest(m, k, start, b);
    let len = b.len() as int;
    assert(param_one(m) == 1);
    match m.nodes0 {
        Some(s) => {
            assert(kids(m, false) == s);
            lemma_literals_path(s, 0, start, b, if k == Kind::OneOrMore { 1int } else { 2int });
            if s.len() > 0 {
                let last = find_at(s[s.len() - 1], start, b);
                lemma_find_path(s[s.len() - 1], start, b);
                lemma_kid_on_kids(s, s.len() - 1, last, 0);
                lemma_with_range_kids(s, last, 0, start + len, start + len);
            }
        },
        None => {},
    }
    if f is Some {
        let leafy = m.nodes0 is None && m.nodes1 is None;
        if len == 0 && leafy {
            lemma_here_on_path(m, f, 0);
        } else if len > 0 && leafy && m.value is Some {
            lemma_here_on_path(m, f, 0);
        } else {
            lemma_kids_on_path(m, false, f, 0);
        }
    }
}

/// What matching finds is held at the end of a path below the node matching
/// started from, and the match records exactly one range for each parameter
/// node on that path, the starting node included.
pub proof fn law_find_ranges_count<T>(m: NodeModel<T>, start: int, b: Seq<u8>)
    ensures
        find_at(m, start, b) matches Some((v, rs)) ==> exists|p: Seq<Step>|
            #[trigger] valid_path(m, p) && at(m, p).value == Some(v) && rs.len() == param_nodes(m, p),
{
    lemma_find_path(m, start, b);
    if find_at(m, start, b) is Some {
        let v = find_at(m, start, b)->Some_0.0;
        let rs = find_at(m, start, b)->Some_0.1;
        let p = choose|p: Seq<Step>| #[trigger] ends_with(m, p, v, (rs.len() - 0) as nat);
        assert(valid_path(m, p) && at(m, p).value == Some(v) && rs.len() == param_nodes(m, p));
    }
}


/// A call that did what [`find_at`] says recorded, on success, one range per
/// parameter node on a path to the node whose value it gave, each within the
/// bytes matched.
pub proof fn lemma_outcome_path<T>(m: NodeModel<T>, start: int, b: Seq<u8>, r: Option<&T>, before: Ranges, after: Ranges)
    requires
        outcome(r, find_at(m, start, b), before, after),
    ensures
        r matches Some(x) ==> exists|p: Seq<Step>|
            #[trigger] valid_path(m, p) && at(m, p).value == Some(*x) && ranges_of(after).len() == ranges_of(before).len()
                + param_nodes(m, p),
        forall|k: int|
            ranges_of(before).len() <= k < ranges_of(after).len() ==> start <= #[trigger] ranges_of(after)[k].0
                <= ranges_of(after)[k].1 <= start + b.len(),
{
    law_find_ranges_count(m, start, b);
    crate::find_laws::lemma_find_within(m, start, b);
    assert forall|k: int|
        ranges_of(before).len() <= k < ranges_of(after).len() implies start <= #[trigger] ranges_of(after)[k].0
            <= ranges_of(after)[k].1 <= start + b.len() by {
        let f = find_at(m, start, b);
        let ia = as_ints(ranges_of(after));
        let ib = as_ints(ranges_of(before));
        assert(ia.len() == ranges_of(after).len());
        assert(ib.len() == ranges_of(before).len());
        if f is None {
            assert(ranges_of(after) == ranges_of(before));
            assert(false);
        }
        let rs = f->Some_0.1;
        assert(ia == ib + rs);
        let j = k - ranges_of(before).len();
        assert(0 <= j < rs.len());
        assert(ia[k] == (ranges_of(after)[k].0 as int, ranges_of(after)[k].1 as int));
        assert(ia[k] == rs[j]);
    }
    if r is Some {
        let v = find_at(m, start, b)->Some_0.0;
        let rs = find_at(m, start, b)->Some_0.1;
        let p = choose|p: Seq<Step>| #[trigger] valid_path(m, p) && at(m, p).value == Some(v) && rs.len() == param_nodes(m, p);
        assert(as_ints(ranges_of(after)).len() == ranges_of(after).len());
        assert(as_ints(ranges_of(before)).len() == ranges_of(before).len());
        assert(valid_path(m, p) && at(m, p).value == Some(*r.unwrap()));
    }
}

} // verus!
