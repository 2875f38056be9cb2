//! What matching gives back of what was inserted.
//!
//! A literal path inserted into the tree is matched again by the very same
//! path: matching follows the literal children the insertion went down and
//! stops at the node that the insertion handed back, capturing nothing.
//! Beyond that, a match only reaches values held in the tree, and every range
//! it captures lies within the path matched.
use vstd::prelude::*;

use crate::find::{
    find_lit_at, try_places_lit,
    value_with,
    find_at, find_named, find_rest, first_slash, name_limit, try_literals, try_params, try_places, with_range,
    Found,
};
use crate::node::{
    at, byte_rank, insert_bytes_spec, insert_child_spec, kids, leaf, put, rank, slot, wf, with_kids,
    KeyModel, NodeModel, Step,
};
use crate::tree_laws::{
    lemma_common_prefix, lemma_insert_bytes_wf, lemma_slot_bounds, lemma_slot_split,
    lemma_values_kid, lemma_wf_kid_of, lemma_wf_ordered, same_place, values_below,
};

verus! {

/// Matching `b` at `m` goes down the literal children along `p`, each chosen
/// by the next byte, and the key of the last node ends exactly where `b` ends.
pub open spec fn walks<T>(m: NodeModel<T>, b: Seq<u8>, p: Seq<Step>) -> bool
    decreases p.len(),
{
    match m.key {
        KeyModel::String(k) => {
            &&& 0 < k.len() <= b.len()
            &&& b.subrange(0, k.len() as int) == k
            &&& if p.len() == 0 {
                k.len() == b.len()
            } else {
                let rest = b.subrange(k.len() as int, b.len() as int);
                let s = kids(m, false);
                &&& k.len() < b.len()
                &&& !p[0].params
                &&& p[0].index == slot(s, byte_rank(rest[0]))
                &&& 0 <= p[0].index < s.len()
                &&& rank(s[p[0].index]) == byte_rank(rest[0])
                &&& walks(s[p[0].index], rest, p.drop_first())
            }
        },
        KeyModel::Parameter(_) => false,
    }
}

/// The bytes `b` may go in at `m`: its key is literal and either empty or
/// starts with the first byte of `b`.
pub open spec fn takes<T>(m: NodeModel<T>, b: Seq<u8>) -> bool {
    &&& b.len() > 0
    &&& m.key matches KeyModel::String(k) && (k.len() == 0 || k[0] == b[0])
}

/// The slot of a rank depends on the ranks of the children alone.
pub proof fn lemma_slot_ranks<T>(s: Seq<NodeModel<T>>, t: Seq<NodeModel<T>>, r: int)
    requires
        s.len() == t.len(),
        forall|j: int| 0 <= j < s.len() ==> rank(#[trigger] s[j]) == rank(t[j]),
    ensures
        slot(s, r) == slot(t, r),
    decreases s.len(),
{
    if s.len() > 0 {
        assert(rank(s.last()) == rank(t.last()));
        lemma_slot_ranks(s.drop_last(), t.drop_last(), r);
    }
}

/// Matching along a walk reaches the value of the node where it ends.
pub proof fn lemma_walk_find<T>(m: NodeModel<T>, b: Seq<u8>, p: Seq<Step>, start: int)
    requires
        walks(m, b, p),
        at(m, p).value is Some,
    ensures
        find_at(m, start, b) == Some((at(m, p).value->Some_0, Seq::<(int, int)>::empty())),
    decreases p.len(),
{
    let k = m.key->String_0;
    if p.len() > 0 {
        let rest = b.subrange(k.len() as int, b.len() as int);
        let s = kids(m, false);
        let i = p[0].index;
        assert(m.nodes0 is Some);
        assert(s == m.nodes0->Some_0);
        assert(at(m, p) == at(s[i], p.drop_first()));
        lemma_walk_find(s[i], rest, p.drop_first(), start + k.len());
    }
}

/// Replacing the node at the end of a walk by one with the same key keeps the walk.
pub proof fn lemma_walk_put<T>(m: NodeModel<T>, b: Seq<u8>, p: Seq<Step>, x: NodeModel<T>)
    requires
        walks(m, b, p),
        x.key == at(m, p).key,
    ensures
        walks(put(m, p, x), b, p),
        at(put(m, p, x), p) == x,
    decreases p.len(),
{
    if p.len() > 0 {
        let k = m.key->String_0;
        let rest = b.subrange(k.len() as int, b.len() as int);
        let s = kids(m, false);
        let i = p[0].index;
        let sub = put(s[i], p.drop_first(), x);
        assert(at(m, p) == at(s[i], p.drop_first()));
        lemma_walk_put(s[i], rest, p.drop_first(), x);
        let t = s.update(i, sub);
        let mm = put(m, p, x);
        assert(mm == with_kids(m, false, t));
        assert(kids(mm, false) == t);
        assert(rank(sub) == rank(s[i])) by {
            if p.len() > 1 {
                assert(sub.key == s[i].key);
            } else {
                assert(p.drop_first() =~= Seq::<Step>::empty());
            }
        }
        assert forall|j: int| 0 <= j < s.len() implies rank(#[trigger] s[j]) == rank(t[j]) by {}
        lemma_slot_ranks(s, t, byte_rank(rest[0]));
        assert(at(mm, p) == at(t[i], p.drop_first()));
    }
}

/// The child that inserting `b` among the literal children of `m` goes into,
/// and the walk of `b` from there.
pub proof fn lemma_child_walks<T>(m: NodeModel<T>, b: Seq<u8>)
    requires
        wf(m),
        b.len() > 0,
    ensures
        ({
            let (t, p) = insert_child_spec(m, b);
            let s = kids(t, false);
            &&& t.key == m.key
            &&& p.len() > 0
            &&& !p[0].params
            &&& p[0].index == slot(s, byte_rank(b[0]))
            &&& 0 <= p[0].index < s.len()
            &&& rank(s[p[0].index]) == byte_rank(b[0])
            &&& walks(s[p[0].index], b, p.drop_first())
        }),
    decreases m, 0int,
{
    let s = kids(m, false);
    let r = byte_rank(b[0]);
    let i = slot(s, r);
    lemma_wf_ordered(m);
    lemma_slot_bounds(s, r);
    lemma_slot_split(s, false, r);
    if 0 <= i < s.len() && rank(s[i]) == r {
        let kid = s[i];
        lemma_wf_kid_of(m, false, i);
        assert(m.nodes0 is Some);
        assert(kid == m.nodes0->Some_0[i]);
        assert(kid.key matches KeyModel::String(ck) && ck.len() > 0);
        lemma_bytes_walks(kid, b);
        lemma_insert_bytes_wf(kid, b);
        let rr = insert_bytes_spec(kid, b);
        let t = s.update(i, rr.0);
        assert(same_place(kid, rr.0));
        assert forall|j: int| 0 <= j < s.len() implies rank(#[trigger] s[j]) == rank(t[j]) by {}
        lemma_slot_ranks(s, t, r);
        let path = seq![Step { params: false, index: i }] + rr.1;
        assert(path.drop_first() =~= rr.1);
        assert(kids(with_kids(m, false, t), false) == t);
    } else {
        let x = leaf::<T>(KeyModel::String(b));
        assert(rank(x) == r);
        let t = s.insert(i, x);
        assert forall|j: int| 0 <= j < i implies rank(#[trigger] t[j]) < r by {
            assert(t[j] == s[j]);
        }
        assert forall|j: int| i <= j < t.len() implies rank(#[trigger] t[j]) >= r by {
            if j > i {
                assert(t[j] == s[j - 1]);
            }
        }
        crate::node::lemma_slot(t, r, i);
        let path = seq![Step { params: false, index: i }];
        assert(path.drop_first() =~= Seq::<Step>::empty());
        assert(kids(with_kids(m, false, t), false) == t);
        assert(b.subrange(0, b.len() as int) =~= b);
    }
}

/// Inserting `b` at `m` leaves a walk of `b` down to the node it hands back.
pub proof fn lemma_bytes_walks<T>(m: NodeModel<T>, b: Seq<u8>)
    requires
        wf(m),
        takes(m, b),
    ensures
        walks(insert_bytes_spec(m, b).0, b, insert_bytes_spec(m, b).1),
    decreases m, 1int,
{
    let k = m.key->String_0;
    if k.len() == 0 {
        assert(b.subrange(0, b.len() as int) =~= b);
    } else {
        let c = crate::node::common_prefix(k, b, 0);
        lemma_common_prefix(k, b, 0);
        assert(c > 0);
        if c < k.len() {
            let lower = NodeModel { key: KeyModel::String(k.subrange(c, k.len() as int)), ..m };
            assert(k.subrange(0, c) =~= b.subrange(0, c));
            if c == b.len() {
                let (mid, p) = insert_bytes_spec(m, b);
                assert(mid.key == KeyModel::String(k.subrange(0, c)));
                assert(p.len() == 0);
                assert(b.subrange(0, c) =~= b);
                assert(walks(mid, b, p));
            } else {
                let rest = b.subrange(c, b.len() as int);
                let x = leaf::<T>(KeyModel::String(rest));
                assert(rest[0] == b[c]);
                assert(k[c] != b[c]);
                assert(rank(lower) == byte_rank(k[c]));
                let r = byte_rank(rest[0]);
                let i = if rank(lower) < r {
                    1int
                } else {
                    0int
                };
                let t = seq![lower].insert(i, x);
                assert forall|j: int| 0 <= j < i implies rank(#[trigger] t[j]) < r by {}
                assert forall|j: int| i <= j < t.len() implies rank(#[trigger] t[j]) >= r by {}
                crate::node::lemma_slot(t, r, i);
                let (mid, p) = insert_bytes_spec(m, b);
                assert(kids(mid, false) == t);
                assert(p.drop_first() =~= Seq::<Step>::empty());
                assert(rest.subrange(0, rest.len() as int) =~= rest);
                assert(walks(t[i], rest, p.drop_first()));
                assert(walks(mid, b, p));
            }
        } else if c < b.len() {
            let rest = b.subrange(c, b.len() as int);
            lemma_child_walks(m, rest);
            let (mid, p) = insert_bytes_spec(m, b);
            assert(b.subrange(0, k.len() as int) =~= k);
        } else {
            assert(b.subrange(0, k.len() as int) =~= k);
        }
    }
}

/// Inserting a literal path at a node that takes it and giving the node it
/// ends at a value (if it had none), then matching the same path, reaches
/// that node's value and captures nothing.
pub proof fn law_insert_then_find<T>(m: NodeModel<T>, b: Seq<u8>, v: T)
    requires
        wf(m),
        takes(m, b),
    ensures
        ({
            let (t, p) = insert_bytes_spec(m, b);
            let target = at(t, p);
            let x = NodeModel {
                value: Some(
                    match target.value {
                        Some(old) => old,
                        None => v,
                    },
                ),
                ..target
            };
            &&& find_at(put(t, p, x), 0, b) == Some((x.value->Some_0, Seq::<(int, int)>::empty()))
            &&& (target.value is Some ==> put(t, p, x) == t)
        }),
{
    let (t, p) = insert_bytes_spec(m, b);
    let target = at(t, p);
    let x = NodeModel {
        value: Some(
            match target.value {
                Some(old) => old,
                None => v,
            },
        ),
        ..target
    };
    lemma_bytes_walks(m, b);
    lemma_walk_put(t, b, p, x);
    lemma_walk_find(put(t, p, x), b, p, 0);
    if target.value is Some {
        assert(x == target);
        lemma_insert_bytes_wf(m, b);
        crate::tree_laws::lemma_put_same(t, p);
    }
}

/// The value of a match, if any, is below `n`.
pub open spec fn found_below(f: Found<usize>, n: nat) -> bool {
    f matches Some((v, _)) ==> v < n
}

/// Every node of `s` holds values below `n` only.
pub open spec fn all_below(s: Seq<NodeModel<usize>>, n: nat) -> bool {
    forall|j: int| 0 <= j < s.len() ==> values_below(#[trigger] s[j], n)
}

proof fn lemma_kids_below(m: NodeModel<usize>, n: nat)
    requires
        values_below(m, n),
    ensures
        m.nodes0 matches Some(s) ==> all_below(s, n),
        m.nodes1 matches Some(s) ==> all_below(s, n),
{
    if m.nodes0 is Some {
        assert forall|j: int| 0 <= j < m.nodes0->Some_0.len() implies values_below(#[trigger] m.nodes0->Some_0[j], n) by {
            lemma_values_kid(m, n, false, j);
        }
    }
    if m.nodes1 is Some {
        assert forall|j: int| 0 <= j < m.nodes1->Some_0.len() implies values_below(#[trigger] m.nodes1->Some_0[j], n) by {
            lemma_values_kid(m, n, true, j);
        }
    }
}

/// Matching at a node finds only values held below it.
pub proof fn lemma_find_below(m: NodeModel<usize>, start: int, b: Seq<u8>, n: nat)
    requires
        values_below(m, n),
    ensures
        found_below(find_at(m, start, b), n),
    decreases m, 3int, 0int,
{
    lemma_kids_below(m, n);
    match m.key {
        KeyModel::String(k) => {
            let len = b.len() as int;
            let kl = k.len() as int;
            if kl <= len && b.subrange(0, kl) == k {
                let rest = b.subrange(kl, len);
                if kl < len {
                    match m.nodes0 {
                        Some(s0) => {
                            let i = slot(s0, byte_rank(rest[0]));
                            if 0 <= i < s0.len() {
                                lemma_find_below(s0[i], start + kl, rest, n);
                            }
                        },
                        None => {},
                    }
                }
                match m.nodes1 {
                    Some(s1) => lemma_params_below(s1, 0, start + kl, rest, kl < len, false, n),
                    None => {},
                }
            } else {
                match m.nodes1 {
                    Some(s1) => lemma_params_below(s1, 0, start, b, true, true, n),
                    None => {},
                }
            }
        },
        KeyModel::Parameter(k) => {
            if k == crate::parser::Kind::Normal || k == crate::parser::Kind::Optional
                || k == crate::parser::Kind::OptionalSegment {
                lemma_named_below(m, k, start, b, n);
            } else {
                lemma_rest_below(m, k, start, b, n);
            }
        },
    }
}

proof fn lemma_params_below(
    s: Seq<NodeModel<usize>>,
    i: int,
    start: int,
    b: Seq<u8>,
    has_more: bool,
    segments_only: bool,
    n: nat,
)
    requires
        all_below(s, n),
    ensures
        found_below(try_params(s, i, start, b, has_more, segments_only), n),
    decreases s, 0int, s.len() - i,
{
    if 0 <= i < s.len() {
        lemma_find_below(s[i], start, b, n);
        lemma_params_below(s, i + 1, start, b, has_more, segments_only, n);
    }
}

proof fn lemma_places_below(kid: NodeModel<usize>, start: int, b: Seq<u8>, pos: int, limit: int, n: nat)
    requires
        values_below(kid, n),
    ensures
        found_below(try_places(kid, start, b, pos, limit), n),
    decreases kid, 4int, limit - pos,
{
    if 0 <= pos < limit && pos < b.len() {
        lemma_find_below(kid, start + pos, b.subrange(pos, b.len() as int), n);
        lemma_places_below(kid, start, b, pos + 1, limit, n);
    }
}

proof fn lemma_lit_below(m: NodeModel<usize>, start: int, b: Seq<u8>, n: nat)
    requires
        values_below(m, n),
    ensures
        found_below(find_lit_at(m, start, b), n),
    decreases m, 2int, 0int,
{
    lemma_kids_below(m, n);
    if m.key is String {
        let k = m.key->String_0;
        let kl = k.len() as int;
        if kl < b.len() {
            let rest = b.subrange(kl, b.len() as int);
            match m.nodes0 {
                Some(s0) => {
                    let i = slot(s0, byte_rank(rest[0]));
                    if 0 <= i < s0.len() {
                        lemma_find_below(s0[i], start + kl, rest, n);
                    }
                },
                None => {},
            }
        }
    }
}

proof fn lemma_places_lit_below(kid: NodeModel<usize>, start: int, b: Seq<u8>, pos: int, limit: int, n: nat)
    requires
        values_below(kid, n),
    ensures
        found_below(try_places_lit(kid, start, b, pos, limit), n),
    decreases kid, 4int, limit - pos,
{
    if 0 <= pos < limit && pos < b.len() {
        lemma_lit_below(kid, start + pos, b.subrange(pos, b.len() as int), n);
        lemma_places_lit_below(kid, start, b, pos + 1, limit, n);
    }
}

proof fn lemma_literals_below(s: Seq<NodeModel<usize>>, i: int, start: int, b: Seq<u8>, mode: int, n: nat)
    requires
        all_below(s, n),
    ensures
        found_below(try_literals(s, i, start, b, mode), n),
    decreases s, 0int, s.len() - i,
{
    if 0 <= i < s.len() {
        lemma_places_below(s[i], start, b, 0, name_limit(b), n);
        lemma_places_below(s[i], start, b, 0, b.len() as int, n);
        lemma_places_below(s[i], start, b, 1, name_limit(b), n);
        lemma_places_below(s[i], start, b, 1, b.len() as int, n);
        lemma_places_lit_below(s[i], start, b, 1, b.len() as int, n);
        lemma_literals_below(s, i + 1, start, b, mode, n);
    }
}

proof fn lemma_named_below(m: NodeModel<usize>, k: crate::parser::Kind, start: int, b: Seq<u8>, n: nat)
    requires
        values_below(m, n),
    ensures
        found_below(find_named(m, k, start, b), n),
    decreases m, 1int, 0int,
{
    lemma_kids_below(m, n);
    let len = b.len() as int;
    match m.nodes0 {
        Some(s) => {
            lemma_literals_below(s, 0, start, b, if k == crate::parser::Kind::Normal { 0int } else { 3int }, n);
            if s.len() > 0 {
                let slash = first_slash(b, 0);
                let b2 = if slash < len {
                    b.subrange(slash, len)
                } else {
                    Seq::<u8>::empty()
                };
                lemma_find_below(s[s.len() - 1], start, b2, n);
            }
        },
        None => {},
    }
    match m.nodes1 {
        Some(s) => {
            if len > 0 {
                lemma_params_below(s, 0, start + 1, b.subrange(1, len), len - 1 > 0, false, n);
            }
            lemma_params_below(s, 0, start, b, len > 0, false, n);
        },
        None => {},
    }
}

proof fn lemma_rest_below(m: NodeModel<usize>, k: crate::parser::Kind, start: int, b: Seq<u8>, n: nat)
    requires
        values_below(m, n),
    ensures
        found_below(find_rest(m, k, start, b), n),
    decreases m, 1int, 0int,
{
    lemma_kids_below(m, n);
    match m.nodes0 {
        Some(s) => {
            lemma_literals_below(s, 0, start, b, if k == crate::parser::Kind::OneOrMore { 1int } else { 2int }, n);
            if s.len() > 0 {
                lemma_find_below(s[s.len() - 1], start, b, n);
            }
        },
        None => {},
    }
}

/// Each range of a match lies within `[lo, hi]`.
pub open spec fn found_within<T>(f: Found<T>, lo: int, hi: int) -> bool {
    f matches Some((_, p)) ==> forall|i: int|
        #![trigger p[i]]
        0 <= i < p.len() ==> lo <= p[i].0 <= p[i].1 <= hi
}

proof fn lemma_with_range_within<T>(f: Found<T>, lo: int, hi: int, a: int, c: int)
    requires
        found_within(f, lo, hi),
        lo <= a <= c <= hi,
    ensures
        found_within(with_range(f, a, c), lo, hi),
{
    if f is Some {
        let p = f->Some_0.1;
        let q = p.push((a, c));
        assert forall|i: int| 0 <= i < q.len() implies lo <= #[trigger] q[i].0 <= q[i].1 <= hi by {
            if i < p.len() {
                assert(q[i] == p[i]);
            }
        }
    }
}

proof fn lemma_within_wider<T>(f: Found<T>, lo: int, hi: int, lo2: int, hi2: int)
    requires
        found_within(f, lo, hi),
        lo2 <= lo,
        hi <= hi2,
    ensures
        found_within(f, lo2, hi2),
{
}

proof fn lemma_first_slash_bounds(b: Seq<u8>, i: int)
    requires
        0 <= i,
    ensures
        i <= first_slash(b, i) <= b.len() || (i > b.len() && first_slash(b, i) == b.len()),
    decreases b.len() - i,
{
    if i < b.len() && b[i] != crate::bytes::SLASH {
        lemma_first_slash_bounds(b, i + 1);
    }
}

/// Matching `b` from `start` captures ranges within `[start, start + |b|]`.
pub proof fn lemma_find_within<T>(m: NodeModel<T>, start: int, b: Seq<u8>)
    ensures
        found_within(find_at(m, start, b), start, start + b.len()),
    decreases m, 3int, 0int,
{
    let len = b.len() as int;
    match m.key {
        KeyModel::String(k) => {
            let kl = k.len() as int;
            if kl <= len && b.subrange(0, kl) == k {
                let rest = b.subrange(kl, len);
                if kl < len {
                    match m.nodes0 {
                        Some(s0) => {
                            let i = slot(s0, byte_rank(rest[0]));
                            if 0 <= i < s0.len() {
                                lemma_find_within(s0[i], start + kl, rest);
                            }
                        },
                        None => {},
                    }
                }
                match m.nodes1 {
                    Some(s1) => lemma_params_within(s1, 0, start + kl, rest, kl < len, false),
                    None => {},
                }
            } else {
                match m.nodes1 {
                    Some(s1) => lemma_params_within(s1, 0, start, b, true, true),
                    None => {},
                }
            }
        },
        KeyModel::Parameter(k) => {
            if k == crate::parser::Kind::Normal || k == crate::parser::Kind::Optional
                || k == crate::parser::Kind::OptionalSegment {
                lemma_named_within(m, k, start, b);
            } else {
                lemma_rest_within(m, k, start, b);
            }
        },
    }
}

proof fn lemma_params_within<T>(
    s: Seq<NodeModel<T>>,
    i: int,
    start: int,
    b: Seq<u8>,
    has_more: bool,
    segments_only: bool,
)
    ensures
        found_within(try_params(s, i, start, b, has_more, segments_only), start, start + b.len()),
    decreases s, 0int, s.len() - i,
{
    if 0 <= i < s.len() {
        lemma_find_within(s[i], start, b);
        lemma_params_within(s, i + 1, start, b, has_more, segments_only);
    }
}

proof fn lemma_places_within<T>(kid: NodeModel<T>, start: int, b: Seq<u8>, pos: int, limit: int)
    ensures
        found_within(try_places(kid, start, b, pos, limit), start, start + b.len()),
    decreases kid, 4int, limit - pos,
{
    if 0 <= pos < limit && pos < b.len() {
        let sub = b.subrange(pos, b.len() as int);
        lemma_find_within(kid, start + pos, sub);
        lemma_within_wider(find_at(kid, start + pos, sub), start + pos, start + pos + sub.len(), start, start + b.len());
        lemma_with_range_within(find_at(kid, start + pos, sub), start, start + b.len(), start, start + pos);
        lemma_places_within(kid, start, b, pos + 1, limit);
    }
}

proof fn lemma_lit_within<T>(m: NodeModel<T>, start: int, b: Seq<u8>)
    ensures
        found_within(find_lit_at(m, start, b), start, start + b.len()),
    decreases m, 2int, 0int,
{
    if m.key is String {
        let k = m.key->String_0;
        let kl = k.len() as int;
        if kl < b.len() {
            let rest = b.subrange(kl, b.len() as int);
            match m.nodes0 {
                Some(s0) => {
                    let i = slot(s0, byte_rank(rest[0]));
                    if 0 <= i < s0.len() {
                        lemma_find_within(s0[i], start + kl, rest);
                        lemma_within_wider(find_at(s0[i], start + kl, rest), start + kl, start + kl + rest.len(), start, start + b.len());
                    }
                },
                None => {},
            }
        }
    }
}

proof fn lemma_places_lit_within<T>(kid: NodeModel<T>, start: int, b: Seq<u8>, pos: int, limit: int)
    ensures
        found_within(try_places_lit(kid, start, b, pos, limit), start, start + b.len()),
    decreases kid, 4int, limit - pos,
{
    if 0 <= pos < limit && pos < b.len() {
        let sub = b.subrange(pos, b.len() as int);
        lemma_lit_within(kid, start + pos, sub);
        lemma_within_wider(find_lit_at(kid, start + pos, sub), start + pos, start + pos + sub.len(), start, start + b.len());
        lemma_with_range_within(find_lit_at(kid, start + pos, sub), start, start + b.len(), start, start + pos);
        lemma_places_lit_within(kid, start, b, pos + 1, limit);
    }
}

proof fn lemma_literals_within<T>(s: Seq<NodeModel<T>>, i: int, start: int, b: Seq<u8>, mode: int)
    ensures
        found_within(try_literals(s, i, start, b, mode), start, start + b.len()),
    decreases s, 0int, s.len() - i,
{
    if 0 <= i < s.len() {
        lemma_places_within(s[i], start, b, 0, name_limit(b));
        lemma_places_within(s[i], start, b, 0, b.len() as int);
        lemma_places_within(s[i], start, b, 1, name_limit(b));
        lemma_places_within(s[i], start, b, 1, b.len() as int);
        lemma_places_lit_within(s[i], start, b, 1, b.len() as int);
        lemma_literals_within(s, i + 1, start, b, mode);
    }
}

proof fn lemma_named_within<T>(m: NodeModel<T>, k: crate::parser::Kind, start: int, b: Seq<u8>)
    ensures
        found_within(find_named(m, k, start, b), start, start + b.len()),
    decreases m, 1int, 0int,
{
    let len = b.len() as int;
    match m.nodes0 {
        Some(s) => {
            lemma_literals_within(s, 0, start, b, if k == crate::parser::Kind::Normal { 0int } else { 3int });
            if s.len() > 0 {
                let slash = first_slash(b, 0);
                lemma_first_slash_bounds(b, 0);
                let b2 = if slash < len {
                    b.subrange(slash, len)
                } else {
                    Seq::<u8>::empty()
                };
                let last = s[s.len() - 1];
                lemma_find_within(last, start, b2);
                lemma_within_wider(find_at(last, start, b2), start, start + b2.len(), start, start + len);
                lemma_with_range_within(find_at(last, start, b2), start, start + len, start, start + len);
            }
        },
        None => {},
    }
    match m.nodes1 {
        Some(s) => {
            if len > 0 {
                let sub = b.subrange(1, len);
                lemma_params_within(s, 0, start + 1, sub, len - 1 > 0, false);
                let f = try_params(s, 0, start + 1, sub, len - 1 > 0, false);
                lemma_within_wider(f, start + 1, start + len, start, start + len);
                lemma_with_range_within(f, start, start + len, start, start + 1);
            }
            lemma_params_within(s, 0, start, b, len > 0, false);
            lemma_with_range_within(try_params(s, 0, start, b, len > 0, false), start, start + len, start + len, start + len);
        },
        None => {},
    }
}

proof fn lemma_rest_within<T>(m: NodeModel<T>, k: crate::parser::Kind, start: int, b: Seq<u8>)
    ensures
        found_within(find_rest(m, k, start, b), start, start + b.len()),
    decreases m, 1int, 0int,
{
    let len = b.len() as int;
    match m.nodes0 {
        Some(s) => {
            lemma_literals_within(s, 0, start, b, if k == crate::parser::Kind::OneOrMore { 1int } else { 2int });
            if s.len() > 0 {
                let last = s[s.len() - 1];
                lemma_find_within(last, start, b);
                lemma_with_range_within(find_at(last, start, b), start, start + len, start + len, start + len);
            }
        },
        None => {},
    }
}

/// The first `/` of a piece without one is past its end.
proof fn lemma_no_slash(b: Seq<u8>, i: int)
    requires
        0 <= i <= b.len(),
        forall|j: int| 0 <= j < b.len() ==> b[j] != crate::bytes::SLASH,
    ensures
        first_slash(b, i) == b.len(),
    decreases b.len() - i,
{
    if i < b.len() {
        lemma_no_slash(b, i + 1);
    }
}

/// A node with the literal key `s` and one `:name` parameter child holding
/// `v` matches `s` followed by any non-empty piece without `/`, and captures
/// that piece.
pub proof fn law_single_param<T>(s: Seq<u8>, v: T, piece: Seq<u8>)
    requires
        s.len() > 0,
        piece.len() > 0,
        forall|j: int| 0 <= j < piece.len() ==> piece[j] != crate::bytes::SLASH,
    ensures
        ({
            let param = NodeModel {
                key: KeyModel::Parameter(crate::parser::Kind::Normal),
                value: Some(v),
                nodes0: None,
                nodes1: None,
            };
            let m = NodeModel { key: KeyModel::String(s), value: None, nodes0: None, nodes1: Some(seq![param]) };
            find_at(m, 0, s + piece) == Some((v, seq![(s.len() as int, (s.len() + piece.len()) as int)]))
        }),
{
    let param = NodeModel {
        key: KeyModel::Parameter(crate::parser::Kind::Normal),
        value: Some(v),
        nodes0: None,
        nodes1: None,
    };
    let m = NodeModel { key: KeyModel::String(s), value: None, nodes0: None, nodes1: Some(seq![param]) };
    let b = s + piece;
    let n = s.len() as int;
    assert(b.subrange(0, n) =~= s);
    assert(b.subrange(n, b.len() as int) =~= piece);
    lemma_no_slash(piece, 0);
    let r = Some((v, seq![(n, n + piece.len())]));
    assert(find_named(param, crate::parser::Kind::Normal, n, piece) == value_with(param, n, n + piece.len()));
    assert(find_at(param, n, piece) == r);
    assert(try_params(seq![param], 1, n, piece, true, false) is None);
    assert(try_params(seq![param], 0, n, piece, true, false) == r);
}

/// The range a match recorded last starts at `start` and is not empty.
pub open spec fn last_nonempty<T>(f: Found<T>, start: int) -> bool {
    f matches Some((_, p)) ==> p.len() > 0 && p.last().0 == start && p.last().1 > start
}

proof fn lemma_places_last<T>(kid: NodeModel<T>, start: int, b: Seq<u8>, from: int, limit: int)
    requires
        from >= 1,
    ensures
        last_nonempty(try_places(kid, start, b, from, limit), start),
    decreases limit - from,
{
    if 0 <= from < limit && from < b.len() {
        lemma_places_last(kid, start, b, from + 1, limit);
    }
}

proof fn lemma_places_lit_last<T>(kid: NodeModel<T>, start: int, b: Seq<u8>, from: int, limit: int)
    requires
        from >= 1,
    ensures
        last_nonempty(try_places_lit(kid, start, b, from, limit), start),
    decreases limit - from,
{
    if 0 <= from < limit && from < b.len() {
        lemma_places_lit_last(kid, start, b, from + 1, limit);
    }
}

proof fn lemma_literals_last<T>(s: Seq<NodeModel<T>>, i: int, start: int, b: Seq<u8>, mode: int)
    requires
        mode == 0 || mode == 1,
    ensures
        last_nonempty(try_literals(s, i, start, b, mode), start),
    decreases s.len() - i,
{
    if 0 <= i < s.len() {
        lemma_places_last(s[i], start, b, 1, name_limit(b));
        lemma_places_last(s[i], start, b, 1, b.len() as int);
        lemma_places_lit_last(s[i], start, b, 1, b.len() as int);
        lemma_literals_last(s, i + 1, start, b, mode);
    }
}

/// A `:name` parameter captures at least one byte: matching at a `:name`
/// node records, last, a non-empty range that starts where the node starts.
pub proof fn law_named_nonempty<T>(m: NodeModel<T>, start: int, b: Seq<u8>)
    ensures
        last_nonempty(find_named(m, crate::parser::Kind::Normal, start, b), start),
{
    match m.nodes0 {
        Some(s) => lemma_literals_last(s, 0, start, b, 0),
        None => {},
    }
}

/// A `+` parameter captures at least one byte: matching at a `+` node
/// records, last, a non-empty range that starts where the node starts.
pub proof fn law_one_or_more_nonempty<T>(m: NodeModel<T>, start: int, b: Seq<u8>)
    ensures
        last_nonempty(find_rest(m, crate::parser::Kind::OneOrMore, start, b), start),
{
    match m.nodes0 {
        Some(s) => lemma_literals_last(s, 0, start, b, 1),
        None => {},
    }
}

/// The range a match recorded last starts at `start`, is not empty, and
/// covers no `/` of `b` (which starts at `start`).
pub open spec fn last_plain<T>(f: Found<T>, start: int, b: Seq<u8>) -> bool {
    f matches Some((_, p)) ==> {
        &&& p.len() > 0
        &&& p.last().0 == start
        &&& p.last().1 > start
        &&& forall|j: int| 0 <= j < p.last().1 - start ==> b[j] != crate::bytes::SLASH
    }
}

proof fn lemma_before_slash(b: Seq<u8>, i: int, j: int)
    requires
        0 <= i <= j < first_slash(b, i),
        j < b.len(),
    ensures
        b[j] != crate::bytes::SLASH,
    decreases b.len() - i,
{
    if i < j {
        assert(b[i] != crate::bytes::SLASH);
        lemma_before_slash(b, i + 1, j);
    }
}

proof fn lemma_places_plain<T>(kid: NodeModel<T>, start: int, b: Seq<u8>, from: int)
    requires
        from >= 1,
    ensures
        last_plain(try_places(kid, start, b, from, name_limit(b)), start, b),
    decreases name_limit(b) - from,
{
    lemma_first_slash_bounds(b, 0);
    if 0 <= from < name_limit(b) && from < b.len() {
        assert forall|j: int| 0 <= j < from implies b[j] != crate::bytes::SLASH by {
            lemma_before_slash(b, 0, j);
        }
        lemma_places_plain(kid, start, b, from + 1);
    }
}

proof fn lemma_literals_plain<T>(s: Seq<NodeModel<T>>, i: int, start: int, b: Seq<u8>)
    ensures
        last_plain(try_literals(s, i, start, b, 0), start, b),
    decreases s.len() - i,
{
    if 0 <= i < s.len() {
        lemma_places_plain(s[i], start, b, 1);
        lemma_literals_plain(s, i + 1, start, b);
    }
}

/// A `:name` parameter captures a piece without `/`: matching at a `:name`
/// node records, last, a non-empty range that starts where the node starts
/// and covers no `/`.
pub proof fn law_named_plain<T>(m: NodeModel<T>, start: int, b: Seq<u8>)
    ensures
        last_plain(find_named(m, crate::parser::Kind::Normal, start, b), start, b),
{
    match m.nodes0 {
        Some(s) => lemma_literals_plain(s, 0, start, b),
        None => {},
    }
    lemma_first_slash_bounds(b, 0);
    if first_slash(b, 0) >= b.len() {
        assert forall|j: int| 0 <= j < b.len() implies b[j] != crate::bytes::SLASH by {
            lemma_before_slash(b, 0, j);
        }
    }
}

} // verus!
