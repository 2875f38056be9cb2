//! Matching a path against the tree.
//!
//! [`find_at`] says, over the model of a node, which value a path reaches and
//! which byte ranges its parameters capture: literal children are tried
//! before parameter children, and each kind of parameter tries the places
//! where it may end in a fixed order. [`Node::find`] is proved to give exactly
//! that result.
use vstd::prelude::*;

use crate::bytes::SLASH;
use crate::find_path::param_nodes;
use crate::node::{
    at, byte_index, byte_rank, child_rank, kids, lemma_models, lemma_wf_kid, model, models, rank,
    slot, wf, Key, KeyModel, Node, NodeModel, Step,
};
use crate::tree_laws::valid_path;
use crate::parser::Kind;
use crate::small::{ranges_of, Ranges};

verus! {

/// A value reached and the ranges captured on the way, in the order in which
/// they were recorded (the deepest parameter first).
pub type Found<T> = Option<(T, Seq<(int, int)>)>;

/// `r` with the range `(a, b)` recorded after the others.
pub open spec fn with_range<T>(r: Found<T>, a: int, b: int) -> Found<T> {
    match r {
        Some((v, p)) => Some((v, p.push((a, b)))),
        None => None,
    }
}

/// The value of `m`, reached with one range `(a, b)`.
pub open spec fn value_with<T>(m: NodeModel<T>, a: int, b: int) -> Found<T> {
    match m.value {
        Some(v) => Some((v, seq![(a, b)])),
        None => None,
    }
}

/// The first byte of a literal key.
pub open spec fn first_byte<T>(m: NodeModel<T>) -> u8 {
    match m.key {
        KeyModel::String(s) => s[0],
        KeyModel::Parameter(_) => 0,
    }
}

/// The length of a literal key.
pub open spec fn key_len<T>(m: NodeModel<T>) -> int {
    match m.key {
        KeyModel::String(s) => s.len() as int,
        KeyModel::Parameter(_) => 0,
    }
}

/// A parameter child may be tried: segment kinds only when `segments_only`;
/// otherwise `:name` and `+` only when bytes remain.
pub open spec fn param_ok<T>(m: NodeModel<T>, has_more: bool, segments_only: bool) -> bool {
    match m.key {
        KeyModel::Parameter(k) => if segments_only {
            k == Kind::OptionalSegment || k == Kind::ZeroOrMoreSegment
        } else {
            !(k == Kind::Normal || k == Kind::OneOrMore) || has_more
        },
        KeyModel::String(_) => !segments_only,
    }
}

/// The index of the first `/` in `b` from `i` on, or the length of `b`.
pub open spec fn first_slash(b: Seq<u8>, i: int) -> int
    decreases b.len() - i,
{
    if i < 0 || i >= b.len() {
        b.len() as int
    } else if b[i] == SLASH {
        i
    } else {
        first_slash(b, i + 1)
    }
}

/// How far a `:name` may reach: up to and including the first `/`.
pub open spec fn name_limit(b: Seq<u8>) -> int {
    if first_slash(b, 0) < b.len() {
        first_slash(b, 0) + 1
    } else {
        b.len() as int
    }
}

/// Tries the parameter children `s[i..]` in order on `b` at `start`.
pub open spec fn try_params<T>(
    s: Seq<NodeModel<T>>,
    i: int,
    start: int,
    b: Seq<u8>,
    has_more: bool,
    segments_only: bool,
) -> Found<T>
    decreases s, 0int, s.len() - i,
{
    if i < 0 || i >= s.len() {
        None
    } else {
        let r = if param_ok(s[i], has_more, segments_only) {
            find_at(s[i], start, b)
        } else {
            None
        };
        if r is Some {
            r
        } else {
            try_params(s, i + 1, start, b, has_more, segments_only)
        }
    }
}

/// Tries the literal child `kid` at each place `n` in `[n, limit)` where `b`
/// holds its first byte; the bytes before `n` are captured.
pub open spec fn try_places<T>(kid: NodeModel<T>, start: int, b: Seq<u8>, n: int, limit: int) -> Found<T>
    decreases kid, 4int, limit - n,
{
    if n < 0 || n >= limit || n >= b.len() {
        None
    } else {
        let r = if b[n] == first_byte(kid) {
            with_range(find_at(kid, start + n, b.subrange(n, b.len() as int)), start, start + n)
        } else {
            None
        };
        if r is Some {
            r
        } else {
            try_places(kid, start, b, n + 1, limit)
        }
    }
}

/// Matching `b` at the literal node `m` through its key and its literal
/// children only, leaving out its own parameter children.
pub open spec fn find_lit_at<T>(m: NodeModel<T>, start: int, b: Seq<u8>) -> Found<T>
    decreases m, 2int, 0int,
{
    let len = b.len() as int;
    match m.key {
        KeyModel::String(s) => {
            let n = s.len() as int;
            if n <= len && b.subrange(0, n) == s {
                let rest = b.subrange(n, len);
                if n == len {
                    match m.value {
                        Some(v) => Some((v, Seq::<(int, int)>::empty())),
                        None => None,
                    }
                } else {
                    match m.nodes0 {
                        Some(s0) => {
                            let i = slot(s0, byte_rank(rest[0]));
                            if 0 <= i < s0.len() && rank(s0[i]) == byte_rank(rest[0]) {
                                find_at(s0[i], start + n, rest)
                            } else {
                                None
                            }
                        },
                        None => None,
                    }
                }
            } else {
                None
            }
        },
        KeyModel::Parameter(_) => None,
    }
}

/// Like [`try_places`], but the literal child `kid` may not hand the rest
/// over to its own parameter children.
pub open spec fn try_places_lit<T>(kid: NodeModel<T>, start: int, b: Seq<u8>, n: int, limit: int) -> Found<T>
    decreases kid, 4int, limit - n,
{
    if n < 0 || n >= limit || n >= b.len() {
        None
    } else {
        let r = if b[n] == first_byte(kid) {
            with_range(find_lit_at(kid, start + n, b.subrange(n, b.len() as int)), start, start + n)
        } else {
            None
        };
        if r is Some {
            r
        } else {
            try_places_lit(kid, start, b, n + 1, limit)
        }
    }
}

/// Tries the literal children `s[i..]` after a parameter. For `:name`
/// (`mode == 0`) and `:name?` (`mode == 3`) the parameter may reach up to the
/// first `/`; for `+` (`mode == 1`) and `*` (`mode == 2`) it may reach anywhere
/// that leaves room for the child's key (more than its length for `+`). A
/// `:name` or `+` parameter takes at least one byte, as it is not optional.
/// A `+` first tries every place where the child goes on through literal
/// keys alone, and only then the places where the child hands the rest over
/// to its own parameters.
pub open spec fn try_literals<T>(s: Seq<NodeModel<T>>, i: int, start: int, b: Seq<u8>, mode: int) -> Found<T>
    decreases s, 0int, s.len() - i,
{
    if i < 0 || i >= s.len() {
        None
    } else {
        let kid = s[i];
        let from = if mode == 0 || mode == 1 {
            1int
        } else {
            0int
        };
        let r = if mode == 0 || mode == 3 {
            try_places(kid, start, b, from, name_limit(b))
        } else if (mode == 1 && b.len() > key_len(kid)) || (mode != 1 && b.len() >= key_len(kid)) {
            let first = if mode == 1 {
                try_places_lit(kid, start, b, from, b.len() as int)
            } else {
                None
            };
            if first is Some {
                first
            } else {
                try_places(kid, start, b, from, b.len() as int)
            }
        } else {
            None
        };
        if r is Some {
            r
        } else {
            try_literals(s, i + 1, start, b, mode)
        }
    }
}

/// Matching at a parameter node of kind `:name`, `:name?` or `/:name?/`.
/// When parameter children follow directly (`:a:b`), the parameter may take
/// just the first byte and hand the rest on, unless that byte is `/`.
pub open spec fn find_named<T>(m: NodeModel<T>, k: Kind, start: int, b: Seq<u8>) -> Found<T>
    decreases m, 1int, 0int,
{
    let len = b.len() as int;
    let leafy = m.nodes0 is None && m.nodes1 is None;
    if len == 0 && k == Kind::Normal {
        None
    } else if len == 0 && leafy {
        value_with(m, start, start)
    } else {
        let early = if len == 0 {
            None
        } else {
            let lit = match m.nodes0 {
                Some(s) => try_literals(s, 0, start, b, if k == Kind::Normal { 0int } else { 3int }),
                None => None,
            };
            if lit is Some {
                lit
            } else {
                match m.nodes1 {
                    Some(s) => if b[0] != SLASH {
                        with_range(
                            try_params(s, 0, start + 1, b.subrange(1, len), len - 1 > 0, false),
                            start,
                            start + 1,
                        )
                    } else {
                        None
                    },
                    None => None,
                }
            }
        };
        if early is Some {
            early
        } else {
            let opt = if k == Kind::Optional || k == Kind::OptionalSegment {
                match m.nodes1 {
                    Some(s) => with_range(try_params(s, 0, start, b, len > 0, false), start + len, start + len),
                    None => None,
                }
            } else {
                None
            };
            if opt is Some {
                opt
            } else {
                let slash = first_slash(b, 0);
                if slash >= len && m.value is Some {
                    value_with(m, start, start + len)
                } else {
                    let b2 = if slash < len {
                        b.subrange(slash, len)
                    } else {
                        Seq::<u8>::empty()
                    };
                    if k == Kind::OptionalSegment {
                        match m.nodes0 {
                            Some(s) => if s.len() > 0 && first_byte(s[s.len() - 1]) == SLASH {
                                with_range(find_at(s[s.len() - 1], start, b2), start, start + len)
                            } else {
                                None
                            },
                            None => None,
                        }
                    } else {
                        None
                    }
                }
            }
        }
    }
}

/// Matching at a parameter node of kind `+`, `*` or `/*/`.
pub open spec fn find_rest<T>(m: NodeModel<T>, k: Kind, start: int, b: Seq<u8>) -> Found<T>
    decreases m, 1int, 0int,
{
    let len = b.len() as int;
    let leafy = m.nodes0 is None && m.nodes1 is None;
    if len == 0 && k == Kind::OneOrMore {
        None
    } else if len == 0 && leafy {
        value_with(m, start, start)
    } else if len > 0 && leafy && m.value is Some {
        value_with(m, start, start + len)
    } else {
        let lit = if len > 0 {
            match m.nodes0 {
                Some(s) => try_literals(s, 0, start, b, if k == Kind::OneOrMore { 1int } else { 2int }),
                None => None,
            }
        } else {
            None
        };
        if lit is Some {
            lit
        } else if k == Kind::ZeroOrMoreSegment {
            match m.nodes0 {
                Some(s) => if s.len() > 0 && first_byte(s[s.len() - 1]) == SLASH {
                    with_range(find_at(s[s.len() - 1], start, b), start + len, start + len)
                } else {
                    None
                },
                None => None,
            }
        } else {
            None
        }
    }
}

/// What matching `b` (which starts at `start` in the whole path) at `m` gives:
/// the value reached and the ranges captured, or `None`.
pub open spec fn find_at<T>(m: NodeModel<T>, start: int, b: Seq<u8>) -> Found<T>
    decreases m, 3int, 0int,
{
    let len = b.len() as int;
    match m.key {
        KeyModel::String(s) => {
            let n = s.len() as int;
            if n <= len && b.subrange(0, n) == s {
                let rest = b.subrange(n, len);
                let here = if n == len {
                    match m.value {
                        Some(v) => Some((v, Seq::<(int, int)>::empty())),
                        None => None,
                    }
                } else {
                    None
                };
                if here is Some {
                    here
                } else {
                    let lit = if n < len {
                        match m.nodes0 {
                            Some(s0) => {
                                let i = slot(s0, byte_rank(rest[0]));
                                if 0 <= i < s0.len() && rank(s0[i]) == byte_rank(rest[0]) {
                                    find_at(s0[i], start + n, rest)
                                } else {
                                    None
                                }
                            },
                            None => None,
                        }
                    } else {
                        None
                    };
                    if lit is Some {
                        lit
                    } else {
                        match m.nodes1 {
                            Some(s1) => try_params(s1, 0, start + n, rest, n < len, false),
                            None => None,
                        }
                    }
                }
            } else if n == 1 && s[0] == SLASH {
                match m.nodes1 {
                    Some(s1) => try_params(s1, 0, start, b, true, true),
                    None => None,
                }
            } else {
                None
            }
        },
        KeyModel::Parameter(k) => {
            if k == Kind::Normal || k == Kind::Optional || k == Kind::OptionalSegment {
                find_named(m, k, start, b)
            } else {
                find_rest(m, k, start, b)
            }
        },
    }
}


/// No path below `m` holds more than `h` nodes.
pub open spec fn height_within<T>(m: NodeModel<T>, h: nat) -> bool
    decreases m,
{
    &&& h >= 1
    &&& forall|i: int|
        0 <= i < kids(m, false).len() ==> height_within(#[trigger] m.nodes0->Some_0[i], (h - 1) as nat)
    &&& forall|i: int|
        0 <= i < kids(m, true).len() ==> height_within(#[trigger] m.nodes1->Some_0[i], (h - 1) as nat)
}

/// The deepest tree that matching may walk down (each level records at most one range).
pub open spec fn max_height() -> nat {
    (usize::MAX / 64) as nat
}

pub proof fn lemma_height_kid<T>(m: NodeModel<T>, h: nat, params: bool, i: int)
    requires
        height_within(m, h),
        0 <= i < kids(m, params).len(),
    ensures
        h >= 2,
        height_within(kids(m, params)[i], (h - 1) as nat),
{
    if params {
        assert(kids(m, params)[i] == m.nodes1->Some_0[i]);
        assert(height_within(m.nodes1->Some_0[i], (h - 1) as nat));
    } else {
        assert(kids(m, params)[i] == m.nodes0->Some_0[i]);
        assert(height_within(m.nodes0->Some_0[i], (h - 1) as nat));
    }
}

/// Ranges as pairs of integers.
pub open spec fn as_ints(s: Seq<(usize, usize)>) -> Seq<(int, int)> {
    s.map_values(|r: (usize, usize)| (r.0 as int, r.1 as int))
}

/// A call that gave `r` and took the recorded ranges from `before` to
/// `after` did what `f` says.
pub open spec fn outcome<T>(r: Option<&T>, f: Found<T>, before: Ranges, after: Ranges) -> bool {
    match f {
        Some((v, p)) => r is Some && *r.unwrap() == v && as_ints(ranges_of(after)) == as_ints(
            ranges_of(before),
        ) + p,
        None => r is None && ranges_of(after) == ranges_of(before),
    }
}

proof fn lemma_outcome_push<T>(
    r: Option<&T>,
    f: Found<T>,
    before: Ranges,
    mid: Ranges,
    after: Ranges,
    a: usize,
    b: usize,
)
    requires
        f is Some,
        outcome(r, f, before, mid),
        ranges_of(after) == ranges_of(mid).push((a, b)),
    ensures
        outcome(r, with_range(f, a as int, b as int), before, after),
{
    let p = f->Some_0.1;
    assert(as_ints(ranges_of(after)) =~= as_ints(ranges_of(mid)).push((a as int, b as int)));
    assert(as_ints(ranges_of(before)) + p.push((a as int, b as int)) =~= (as_ints(ranges_of(before))
        + p).push((a as int, b as int)));
}

proof fn lemma_outcome_value<T>(r: Option<&T>, v: T, before: Ranges, after: Ranges, a: usize, b: usize)
    requires
        r is Some && *r.unwrap() == v,
        ranges_of(after) == ranges_of(before).push((a, b)),
    ensures
        outcome(r, Some((v, seq![(a as int, b as int)])), before, after),
{
    assert(as_ints(ranges_of(after)) =~= as_ints(ranges_of(before)) + seq![(a as int, b as int)]);
}

/// `bytes` starts with `key`.
fn starts_with(key: &[u8], bytes: &[u8]) -> (b: bool)
    requires
        key@.len() <= bytes@.len(),
    ensures
        b == (bytes@.subrange(0, key@.len() as int) == key@),
{
    let mut i: usize = 0;
    while i < key.len()
        invariant
            i <= key@.len() <= bytes@.len(),
            forall|j: int| 0 <= j < i ==> key@[j] == bytes@[j],
        decreases key.len() - i,
    {
        if key[i] != bytes[i] {
            assert(bytes@.subrange(0, key@.len() as int)[i as int] != key@[i as int]);
            return false;
        }
        i = i + 1;
    }
    assert(bytes@.subrange(0, key@.len() as int) =~= key@);
    true
}

/// The index of the first `/` in `b`, or its length.
fn find_slash(b: &[u8]) -> (i: usize)
    ensures
        i == first_slash(b@, 0),
{
    let mut i: usize = 0;
    while i < b.len() && b[i] != SLASH
        invariant
            i <= b@.len(),
            first_slash(b@, i as int) == first_slash(b@, 0),
        decreases b.len() - i,
    {
        i = i + 1;
    }
    i
}

impl<T> Node<T> {
    /// Tries the parameter children in order.
    fn try_params_at<'a>(
        &'a self,
        start: usize,
        bytes: &[u8],
        has_more: bool,
        segments_only: bool,
        ranges: &mut Ranges,
        Ghost(h): Ghost<nat>,
    ) -> (r: Option<&'a T>)
        requires
            wf(self@),
            height_within(self@, h),
            ranges_of(*old(ranges)).len() + h <= max_height(),
            start + bytes@.len() <= usize::MAX,
        ensures
            outcome(
                r,
                match self@.nodes1 {
                    Some(s) => try_params(s, 0, start as int, bytes@, has_more, segments_only),
                    None => None,
                },
                *old(ranges),
                *final(ranges),
            ),
            ranges_of(*final(ranges)).len() < ranges_of(*old(ranges)).len() + h,
        decreases self@, 1int, 0int,
    {
        match &self.nodes1 {
            None => None,
            Some(nodes) => {
                let ghost s = kids(self@, true);
                proof {
                    lemma_models(nodes@, nodes@.len());
                }
                let mut i: usize = 0;
                while i < nodes.len()
                    invariant
                        s == kids(self@, true),
                        s == models(nodes@, nodes@.len()),
                        s.len() == nodes@.len(),
                        self@.nodes1 == Some(s),
                        forall|j: int| 0 <= j < s.len() ==> #[trigger] s[j] == model(nodes@[j]),
                        wf(self@),
                        height_within(self@, h),
                        i <= s.len(),
                        ranges_of(*ranges) == ranges_of(*old(ranges)),
                        ranges_of(*old(ranges)).len() + h <= max_height(),
                        start + bytes@.len() <= usize::MAX,
                        try_params(s, i as int, start as int, bytes@, has_more, segments_only)
                            == try_params(s, 0, start as int, bytes@, has_more, segments_only),
                    decreases nodes.len() - i,
                {
                    let kid = &nodes[i];
                    let ok = match &kid.key {
                        Key::Parameter(k) => if segments_only {
                            *k == Kind::OptionalSegment || *k == Kind::ZeroOrMoreSegment
                        } else {
                            !(*k == Kind::Normal || *k == Kind::OneOrMore) || has_more
                        },
                        Key::String(_) => !segments_only,
                    };
                    assert(ok == param_ok(s[i as int], has_more, segments_only));
                    if ok {
                        proof {
                            lemma_wf_kid(self@, true, i as int);
                            lemma_height_kid(self@, h, true, i as int);
                        }
                        let r = kid.find_from(start, bytes, ranges, Ghost((h - 1) as nat));
                        if r.is_some() {
                            return r;
                        }
                    }
                    i = i + 1;
                }
                None
            },
        }
    }

    /// Tries this literal node at each place in `[from, limit)` where `bytes`
    /// holds its first byte; what comes before the place is captured.
    fn try_places_at<'a>(
        &'a self,
        start: usize,
        bytes: &[u8],
        from: usize,
        limit: usize,
        ranges: &mut Ranges,
        Ghost(h): Ghost<nat>,
    ) -> (r: Option<&'a T>)
        requires
            wf(self@),
            self@.key matches KeyModel::String(k) && k.len() > 0,
            h >= 1,
            height_within(self@, (h - 1) as nat),
            ranges_of(*old(ranges)).len() + h <= max_height(),
            start + bytes@.len() <= usize::MAX,
            limit <= bytes@.len(),
        ensures
            outcome(r, try_places(self@, start as int, bytes@, from as int, limit as int), *old(ranges), *final(ranges)),
            ranges_of(*final(ranges)).len() <= ranges_of(*old(ranges)).len() + h,
        decreases self@, 4int, 0int,
    {
        let first = match &self.key {
            Key::String(k) => k[0],
            Key::Parameter(_) => 0,
        };
        let len = bytes.len();
        let mut n: usize = from;
        while n < limit
            invariant
                wf(self@),
                h >= 1,
                height_within(self@, (h - 1) as nat),
                first == first_byte(self@),
                len == bytes@.len(),
                from <= n,
                n <= limit || n == from,
                limit <= len,
                ranges_of(*ranges) == ranges_of(*old(ranges)),
                ranges_of(*old(ranges)).len() + h <= max_height(),
                start + bytes@.len() <= usize::MAX,
                try_places(self@, start as int, bytes@, n as int, limit as int) == try_places(
                    self@,
                    start as int,
                    bytes@,
                    from as int,
                    limit as int,
                ),
            decreases limit - n,
        {
            if bytes[n] == first {
                let tail = vstd::slice::slice_subrange(bytes, n, len);
                let ghost mid0 = *ranges;
                let r = self.find_from(start + n, tail, ranges, Ghost((h - 1) as nat));
                if r.is_some() {
                    let ghost mid1 = *ranges;
                    ranges.push(start, start + n);
                    proof {
                        lemma_outcome_push(
                            r,
                            find_at(self@, (start + n) as int, tail@),
                            mid0,
                            mid1,
                            *ranges,
                            start,
                            (start + n) as usize,
                        );
                    }
                    return r;
                }
            }
            n = n + 1;
        }
        None
    }

    /// Matching `bytes` at this literal node through its key and literal
    /// children only (see [`find_lit_at`]).
    fn find_lit_from<'a>(&'a self, start: usize, bytes: &[u8], ranges: &mut Ranges, Ghost(h): Ghost<nat>) -> (r: Option<&'a T>)
        requires
            wf(self@),
            height_within(self@, h),
            ranges_of(*old(ranges)).len() + h <= max_height(),
            start + bytes@.len() <= usize::MAX,
        ensures
            outcome(r, find_lit_at(self@, start as int, bytes@), *old(ranges), *final(ranges)),
            ranges_of(*final(ranges)).len() <= ranges_of(*old(ranges)).len() + h,
        decreases self@, 2int, 0int,
    {
        let len = bytes.len();
        match &self.key {
            Key::String(key) => {
                let n = key.len();
                if n <= len && starts_with(key, bytes) {
                    let rest = vstd::slice::slice_subrange(bytes, n, len);
                    if n == len {
                        match &self.value {
                            Some(id) => {
                                proof {
                                    assert(as_ints(ranges_of(*ranges)) =~= as_ints(ranges_of(*ranges)) + Seq::<(int, int)>::empty());
                                    crate::find_path::lemma_outcome_path(self@, start as int, bytes@, Some(id), *old(ranges), *ranges);
                                }
                                return Some(id);
                            },
                            None => {},
                        }
                    } else {
                        match &self.nodes0 {
                            Some(nodes) => {
                                proof {
                                    lemma_models(nodes@, nodes@.len());
                                }
                                let b0 = byte_index(rest[0]);
                                assert(models(nodes@, nodes@.len()) == kids(self@, false));
                                let i = crate::node::search_byte(nodes, rest[0]);
                                if i < nodes.len() && child_rank(&nodes[i]) == b0 {
                                    proof {
                                        lemma_wf_kid(self@, false, i as int);
                                        lemma_height_kid(self@, h, false, i as int);
                                    }
                                    return nodes[i].find_from(start + n, rest, ranges, Ghost((h - 1) as nat));
                                }
                            },
                            None => {},
                        }
                    }
                }
                None
            },
            Key::Parameter(_) => None,
        }
    }

    /// Like [`Node::try_places_at`], through [`Node::find_lit_from`] (see [`try_places_lit`]).
    fn try_places_lit_at<'a>(
        &'a self,
        start: usize,
        bytes: &[u8],
        from: usize,
        limit: usize,
        ranges: &mut Ranges,
        Ghost(h): Ghost<nat>,
    ) -> (r: Option<&'a T>)
        requires
            wf(self@),
            self@.key matches KeyModel::String(k) && k.len() > 0,
            h >= 1,
            height_within(self@, (h - 1) as nat),
            ranges_of(*old(ranges)).len() + h <= max_height(),
            start + bytes@.len() <= usize::MAX,
            limit <= bytes@.len(),
        ensures
            outcome(r, try_places_lit(self@, start as int, bytes@, from as int, limit as int), *old(ranges), *final(ranges)),
            ranges_of(*final(ranges)).len() <= ranges_of(*old(ranges)).len() + h,
        decreases self@, 4int, 0int,
    {
        let first = match &self.key {
            Key::String(k) => k[0],
            Key::Parameter(_) => 0,
        };
        let len = bytes.len();
        let mut n: usize = from;
        while n < limit
            invariant
                wf(self@),
                h >= 1,
                height_within(self@, (h - 1) as nat),
                first == first_byte(self@),
                len == bytes@.len(),
                from <= n,
                n <= limit || n == from,
                limit <= len,
                ranges_of(*ranges) == ranges_of(*old(ranges)),
                ranges_of(*old(ranges)).len() + h <= max_height(),
                start + bytes@.len() <= usize::MAX,
                try_places_lit(self@, start as int, bytes@, n as int, limit as int) == try_places_lit(
                    self@,
                    start as int,
                    bytes@,
                    from as int,
                    limit as int,
                ),
            decreases limit - n,
        {
            if bytes[n] == first {
                let tail = vstd::slice::slice_subrange(bytes, n, len);
                let ghost mid0 = *ranges;
                let r = self.find_lit_from(start + n, tail, ranges, Ghost((h - 1) as nat));
                if r.is_some() {
                    let ghost mid1 = *ranges;
                    ranges.push(start, start + n);
                    proof {
                        lemma_outcome_push(
                            r,
                            find_lit_at(self@, (start + n) as int, tail@),
                            mid0,
                            mid1,
                            *ranges,
                            start,
                            (start + n) as usize,
                        );
                    }
                    return r;
                }
            }
            n = n + 1;
        }
        None
    }

    /// Tries the literal children in order, after a parameter (see [`try_literals`]).
    fn try_literals_at<'a>(
        &'a self,
        start: usize,
        bytes: &[u8],
        mode: u8,
        ranges: &mut Ranges,
        Ghost(h): Ghost<nat>,
    ) -> (r: Option<&'a T>)
        requires
            wf(self@),
            height_within(self@, h),
            ranges_of(*old(ranges)).len() + h <= max_height(),
            start + bytes@.len() <= usize::MAX,
        ensures
            outcome(
                r,
                match self@.nodes0 {
                    Some(s) => try_literals(s, 0, start as int, bytes@, mode as int),
                    None => None,
                },
                *old(ranges),
                *final(ranges),
            ),
            ranges_of(*final(ranges)).len() <= ranges_of(*old(ranges)).len() + h,
        decreases self@, 1int, 0int,
    {
        match &self.nodes0 {
            None => None,
            Some(nodes) => {
                let ghost s = kids(self@, false);
                proof {
                    lemma_models(nodes@, nodes@.len());
                }
                let len = bytes.len();
                let limit0 = if mode == 0 || mode == 3 {
                    let sl = find_slash(bytes);
                    if sl < len {
                        sl + 1
                    } else {
                        len
                    }
                } else {
                    len
                };
                let mut i: usize = 0;
                while i < nodes.len()
                    invariant
                        s == kids(self@, false),
                        s == models(nodes@, nodes@.len()),
                        s.len() == nodes@.len(),
                        self@.nodes0 == Some(s),
                        forall|j: int| 0 <= j < s.len() ==> #[trigger] s[j] == model(nodes@[j]),
                        wf(self@),
                        height_within(self@, h),
                        i <= s.len(),
                        len == bytes@.len(),
                        mode == 0 || mode == 3 ==> limit0 == name_limit(bytes@),
                        limit0 <= len,
                        ranges_of(*ranges) == ranges_of(*old(ranges)),
                        ranges_of(*old(ranges)).len() + h <= max_height(),
                        start + bytes@.len() <= usize::MAX,
                        try_literals(s, i as int, start as int, bytes@, mode as int) == try_literals(
                            s,
                            0,
                            start as int,
                            bytes@,
                            mode as int,
                        ),
                    decreases nodes.len() - i,
                {
                    let kid = &nodes[i];
                    proof {
                        lemma_wf_kid(self@, false, i as int);
                        lemma_height_kid(self@, h, false, i as int);
                    }
                    let klen = match &kid.key {
                        Key::String(k) => k.len(),
                        Key::Parameter(_) => 0,
                    };
                    let go = if mode == 0 || mode == 3 {
                        true
                    } else if mode == 1 {
                        len > klen
                    } else {
                        len >= klen
                    };
                    if go && mode == 1 {
                        let r = kid.try_places_lit_at(start, bytes, 1, len, ranges, Ghost(h));
                        if r.is_some() {
                            return r;
                        }
                    }
                    if go {
                        let from: usize = if mode == 0 || mode == 1 {
                            1
                        } else {
                            0
                        };
                        let r = kid.try_places_at(
                            start,
                            bytes,
                            from,
                            if mode == 0 || mode == 3 { limit0 } else { len },
                            ranges,
                            Ghost(h),
                        );
                        if r.is_some() {
                            return r;
                        }
                    }
                    i = i + 1;
                }
                None
            },
        }
    }

    /// The last literal child, when its key starts with `/`.
    fn slash_last_at(&self) -> (r: Option<&Node<T>>)
        requires
            wf(self@),
        ensures
            match self@.nodes0 {
                Some(s) => if s.len() > 0 && first_byte(s[s.len() - 1]) == SLASH {
                    r matches Some(n) && n@ == s[s.len() - 1]
                } else {
                    r is None
                },
                None => r is None,
            },
    {
        match &self.nodes0 {
            None => None,
            Some(nodes) => {
                proof {
                    lemma_models(nodes@, nodes@.len());
                }
                if nodes.len() == 0 {
                    return None;
                }
                let last = &nodes[nodes.len() - 1];
                proof {
                    lemma_wf_kid(self@, false, nodes@.len() - 1);
                }
                let f = match &last.key {
                    Key::String(k) => k[0],
                    Key::Parameter(_) => 0,
                };
                if f == SLASH {
                    Some(last)
                } else {
                    None
                }
            },
        }
    }

    /// Matching at a parameter node of kind `:name`, `:name?` or `/:name?/`.
    fn find_named_at<'a>(&'a self, k: Kind, start: usize, bytes: &[u8], ranges: &mut Ranges, Ghost(h): Ghost<nat>) -> (r: Option<&'a T>)
        requires
            wf(self@),
            self@.key == KeyModel::Parameter(k),
            height_within(self@, h),
            ranges_of(*old(ranges)).len() + h <= max_height(),
            start + bytes@.len() <= usize::MAX,
        ensures
            outcome(r, find_named(self@, k, start as int, bytes@), *old(ranges), *final(ranges)),
            ranges_of(*final(ranges)).len() <= ranges_of(*old(ranges)).len() + h,
        decreases self@, 2int, 0int,
    {
        let len = bytes.len();
        let leafy = self.nodes0.is_none() && self.nodes1.is_none();
        if len == 0 {
            if k == Kind::Normal {
                return None;
            }
            if leafy {
                match &self.value {
                    Some(id) => {
                        let ghost r0 = *ranges;
                        ranges.push(start, start);
                        proof {
                            lemma_outcome_value(Some(id), *id, r0, *ranges, start, start);
                        }
                        return Some(id);
                    },
                    None => {
                        return None;
                    },
                }
            }
        } else {
            let mode: u8 = if k == Kind::Normal {
                0
            } else {
                3
            };
            let lit = self.try_literals_at(start, bytes, mode, ranges, Ghost(h));
            if lit.is_some() {
                return lit;
            }
            if self.nodes1.is_some() && bytes[0] != SLASH {
                let ghost r0 = *ranges;
                let tail = vstd::slice::slice_subrange(bytes, 1, len);
                let p = self.try_params_at(start + 1, tail, len - 1 > 0, false, ranges, Ghost(h));
                if p.is_some() {
                    let ghost r1 = *ranges;
                    ranges.push(start, start + 1);
                    proof {
                        lemma_outcome_push(
                            p,
                            try_params(self@.nodes1->Some_0, 0, start + 1, tail@, len - 1 > 0, false),
                            r0,
                            r1,
                            *ranges,
                            start,
                            (start + 1) as usize,
                        );
                    }
                    return p;
                }
            }
        }
        if (k == Kind::Optional || k == Kind::OptionalSegment) && self.nodes1.is_some() {
            let ghost r0 = *ranges;
            let p = self.try_params_at(start, bytes, len > 0, false, ranges, Ghost(h));
            if p.is_some() {
                let ghost r1 = *ranges;
                ranges.push(start + len, start + len);
                proof {
                    lemma_outcome_push(
                        p,
                        try_params(self@.nodes1->Some_0, 0, start as int, bytes@, len > 0, false),
                        r0,
                        r1,
                        *ranges,
                        (start + len) as usize,
                        (start + len) as usize,
                    );
                }
                return p;
            }
        }
        let slash = find_slash(bytes);
        let b2 = if slash < len {
            vstd::slice::slice_subrange(bytes, slash, len)
        } else {
            match &self.value {
                Some(id) => {
                    let ghost r0 = *ranges;
                    ranges.push(start, start + len);
                    proof {
                        lemma_outcome_value(Some(id), *id, r0, *ranges, start, (start + len) as usize);
                    }
                    return Some(id);
                },
                None => {},
            }
            let e = vstd::slice::slice_subrange(bytes, len, len);
            assert(e@ =~= Seq::<u8>::empty());
            e
        };
        if k == Kind::OptionalSegment {
            match self.slash_last_at() {
                Some(last) => {
                    proof {
                        lemma_wf_kid(self@, false, kids(self@, false).len() - 1);
                        lemma_height_kid(self@, h, false, kids(self@, false).len() - 1);
                    }
                    let ghost r0 = *ranges;
                    let r = last.find_from(start, b2, ranges, Ghost((h - 1) as nat));
                    if r.is_some() {
                        let ghost r1 = *ranges;
                        ranges.push(start, start + len);
                        proof {
                            lemma_outcome_push(r, find_at(last@, start as int, b2@), r0, r1, *ranges, start, (start + len) as usize);
                        }
                        return r;
                    }
                },
                None => {},
            }
        }
        None
    }

    /// Matching at a parameter node of kind `+`, `*` or `/*/`.
    fn find_rest_at<'a>(&'a self, k: Kind, start: usize, bytes: &[u8], ranges: &mut Ranges, Ghost(h): Ghost<nat>) -> (r: Option<&'a T>)
        requires
            wf(self@),
            self@.key == KeyModel::Parameter(k),
            height_within(self@, h),
            ranges_of(*old(ranges)).len() + h <= max_height(),
            start + bytes@.len() <= usize::MAX,
        ensures
            outcome(r, find_rest(self@, k, start as int, bytes@), *old(ranges), *final(ranges)),
            ranges_of(*final(ranges)).len() <= ranges_of(*old(ranges)).len() + h,
        decreases self@, 2int, 0int,
    {
        let len = bytes.len();
        let leafy = self.nodes0.is_none() && self.nodes1.is_none();
        if len == 0 {
            if k == Kind::OneOrMore {
                return None;
            }
            if leafy {
                match &self.value {
                    Some(id) => {
                        let ghost r0 = *ranges;
                        ranges.push(start, start);
                        proof {
                            lemma_outcome_value(Some(id), *id, r0, *ranges, start, start);
                        }
                        return Some(id);
                    },
                    None => {
                        return None;
                    },
                }
            }
        } else {
            if leafy {
                match &self.value {
                    Some(id) => {
                        let ghost r0 = *ranges;
                        ranges.push(start, start + len);
                        proof {
                            lemma_outcome_value(Some(id), *id, r0, *ranges, start, (start + len) as usize);
                        }
                        return Some(id);
                    },
                    None => {},
                }
            }
            let mode: u8 = if k == Kind::OneOrMore {
                1
            } else {
                2
            };
            let lit = self.try_literals_at(start, bytes, mode, ranges, Ghost(h));
            if lit.is_some() {
                return lit;
            }
        }
        if k == Kind::ZeroOrMoreSegment {
            match self.slash_last_at() {
                Some(last) => {
                    proof {
                        lemma_wf_kid(self@, false, kids(self@, false).len() - 1);
                        lemma_height_kid(self@, h, false, kids(self@, false).len() - 1);
                    }
                    let ghost r0 = *ranges;
                    let r = last.find_from(start, bytes, ranges, Ghost((h - 1) as nat));
                    if r.is_some() {
                        let ghost r1 = *ranges;
                        ranges.push(start + len, start + len);
                        proof {
                            lemma_outcome_push(r, find_at(last@, start as int, bytes@), r0, r1, *ranges, (start + len) as usize, (start + len) as usize);
                        }
                        return r;
                    }
                },
                None => {},
            }
        }
        None
    }

    /// Matching `bytes`, which start at `start` in the whole path, at this
    /// node, recording the captured ranges in `ranges`. Ranges are only ever
    /// pushed: a match leaves the earlier ones in place and adds those that
    /// [`find_at`] gives, and a failed match, abandoned tries included, leaves
    /// `ranges` as it was.
    pub fn find_from<'a>(&'a self, start: usize, bytes: &[u8], ranges: &mut Ranges, Ghost(h): Ghost<nat>) -> (r: Option<&'a T>)
        requires
            wf(self@),
            height_within(self@, h),
            ranges_of(*old(ranges)).len() + h <= max_height(),
            start + bytes@.len() <= usize::MAX,
        ensures
            outcome(r, find_at(self@, start as int, bytes@), *old(ranges), *final(ranges)),
            ranges_of(*final(ranges)).len() <= ranges_of(*old(ranges)).len() + h,
            r matches Some(x) ==> exists|p: Seq<Step>|
                #[trigger] valid_path(self@, p) && at(self@, p).value == Some(*x) && ranges_of(*final(ranges)).len()
                    == ranges_of(*old(ranges)).len() + param_nodes(self@, p),
            forall|k: int|
                ranges_of(*old(ranges)).len() <= k < ranges_of(*final(ranges)).len() ==> start <= #[trigger] ranges_of(
                    *final(ranges),
                )[k].0 <= ranges_of(*final(ranges))[k].1 <= start + bytes@.len(),
        decreases self@, 3int, 0int,
    {
        let len = bytes.len();
        match &self.key {
            Key::String(key) => {
                let n = key.len();
                if n <= len && starts_with(key, bytes) {
                    let rest = vstd::slice::slice_subrange(bytes, n, len);
                    if n == len {
                        match &self.value {
                            Some(id) => {
                                proof {
                                    assert(as_ints(ranges_of(*ranges)) =~= as_ints(ranges_of(*ranges)) + Seq::<(int, int)>::empty());
                                    crate::find_path::lemma_outcome_path(self@, start as int, bytes@, Some(id), *old(ranges), *ranges);
                                }
                                return Some(id);
                            },
                            None => {},
                        }
                    } else {
                        match &self.nodes0 {
                            Some(nodes) => {
                                proof {
                                    lemma_models(nodes@, nodes@.len());
                                }
                                let b0 = byte_index(rest[0]);
                                assert(models(nodes@, nodes@.len()) == kids(self@, false));
                                let i = crate::node::search_byte(nodes, rest[0]);
                                if i < nodes.len() && child_rank(&nodes[i]) == b0 {
                                    proof {
                                        lemma_wf_kid(self@, false, i as int);
                                        lemma_height_kid(self@, h, false, i as int);
                                    }
                                    let r = nodes[i].find_from(start + n, rest, ranges, Ghost((h - 1) as nat));
                                    if r.is_some() {
                                        proof {
                                            crate::find_path::lemma_outcome_path(
                                                self@,
                                                start as int,
                                                bytes@,
                                                r,
                                                *old(ranges),
                                                *ranges,
                                            );
                                        }
                                        return r;
                                    }
                                }
                            },
                            None => {},
                        }
                    }
                    let r = self.try_params_at(start + n, rest, n < len, false, ranges, Ghost(h));
                    proof {
                        crate::find_path::lemma_outcome_path(self@, start as int, bytes@, r, *old(ranges), *ranges);
                    }
                    return r;
                } else if n == 1 && key[0] == SLASH {
                    let r = self.try_params_at(start, bytes, true, true, ranges, Ghost(h));
                    proof {
                        crate::find_path::lemma_outcome_path(self@, start as int, bytes@, r, *old(ranges), *ranges);
                    }
                    return r;
                }
                None
            },
            Key::Parameter(k) => {
                let r = if *k == Kind::Normal || *k == Kind::Optional || *k == Kind::OptionalSegment {
                    self.find_named_at(*k, start, bytes, ranges, Ghost(h))
                } else {
                    self.find_rest_at(*k, start, bytes, ranges, Ghost(h))
                };
                proof {
                    crate::find_path::lemma_outcome_path(self@, start as int, bytes@, r, *old(ranges), *ranges);
                }
                r
            },
        }
    }

    /// Matches `bytes` against the tree below this node: the value reached and
    /// the byte ranges that its parameters captured, deepest first.
    pub fn find(&self, bytes: &[u8]) -> (r: Option<(&T, Ranges)>)
        requires
            wf(self@),
            height_within(self@, max_height()),
        ensures
            match find_at(self@, 0, bytes@) {
                Some((v, p)) => r matches Some((x, rs)) && *x == v && as_ints(ranges_of(rs)) == p,
                None => r is None,
            },
            r matches Some((_, rs)) ==> ranges_of(rs).len() <= max_height(),
            r matches Some((x, rs)) ==> exists|p: Seq<Step>|
                #[trigger] valid_path(self@, p) && at(self@, p).value == Some(*x) && ranges_of(rs).len() == param_nodes(
                    self@,
                    p,
                ),
    {
        proof {
            crate::find_path::law_find_ranges_count(self@, 0, bytes@);
        }
        let _len = bytes.len();
        let mut ranges = Ranges::new();
        let ghost r0 = ranges;
        let r = self.find_from(0, bytes, &mut ranges, Ghost(max_height()));
        match r {
            Some(t) => {
                proof {
                    assert(as_ints(ranges_of(r0)) =~= Seq::<(int, int)>::empty());
                    let p = find_at(self@, 0, bytes@)->Some_0.1;
                    assert(Seq::<(int, int)>::empty() + p =~= p);
                }
                Some((t, ranges))
            },
            None => None,
        }
    }
}

} // verus!
