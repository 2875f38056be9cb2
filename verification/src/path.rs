//! A matched route: its pattern written back out, and its parameters by name.
use core::marker::PhantomData;
use vstd::prelude::*;
use vstd::utf8::{decode_utf8, valid_utf8};

use crate::bytes::{append_bytes, BACKSLASH, COLON, PLUS, QUESTION, STAR};
use crate::parser::{pieces_view, Kind, Piece, PieceView, Position, PositionView};
use crate::small::{raws_of, Raws};
use crate::text::{str_from_utf8, string_from_utf8_lossy, utf8_lossy};

verus! {

/// A route that matched a path: its id, value and pattern, and the text that
/// each parameter captured, in the order of the parameters.
#[derive(Debug, PartialEq, Eq)]
pub struct Path<'a, 'b, T> {
    pub id: &'a usize,
    pub value: &'a T,
    pub pieces: &'a [Piece],
    pub raws: Raws<'b>,
}

/// How one piece is written in a pattern: `:`, `+` and `?` alone are escaped,
/// an unnamed parameter is its sign, a named one its sign and name.
pub open spec fn piece_pattern(p: PieceView) -> Seq<u8> {
    match p {
        PieceView::String(s) => if s == seq![COLON] || s == seq![PLUS] || s == seq![QUESTION] {
            seq![BACKSLASH] + s
        } else {
            s
        },
        PieceView::Parameter(PositionView::Index(_, _), k) => if k == Kind::OneOrMore {
            seq![PLUS]
        } else if k == Kind::ZeroOrMore || k == Kind::ZeroOrMoreSegment {
            seq![STAR]
        } else {
            Seq::empty()
        },
        PieceView::Parameter(PositionView::Named(n), k) => match k {
            Kind::Normal => seq![COLON] + n,
            Kind::Optional | Kind::OptionalSegment => seq![COLON] + n + seq![QUESTION],
            Kind::OneOrMore => seq![PLUS] + n,
            Kind::ZeroOrMore | Kind::ZeroOrMoreSegment => seq![STAR] + n,
        },
    }
}

/// The pattern that `pieces` spell, piece after piece.
pub open spec fn pattern_bytes(pieces: Seq<PieceView>) -> Seq<u8>
    decreases pieces.len(),
{
    if pieces.len() == 0 {
        Seq::empty()
    } else {
        pattern_bytes(pieces.drop_last()) + piece_pattern(pieces.last())
    }
}

/// The name of a parameter.
pub open spec fn name_of(p: PositionView) -> Seq<u8> {
    match p {
        PositionView::Index(_, n) => n,
        PositionView::Named(n) => n,
    }
}

/// The names, as text, of the parameters in `pieces` from index `i` on,
/// leaving out those whose name is not valid UTF-8.
pub open spec fn names_from(pieces: Seq<PieceView>, i: int) -> Seq<Seq<char>>
    decreases pieces.len() - i,
{
    if i < 0 || i >= pieces.len() {
        Seq::empty()
    } else {
        match pieces[i] {
            PieceView::Parameter(pos, _) => if valid_utf8(name_of(pos)) {
                seq![decode_utf8(name_of(pos))] + names_from(pieces, i + 1)
            } else {
                names_from(pieces, i + 1)
            },
            PieceView::String(_) => names_from(pieces, i + 1),
        }
    }
}

/// Names paired with values, position by position, as far as both go.
pub open spec fn pairs(names: Seq<Seq<char>>, values: Seq<Seq<char>>) -> Seq<(Seq<char>, Seq<char>)> {
    let n = if names.len() < values.len() {
        names.len()
    } else {
        values.len()
    };
    Seq::new(n, |j: int| (names[j], values[j]))
}

/// The parameters of `pieces` by name, paired with the captured `raws`.
pub open spec fn params_spec(pieces: Seq<PieceView>, raws: Seq<Seq<char>>) -> Seq<(Seq<char>, Seq<char>)> {
    pairs(names_from(pieces, 0), raws)
}

/// The parameters of a match, name and captured text, one at a time.
pub struct ParamsIter<'p, 'a, 'b, T> {
    pieces: &'a [Piece],
    raws: &'p Raws<'b>,
    i: usize,
    k: usize,
    _t: PhantomData<T>,
}

impl<'p, 'a, 'b, T> ParamsIter<'p, 'a, 'b, T> {
    #[verifier::type_invariant]
    spec fn inv(self) -> bool {
        &&& self.i <= self.pieces@.len()
        &&& self.k <= raws_of(*self.raws).len()
    }
}

impl<'p, 'a, 'b, T> View for ParamsIter<'p, 'a, 'b, T> {
    type V = Seq<(Seq<char>, Seq<char>)>;

    /// The pairs still to come.
    closed spec fn view(&self) -> Seq<(Seq<char>, Seq<char>)> {
        pairs(names_from(pieces_view(self.pieces@), self.i as int), raws_of(*self.raws).skip(self.k as int))
    }
}

proof fn lemma_names_skip(pieces: Seq<PieceView>, i: int)
    requires
        0 <= i < pieces.len(),
        !(pieces[i] matches PieceView::Parameter(pos, _) && valid_utf8(name_of(pos))),
    ensures
        names_from(pieces, i) == names_from(pieces, i + 1),
{
}

impl<'p, 'a, 'b, T> ParamsIter<'p, 'a, 'b, T> {
    /// The next parameter, name and captured text; `None` once either the
    /// named parameters or the captured texts run out.
    pub fn next(&mut self) -> (r: Option<(&'a str, &'b str)>)
        ensures
            old(self)@.len() > 0 ==> (r matches Some((n, v)) && n@ == old(self)@[0].0 && v@ == old(self)@[0].1
                && final(self)@ == old(self)@.drop_first()),
            old(self)@.len() == 0 ==> r is None && final(self)@ == old(self)@,
    {
        proof {
            use_type_invariant(&*self);
        }
        let ghost ps = pieces_view(self.pieces@);
        let ghost rs = raws_of(*self.raws);
        let ghost start = self.i as int;
        let n = self.pieces.len();
        let mut j = self.i;
        while j < n
            invariant
                start <= j <= n,
                n == self.pieces@.len(),
                ps == pieces_view(self.pieces@),
                names_from(ps, j as int) == names_from(ps, start),
                *self == *old(self),
                start == self.i,
                rs == raws_of(*self.raws),
                self.k <= rs.len(),
            decreases n - j,
        {
            let name: Option<&'a str> = match &self.pieces[j] {
                Piece::Parameter(Position::Index(_, nm), _) => str_from_utf8(nm.as_slice()),
                Piece::Parameter(Position::Named(nm), _) => str_from_utf8(nm.as_slice()),
                Piece::String(_) => None,
            };
            match name {
                Some(nm) => {
                    proof {
                        assert(ps[j as int] == self.pieces@[j as int]@);
                        vstd::utf8::encode_utf8_decode_utf8(nm@);
                        assert(names_from(ps, j as int) == seq![nm@] + names_from(ps, j + 1));
                    }
                    if self.k < self.raws.len() {
                        let v = self.raws.get(self.k);
                        proof {
                            assert(rs.skip(self.k as int).drop_first() =~= rs.skip(self.k as int + 1));
                            assert(old(self)@ =~= pairs(seq![nm@] + names_from(ps, j + 1), rs.skip(self.k as int)));
                            assert(old(self)@.drop_first() =~= pairs(names_from(ps, j + 1), rs.skip(self.k as int + 1)));
                        }
                        self.i = j + 1;
                        self.k = self.k + 1;
                        return Some((nm, v));
                    } else {
                        proof {
                            assert(old(self)@ =~= Seq::<(Seq<char>, Seq<char>)>::empty());
                        }
                        return None;
                    }
                },
                None => {
                    proof {
                        assert(ps[j as int] == self.pieces@[j as int]@);
                        lemma_names_skip(ps, j as int);
                    }
                    j = j + 1;
                },
            }
        }
        proof {
            assert(old(self)@ =~= Seq::<(Seq<char>, Seq<char>)>::empty());
        }
        None
    }
}

impl<'a, 'b, T> Path<'a, 'b, T> {
    /// The pattern of the route, written back out.
    pub fn pattern(&self) -> (s: String)
        ensures
            s@ == utf8_lossy(pattern_bytes(pieces_view(self.pieces@))),
            valid_utf8(pattern_bytes(pieces_view(self.pieces@))) ==> s@ == decode_utf8(
                pattern_bytes(pieces_view(self.pieces@)),
            ),
    {
        let mut bytes: Vec<u8> = Vec::new();
        let ghost ps = pieces_view(self.pieces@);
        let mut i: usize = 0;
        while i < self.pieces.len()
            invariant
                i <= self.pieces@.len(),
                ps == pieces_view(self.pieces@),
                bytes@ == pattern_bytes(ps.take(i as int)),
            decreases self.pieces@.len() - i,
        {
            let ghost before = bytes@;
            match &self.pieces[i] {
                Piece::String(s) => {
                    if s.len() == 1 && (s[0] == COLON || s[0] == PLUS || s[0] == QUESTION) {
                        bytes.push(BACKSLASH);
                        proof {
                            assert(s@ =~= seq![s@[0]]);
                        }
                    }
                    append_bytes(&mut bytes, s.as_slice());
                },
                Piece::Parameter(Position::Index(_, _), k) => {
                    if *k == Kind::OneOrMore {
                        bytes.push(PLUS);
                    } else if *k == Kind::ZeroOrMore || *k == Kind::ZeroOrMoreSegment {
                        bytes.push(STAR);
                    }
                },
                Piece::Parameter(Position::Named(n), k) => {
                    match k {
                        Kind::Normal | Kind::Optional | Kind::OptionalSegment => {
                            bytes.push(COLON);
                            append_bytes(&mut bytes, n.as_slice());
                            if *k == Kind::Optional || *k == Kind::OptionalSegment {
                                bytes.push(QUESTION);
                            }
                        },
                        Kind::OneOrMore => {
                            bytes.push(PLUS);
                            append_bytes(&mut bytes, n.as_slice());
                        },
                        Kind::ZeroOrMore | Kind::ZeroOrMoreSegment => {
                            bytes.push(STAR);
                            append_bytes(&mut bytes, n.as_slice());
                        },
                    }
                },
            }
            proof {
                assert(ps.take(i + 1).drop_last() =~= ps.take(i as int));
                assert(ps[i as int] == self.pieces@[i as int]@);
                assert(bytes@ =~= before + piece_pattern(ps[i as int]));
            }
            i = i + 1;
        }
        proof {
            assert(ps.take(self.pieces@.len() as int) =~= ps);
        }
        string_from_utf8_lossy(bytes.as_slice())
    }

    /// The parameters, each by its name with the text it captured.
    pub fn params(&self) -> (v: Vec<(&'a str, &'b str)>)
        ensures
            v@.len() == params_spec(pieces_view(self.pieces@), raws_of(self.raws)).len(),
            forall|j: int|
                0 <= j < v@.len() ==> (#[trigger] v@[j]).0@ == params_spec(pieces_view(self.pieces@), raws_of(self.raws))[j].0
                    && v@[j].1@ == params_spec(pieces_view(self.pieces@), raws_of(self.raws))[j].1,
    {
        let ghost all = params_spec(pieces_view(self.pieces@), raws_of(self.raws));
        let mut it = self.params_iter();
        let mut v: Vec<(&'a str, &'b str)> = Vec::new();
        loop
            invariant
                v@.len() + it@.len() == all.len(),
                it@ == all.skip(v@.len() as int),
                forall|j: int| 0 <= j < v@.len() ==> (#[trigger] v@[j]).0@ == all[j].0 && v@[j].1@ == all[j].1,
            ensures
                v@.len() == all.len(),
                forall|j: int| 0 <= j < v@.len() ==> (#[trigger] v@[j]).0@ == all[j].0 && v@[j].1@ == all[j].1,
            decreases it@.len(),
        {
            let ghost before = it@;
            match it.next() {
                Some(pair) => {
                    proof {
                        assert(before[0] == all[v@.len() as int]);
                        assert(all.skip(v@.len() as int + 1) =~= before.drop_first());
                    }
                    v.push(pair);
                },
                None => {
                    break;
                },
            }
        }
        v
    }

    /// The parameters, one at a time, each by its name with the text it captured.
    pub fn params_iter<'p>(&'p self) -> (it: ParamsIter<'p, 'a, 'b, T>)
        ensures
            it@ == params_spec(pieces_view(self.pieces@), raws_of(self.raws)),
    {
        let it = ParamsIter { pieces: self.pieces, raws: &self.raws, i: 0, k: 0, _t: PhantomData };
        proof {
            assert(raws_of(self.raws).skip(0) =~= raws_of(self.raws));
        }
        it
    }
}

} // verus!
