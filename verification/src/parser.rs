//! Route patterns and their parser.
//!
//! A pattern such as `/users/:id/files/*` is read byte by byte into a list of
//! [`Piece`]s: literal runs of bytes and parameters. The grammar is written
//! down as the spec functions [`scan_string`], [`scan_param`] and [`step`];
//! the executable parser is proved to follow them exactly.
use vstd::prelude::*;

use crate::bytes::{
    copy_range, decimal, usize_to_decimal, BACKSLASH, COLON, DASH, DOT, PLUS, QUESTION, SLASH, STAR,
    TILDE,
};
use vstd::string::StringSliceAdditionalSpecFns;

verus! {

/// The kind of a parameter in a pattern.
#[derive(Copy, Clone, Debug, PartialEq, Eq, Structural, PartialOrd, Ord)]
pub enum Kind {
    /// `:name`: a non-empty piece that does not contain `/`.
    Normal,
    /// `:name?`: an optional piece that does not contain `/`.
    Optional,
    /// `/:name?/` or `/:name?`: an optional path segment.
    OptionalSegment,
    /// `+` or `:name+`: a non-empty piece that may contain `/`.
    OneOrMore,
    /// `*` or `:name*`: a possibly empty piece that may contain `/`.
    ZeroOrMore,
    /// `/*/`, `/*` or `/:name*/`: zero or more path segments.
    ZeroOrMoreSegment,
}

/// Where a parameter's name comes from.
#[derive(Clone, Debug, PartialEq, Eq)]
pub enum Position {
    /// An unnamed `+` or `*`: its running number and the generated name (`+1`, `*2`, ...).
    Index(usize, Vec<u8>),
    /// A named parameter.
    Named(Vec<u8>),
}

/// One piece of a parsed pattern.
#[derive(Clone, Debug, PartialEq, Eq)]
pub enum Piece {
    /// Bytes that must appear literally.
    String(Vec<u8>),
    /// A parameter.
    Parameter(Position, Kind),
}

/// The mathematical value of a [`Position`].
pub enum PositionView {
    Index(nat, Seq<u8>),
    Named(Seq<u8>),
}

/// The mathematical value of a [`Piece`].
pub enum PieceView {
    String(Seq<u8>),
    Parameter(PositionView, Kind),
}

impl View for Position {
    type V = PositionView;

    open spec fn view(&self) -> PositionView {
        match self {
            Position::Index(n, name) => PositionView::Index(*n as nat, name@),
            Position::Named(name) => PositionView::Named(name@),
        }
    }
}

impl View for Piece {
    type V = PieceView;

    open spec fn view(&self) -> PieceView {
        match self {
            Piece::String(s) => PieceView::String(s@),
            Piece::Parameter(p, k) => PieceView::Parameter(p@, *k),
        }
    }
}

/// The views of a sequence of pieces.
pub open spec fn pieces_view(pieces: Seq<Piece>) -> Seq<PieceView> {
    pieces.map_values(|p: Piece| p@)
}

/// `:`, `+` and `*` open a parameter.
pub open spec fn is_special(b: u8) -> bool {
    b == COLON || b == PLUS || b == STAR
}

/// `-`, `.`, `~`, `/`, `\` and `:` end a parameter's name.
pub open spec fn ends_name(b: u8) -> bool {
    b == DASH || b == DOT || b == TILDE || b == SLASH || b == BACKSLASH || b == COLON
}

/// `?`, `+` and `*` end a parameter's name and give its kind.
pub open spec fn is_modifier(b: u8) -> bool {
    b == QUESTION || b == PLUS || b == STAR
}

/// The number of bytes of the UTF-8 character whose first byte is `b`.
pub open spec fn utf8_width(b: u8) -> int {
    if b < 0x80 {
        1
    } else if b >= 0xF0 {
        4
    } else if b >= 0xE0 {
        3
    } else {
        2
    }
}

/// A modifier at `i` stands alone in a segment: a `/` two bytes before the name
/// (just before its `:` or its `*`) and `/` or the end right after the modifier.
pub open spec fn is_segment(s: Seq<u8>, slash_at: int, i: int) -> bool {
    &&& slash_at >= 0
    &&& s[slash_at] == SLASH
    &&& (i + 1 >= s.len() || s[i + 1] == SLASH)
}

/// Scans a literal run that started at `start`, with the scan at `i`.
/// Gives the literal bytes and the position where scanning goes on.
/// A `\` escapes the character after it; `\\` keeps one `\` in the literal.
pub open spec fn scan_string(s: Seq<u8>, start: int, i: int) -> (Seq<u8>, int)
    decreases s.len() - i,
{
    if i < 0 || i >= s.len() {
        (s.subrange(start, s.len() as int), s.len() as int)
    } else if s[i] == BACKSLASH {
        if start < i {
            (s.subrange(start, i), i)
        } else if i + 1 < s.len() {
            if s[i + 1] == BACKSLASH {
                scan_string(s, i + 1, i + 1)
            } else {
                let w = utf8_width(s[i + 1]);
                let e = if i + 1 + w <= s.len() {
                    i + 1 + w
                } else {
                    s.len() as int
                };
                (s.subrange(i + 1, e), e)
            }
        } else {
            (s.subrange(start, s.len() as int), s.len() as int)
        }
    } else if is_special(s[i]) {
        (s.subrange(start, i), i)
    } else {
        scan_string(s, start, i + 1)
    }
}

/// The kind that a modifier byte `m` at `i` gives to a name that starts at `start`.
pub open spec fn modifier_kind(s: Seq<u8>, start: int, i: int, m: u8) -> Kind {
    if m == PLUS {
        Kind::OneOrMore
    } else if m == QUESTION {
        if is_segment(s, start - 2, i) {
            Kind::OptionalSegment
        } else {
            Kind::Optional
        }
    } else if is_segment(s, start - 2, i) {
        Kind::ZeroOrMoreSegment
    } else {
        Kind::ZeroOrMore
    }
}

/// Scans a parameter's name that started at `start`, with the scan at `i`.
/// Gives the name, the kind and the position where scanning goes on.
pub open spec fn scan_param(s: Seq<u8>, start: int, i: int) -> (Seq<u8>, Kind, int)
    decreases s.len() - i,
{
    if i < 0 || i >= s.len() {
        (s.subrange(start, s.len() as int), Kind::Normal, s.len() as int)
    } else if ends_name(s[i]) {
        (s.subrange(start, i), Kind::Normal, i)
    } else if is_modifier(s[i]) {
        (s.subrange(start, i), modifier_kind(s, start, i, s[i]), i + 1)
    } else {
        scan_param(s, start, i + 1)
    }
}

/// The kind of an unnamed `+` or `*` (the byte `c`) at `i`.
pub open spec fn unnamed_kind(s: Seq<u8>, i: int, c: u8) -> Kind {
    if c == PLUS {
        Kind::OneOrMore
    } else if is_segment(s, i - 1, i) {
        Kind::ZeroOrMoreSegment
    } else {
        Kind::ZeroOrMore
    }
}

/// One step of the parser on `s` at `pos`, having numbered `count` unnamed
/// parameters: the next piece, the new position and the new count.
pub open spec fn step(s: Seq<u8>, pos: int, count: nat) -> Option<(PieceView, int, nat)> {
    if pos < 0 || pos >= s.len() {
        None
    } else if s[pos] == COLON {
        let r = scan_param(s, pos + 1, pos + 1);
        Some((PieceView::Parameter(PositionView::Named(r.0), r.1), r.2, count))
    } else if s[pos] == PLUS || s[pos] == STAR {
        let c = count + 1;
        Some(
            (
                PieceView::Parameter(
                    PositionView::Index(c, seq![s[pos]] + decimal(c)),
                    unnamed_kind(s, pos, s[pos]),
                ),
                pos + 1,
                c,
            ),
        )
    } else {
        let r = scan_string(s, pos, pos);
        Some((PieceView::String(r.0), r.1, count))
    }
}

proof fn lemma_scan_string(s: Seq<u8>, pos: int, start: int, i: int)
    requires
        0 <= pos <= start <= i <= s.len(),
        pos < s.len(),
        start < s.len(),
        !is_special(s[pos]),
        !is_special(s[start]),
    ensures
        ({
            let r = scan_string(s, start, i);
            &&& pos < r.1 <= s.len()
            &&& start <= r.1
            &&& r.0.len() > 0
        }),
    decreases s.len() - i,
{
    if i < s.len() {
        if s[i] == BACKSLASH {
            if start < i {
            } else if i + 1 < s.len() {
                if s[i + 1] == BACKSLASH {
                    lemma_scan_string(s, pos, i + 1, i + 1);
                }
            }
        } else if is_special(s[i]) {
        } else {
            lemma_scan_string(s, pos, start, i + 1);
        }
    }
}

proof fn lemma_scan_param(s: Seq<u8>, start: int, i: int)
    requires
        0 <= start <= i <= s.len(),
    ensures
        ({
            let r = scan_param(s, start, i);
            &&& i <= r.2 <= s.len()
            &&& start <= r.2
        }),
    decreases s.len() - i,
{
    if i < s.len() && !ends_name(s[i]) && !is_modifier(s[i]) {
        lemma_scan_param(s, start, i + 1);
    }
}

/// Each step moves forward and stays within the input.
pub proof fn lemma_step_progress(s: Seq<u8>, pos: int, count: nat)
    requires
        0 <= pos < s.len(),
    ensures
        step(s, pos, count) matches Some(r) && pos < r.1 <= s.len(),
{
    if s[pos] == COLON {
        lemma_scan_param(s, pos + 1, pos + 1);
    } else if s[pos] == PLUS || s[pos] == STAR {
    } else {
        lemma_scan_string(s, pos, pos, pos);
    }
}

/// Literal pieces are never empty.
pub proof fn lemma_step_literal(s: Seq<u8>, pos: int, count: nat)
    requires
        0 <= pos < s.len(),
    ensures
        step(s, pos, count) matches Some(r) && (r.0 matches PieceView::String(lit) ==> lit.len() > 0),
{
    if s[pos] != COLON && s[pos] != PLUS && s[pos] != STAR {
        lemma_scan_string(s, pos, pos, pos);
    }
}

/// The literal pieces of a pattern are never empty.
pub proof fn lemma_parse_literals(s: Seq<u8>, pos: int, count: nat)
    requires
        0 <= pos,
    ensures
        forall|j: int|
            0 <= j < parse_from(s, pos, count).len() ==> (#[trigger] parse_from(s, pos, count)[j] matches PieceView::String(lit) ==> lit.len() > 0),
    decreases s.len() - pos,
{
    if pos < s.len() {
        lemma_step_literal(s, pos, count);
        lemma_step_progress(s, pos, count);
        let r = step(s, pos, count)->Some_0;
        lemma_parse_literals(s, r.1, r.2);
        let rest = parse_from(s, r.1, r.2);
        assert(parse_from(s, pos, count) == seq![r.0] + rest);
        assert forall|j: int| 0 <= j < parse_from(s, pos, count).len() implies (#[trigger] parse_from(s, pos, count)[j] matches PieceView::String(lit) ==> lit.len() > 0) by {
            if j > 0 {
                assert(parse_from(s, pos, count)[j] == rest[j - 1]);
            }
        }
    }
}

/// All the pieces of `s` from `pos` on.
pub open spec fn parse_from(s: Seq<u8>, pos: int, count: nat) -> Seq<PieceView>
    decreases s.len() - pos,
{
    match step(s, pos, count) {
        None => seq![],
        Some(r) => {
            if pos < r.1 <= s.len() {
                seq![r.0] + parse_from(s, r.1, r.2)
            } else {
                seq![r.0]
            }
        },
    }
}

/// The number of unnamed parameters (`+`, `*`) among `ps`.
pub open spec fn unnamed_count(ps: Seq<PieceView>) -> nat
    decreases ps.len(),
{
    if ps.len() == 0 {
        0
    } else {
        (if ps[0] matches PieceView::Parameter(PositionView::Index(_, _), _) {
            1nat
        } else {
            0nat
        }) + unnamed_count(ps.drop_first())
    }
}

/// Unnamed parameters are numbered on from `count`, one counter for `+` and
/// `*`: the one at `j` gets the number `count + 1 +` the unnamed ones before
/// it, and is named by its sign followed by that number in decimal.
pub proof fn lemma_parse_numbering(s: Seq<u8>, pos: int, count: nat)
    requires
        0 <= pos,
    ensures
        forall|j: int|
            0 <= j < parse_from(s, pos, count).len() ==> (#[trigger] parse_from(s, pos, count)[j] matches
                PieceView::Parameter(PositionView::Index(c, name), _) ==> {
                &&& c == count + 1 + unnamed_count(parse_from(s, pos, count).take(j))
                &&& name.len() > 0
                &&& (name[0] == PLUS || name[0] == STAR)
                &&& name.drop_first() == decimal(c)
            }),
    decreases s.len() - pos,
{
    if pos < s.len() {
        lemma_step_progress(s, pos, count);
        let r = step(s, pos, count)->Some_0;
        lemma_parse_numbering(s, r.1, r.2);
        let rest = parse_from(s, r.1, r.2);
        let ps = parse_from(s, pos, count);
        assert(ps == seq![r.0] + rest);
        assert(r.0 matches PieceView::Parameter(PositionView::Index(_, _), _) ==> r.2 == count + 1);
        assert(!(r.0 matches PieceView::Parameter(PositionView::Index(_, _), _)) ==> r.2 == count);
        assert forall|j: int| 0 <= j < ps.len() implies (#[trigger] ps[j] matches
            PieceView::Parameter(PositionView::Index(c, name), _) ==> {
            &&& c == count + 1 + unnamed_count(ps.take(j))
            &&& name.len() > 0
            &&& (name[0] == PLUS || name[0] == STAR)
            &&& name.drop_first() == decimal(c)
        }) by {
            if j == 0 {
                assert(ps.take(0) =~= Seq::<PieceView>::empty());
                match r.0 {
                    PieceView::Parameter(PositionView::Index(c, name), _) => {
                        assert(name.drop_first() =~= decimal(c));
                    },
                    _ => {},
                }
            } else {
                assert(ps[j] == rest[j - 1]);
                assert(ps.take(j).drop_first() =~= rest.take(j - 1));
                assert(ps.take(j)[0] == r.0);
            }
        }
    }
}

/// A pattern has pieces exactly when it is not empty.
pub proof fn lemma_parse_empty(s: Seq<u8>)
    ensures
        (parse_pattern(s).len() == 0) <==> (s.len() == 0),
        parse_pattern(s).len() <= s.len(),
{
    lemma_parse_len(s, 0, 0);
    if s.len() > 0 {
        lemma_step_progress(s, 0, 0);
    }
}

/// A pattern has no more pieces than bytes: each piece takes at least one.
pub proof fn lemma_parse_len(s: Seq<u8>, pos: int, count: nat)
    requires
        0 <= pos <= s.len(),
    ensures
        parse_from(s, pos, count).len() <= s.len() - pos,
    decreases s.len() - pos,
{
    if pos < s.len() {
        lemma_step_progress(s, pos, count);
        let r = step(s, pos, count)->Some_0;
        lemma_parse_len(s, r.1, r.2);
    } else {
        assert(step(s, pos, count) is None);
    }
}

/// The pieces of a whole pattern, given as its bytes.
pub open spec fn parse_pattern(s: Seq<u8>) -> Seq<PieceView> {
    parse_from(s, 0, 0)
}

/// The state of a [`Parser`]: the pattern's bytes, the position reached and the
/// number of unnamed parameters numbered so far.
pub struct ParserState {
    pub input: Seq<u8>,
    pub pos: nat,
    pub count: nat,
}

/// Reads a pattern into pieces, one piece per call of [`Parser::next`].
pub struct Parser<'a> {
    pos: usize,
    count: usize,
    input: &'a [u8],
}

impl<'a> View for Parser<'a> {
    type V = ParserState;

    closed spec fn view(&self) -> ParserState {
        ParserState { input: self.input@, pos: self.pos as nat, count: self.count as nat }
    }
}

impl<'a> Parser<'a> {
    #[verifier::type_invariant]
    closed spec fn inv(self) -> bool {
        &&& self.pos <= self.input@.len()
        &&& self.count <= self.pos
    }

    /// A parser at the start of `input`.
    #[must_use]
    pub fn new(input: &'a str) -> (p: Self)
        ensures
            p@ == (ParserState { input: input.spec_bytes(), pos: 0, count: 0 }),
    {
        Parser { pos: 0, count: 0, input: input.as_bytes() }
    }

    /// Scans a literal run from the current position (which holds no `:`, `+` or `*`).
    fn string(&mut self) -> (lit: Vec<u8>)
        requires
            old(self)@.pos < old(self)@.input.len(),
            !is_special(old(self)@.input[old(self)@.pos as int]),
        ensures
            ({
                let r = scan_string(old(self)@.input, old(self)@.pos as int, old(self)@.pos as int);
                &&& lit@ == r.0
                &&& final(self)@ == (ParserState { pos: r.1 as nat, ..old(self)@ })
            }),
    {
        proof {
            use_type_invariant(&*self);
        }
        let ghost s = self.input@;
        let ghost pos0 = self.pos as int;
        let mut start = self.pos;
        let mut i = self.pos;
        let len = self.input.len();
        while i < len
            invariant
                s == self.input@,
                s == old(self)@.input,
                pos0 == old(self)@.pos,
                self.count == old(self)@.count,
                len == s.len(),
                pos0 == self.pos,
                self.pos <= len,
                self.count <= self.pos,
                pos0 <= start <= i <= len,
                scan_string(s, start as int, i as int) == scan_string(s, pos0, pos0),
            decreases len - i,
        {
            let c = self.input[i];
            if c == BACKSLASH {
                if start < i {
                    self.pos = i;
                    return copy_range(self.input, start, i);
                }
                if i + 1 < len {
                    let c2 = self.input[i + 1];
                    if c2 == BACKSLASH {
                        start = i + 1;
                        i = i + 1;
                    } else {
                        let w = utf8_width_of(c2);
                        let e = if w <= len - (i + 1) {
                            i + 1 + w
                        } else {
                            len
                        };
                        self.pos = e;
                        return copy_range(self.input, i + 1, e);
                    }
                } else {
                    self.pos = len;
                    return copy_range(self.input, start, len);
                }
            } else if c == COLON || c == PLUS || c == STAR {
                self.pos = i;
                return copy_range(self.input, start, i);
            } else {
                i = i + 1;
            }
        }
        self.pos = len;
        copy_range(self.input, start, len)
    }

    /// Scans a parameter's name, which starts at the current position.
    fn parameter(&mut self) -> (r: (Position, Kind))
        requires
            old(self)@.pos <= old(self)@.input.len(),
        ensures
            ({
                let sp = scan_param(old(self)@.input, old(self)@.pos as int, old(self)@.pos as int);
                &&& r.0@ == PositionView::Named(sp.0)
                &&& r.1 == sp.1
                &&& final(self)@ == (ParserState { pos: sp.2 as nat, ..old(self)@ })
            }),
    {
        proof {
            use_type_invariant(&*self);
        }
        let ghost s = self.input@;
        let start = self.pos;
        let mut i = self.pos;
        let len = self.input.len();
        while i < len
            invariant
                s == self.input@,
                s == old(self)@.input,
                start == old(self)@.pos,
                self.count == old(self)@.count,
                len == s.len(),
                start == self.pos,
                self.pos <= len,
                self.count <= self.pos,
                start <= i <= len,
                scan_param(s, start as int, i as int) == scan_param(s, start as int, start as int),
            decreases len - i,
        {
            let c = self.input[i];
            if c == DASH || c == DOT || c == TILDE || c == SLASH || c == BACKSLASH || c == COLON {
                self.pos = i;
                return (Position::Named(copy_range(self.input, start, i)), Kind::Normal);
            } else if c == QUESTION || c == PLUS || c == STAR {
                let name = copy_range(self.input, start, i);
                let kind = if c == PLUS {
                    Kind::OneOrMore
                } else {
                    let prefix = start >= 2 && self.input[start - 2] == SLASH;
                    let suffix = i + 1 >= len || self.input[i + 1] == SLASH;
                    if c == QUESTION {
                        if prefix && suffix {
                            Kind::OptionalSegment
                        } else {
                            Kind::Optional
                        }
                    } else if prefix && suffix {
                        Kind::ZeroOrMoreSegment
                    } else {
                        Kind::ZeroOrMore
                    }
                };
                self.pos = i + 1;
                return (Position::Named(name), kind);
            } else {
                i = i + 1;
            }
        }
        self.pos = len;
        (Position::Named(copy_range(self.input, start, len)), Kind::Normal)
    }

    /// The next piece of the pattern, or `None` at its end.
    pub fn next(&mut self) -> (r: Option<Piece>)
        ensures
            match step(old(self)@.input, old(self)@.pos as int, old(self)@.count) {
                None => r is None && final(self)@ == old(self)@,
                Some(st) => r matches Some(p) && p@ == st.0 && final(self)@ == (ParserState {
                    input: old(self)@.input,
                    pos: st.1 as nat,
                    count: st.2,
                }),
            },
    {
        proof {
            use_type_invariant(&*self);
        }
        let len = self.input.len();
        if self.pos >= len {
            return None;
        }
        let i = self.pos;
        let c = self.input[i];
        if c == COLON {
            self.pos = i + 1;
            let (position, kind) = self.parameter();
            Some(Piece::Parameter(position, kind))
        } else if c == PLUS || c == STAR {
            self.pos = i + 1;
            self.count = self.count + 1;
            let mut name: Vec<u8> = Vec::new();
            name.push(c);
            let digits = usize_to_decimal(self.count);
            let ghost before = name@;
            let mut k: usize = 0;
            while k < digits.len()
                invariant
                    name@ == before + digits@.subrange(0, k as int),
                    k <= digits@.len(),
                decreases digits.len() - k,
            {
                name.push(digits[k]);
                k = k + 1;
                assert(digits@.subrange(0, k as int) == digits@.subrange(0, k - 1) + seq![digits@[k - 1]]);
            }
            assert(digits@.subrange(0, digits@.len() as int) == digits@);
            let kind = if c == PLUS {
                Kind::OneOrMore
            } else {
                let prefix = i >= 1 && self.input[i - 1] == SLASH;
                let suffix = i + 1 >= len || self.input[i + 1] == SLASH;
                if prefix && suffix {
                    Kind::ZeroOrMoreSegment
                } else {
                    Kind::ZeroOrMore
                }
            };
            Some(Piece::Parameter(Position::Index(self.count, name), kind))
        } else {
            let lit = self.string();
            Some(Piece::String(lit))
        }
    }

    /// All the pieces that remain, in order.
    pub fn collect_pieces(self) -> (pieces: Vec<Piece>)
        ensures
            pieces_view(pieces@) == parse_from(self@.input, self@.pos as int, self@.count),
    {
        let mut p = self;
        let mut pieces: Vec<Piece> = Vec::new();
        let ghost all = parse_from(p@.input, p@.pos as int, p@.count);
        proof {
            use_type_invariant(&p);
        }
        loop
            invariant
                pieces_view(pieces@) + parse_from(p@.input, p@.pos as int, p@.count) == all,
                all == parse_from(self@.input, self@.pos as int, self@.count),
                p@.pos <= p@.input.len(),
            decreases p@.input.len() - p@.pos,
        {
            let ghost before = p@;
            proof {
                if before.pos < before.input.len() {
                    lemma_step_progress(before.input, before.pos as int, before.count);
                }
            }
            match p.next() {
                None => {
                    assert(pieces_view(pieces@) == all);
                    return pieces;
                },
                Some(piece) => {
                    proof {
                        use_type_invariant(&p);
                    }
                    let ghost old_pieces = pieces@;
                    pieces.push(piece);
                    assert(pieces_view(pieces@) == pieces_view(old_pieces) + seq![piece@]);
                },
            }
        }
    }
}

/// The width of the UTF-8 character that starts with `b`.
fn utf8_width_of(b: u8) -> (w: usize)
    ensures
        w == utf8_width(b),
{
    if b < 0x80 {
        1
    } else if b >= 0xF0 {
        4
    } else if b >= 0xE0 {
        3
    } else {
        2
    }
}

} // verus!
