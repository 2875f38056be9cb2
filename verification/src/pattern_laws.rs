//! Laws of patterns: a parsed pattern, written back out, is the pattern itself.
use vstd::prelude::*;

use crate::bytes::{BACKSLASH, COLON, PLUS, QUESTION, SLASH, STAR};
use crate::parser::{
    ends_name, is_modifier, is_special, parse_from, parse_pattern, scan_param, scan_string, step,
    utf8_width, Kind, PieceView, PositionView,
};
use crate::path::{pattern_bytes, piece_pattern};

verus! {

/// The `:` at `j` opens a parameter: it is not escaped by a `\` before it.
pub open spec fn opens_param(s: Seq<u8>, j: int) -> bool {
    0 <= j < s.len() && s[j] == COLON && (j == 0 || s[j - 1] != BACKSLASH)
}

/// No byte strictly between `j` and `k` ends a name or gives it a kind.
pub open spec fn name_runs(s: Seq<u8>, j: int, k: int) -> bool {
    forall|t: int| j < t < k ==> !ends_name(#[trigger] s[t]) && !is_modifier(s[t])
}

/// Every `\` escapes a `:`, `+` or `?` right after it.
pub open spec fn escapes_plain(s: Seq<u8>) -> bool {
    forall|i: int|
        0 <= i < s.len() && #[trigger] s[i] == BACKSLASH ==> i + 1 < s.len() && (s[i + 1] == COLON
            || s[i + 1] == PLUS || s[i + 1] == QUESTION)
}

/// No `:name` is followed by `+` or `*`.
pub open spec fn no_named_repeat(s: Seq<u8>) -> bool {
    forall|j: int, k: int|
        #![trigger opens_param(s, j), s[k]]
        j < k < s.len() && opens_param(s, j) && name_runs(s, j, k) ==> s[k] != PLUS && s[k] != STAR
}

/// Every `?` is escaped or ends a `:name?`.
pub open spec fn questions_placed(s: Seq<u8>) -> bool {
    forall|i: int|
        0 <= i < s.len() && #[trigger] s[i] == QUESTION ==> (i > 0 && s[i - 1] == BACKSLASH) || exists|
            j: int,
        |
            #![trigger opens_param(s, j)]
            j < i && opens_param(s, j) && name_runs(s, j, i)
}

/// A pattern that is written back out as it was read: every `\` escapes a
/// `:`, `+` or `?`, every other `?` ends a `:name?`, and no `:name` is
/// followed by `+` or `*` (such a parameter is written back as `+name` or
/// `*name`).
pub open spec fn plain_pattern(s: Seq<u8>) -> bool {
    &&& escapes_plain(s)
    &&& no_named_repeat(s)
    &&& questions_placed(s)
}

/// What holds where the parser starts a step: the byte before is no escaping
/// `\`, and a name opened before ends here or earlier.
spec fn at_step(s: Seq<u8>, pos: int) -> bool {
    &&& 0 <= pos <= s.len()
    &&& pos < s.len() ==> (pos == 0 || s[pos - 1] != BACKSLASH)
    &&& forall|j: int|
        #![trigger opens_param(s, j)]
        j < pos && opens_param(s, j) && name_runs(s, j, pos) && pos < s.len() ==> ends_name(s[pos])
}

/// Writing a piece before others.
proof fn lemma_pattern_cons(a: PieceView, rest: Seq<PieceView>)
    ensures
        pattern_bytes(seq![a] + rest) == piece_pattern(a) + pattern_bytes(rest),
    decreases rest.len(),
{
    let whole = seq![a] + rest;
    if rest.len() == 0 {
        assert(whole =~= seq![a]);
        assert(whole.drop_last() =~= Seq::<PieceView>::empty());
        assert(whole.last() == a);
        assert(pattern_bytes(whole) == pattern_bytes(whole.drop_last()) + piece_pattern(a));
        assert(pattern_bytes(whole) =~= piece_pattern(a));
        assert(piece_pattern(a) + pattern_bytes(rest) =~= piece_pattern(a));
    } else {
        lemma_pattern_cons(a, rest.drop_last());
        assert(whole.drop_last() =~= seq![a] + rest.drop_last());
        assert(whole.last() == rest.last());
        assert(pattern_bytes(whole) == pattern_bytes(whole.drop_last()) + piece_pattern(
            whole.last(),
        ));
        assert(pattern_bytes(rest) == pattern_bytes(rest.drop_last()) + piece_pattern(
            rest.last(),
        ));
        assert(piece_pattern(a) + pattern_bytes(rest) =~= piece_pattern(a) + pattern_bytes(
            rest.drop_last(),
        ) + piece_pattern(rest.last()));
    }
}

/// A literal run that starts with no `\`: it goes up to the first `:`, `+`,
/// `*` or `\`, or to the end.
proof fn lemma_scan_run(s: Seq<u8>, start: int, i: int)
    requires
        0 <= start <= i <= s.len(),
        start < s.len(),
        s[start] != BACKSLASH,
        !is_special(s[start]),
        forall|t: int| start <= t < i ==> !is_special(#[trigger] s[t]) && s[t] != BACKSLASH,
    ensures
        ({
            let r = scan_string(s, start, i);
            &&& i <= r.1 <= s.len()
            &&& start < r.1
            &&& r.0 == s.subrange(start, r.1)
            &&& forall|t: int| start <= t < r.1 ==> !is_special(#[trigger] s[t]) && s[t] != BACKSLASH
        }),
    decreases s.len() - i,
{
    if i < s.len() && s[i] != BACKSLASH && !is_special(s[i]) {
        lemma_scan_run(s, start, i + 1);
    }
}

/// One step of the parser at a step start: its piece is written back as the
/// bytes it was read from, and the next position is a step start too.
proof fn lemma_step_plain(s: Seq<u8>, pos: int, count: nat)
    requires
        plain_pattern(s),
        at_step(s, pos),
        pos < s.len(),
    ensures
        ({
            let r = step(s, pos, count)->Some_0;
            &&& step(s, pos, count) is Some
            &&& pos < r.1 <= s.len()
            &&& piece_pattern(r.0) == s.subrange(pos, r.1)
            &&& at_step(s, r.1)
        }),
{
    let r = step(s, pos, count)->Some_0;
    if s[pos] == COLON {
        assert(opens_param(s, pos));
        lemma_scan_param_end(s, pos + 1, pos + 1);
        let sp = scan_param(s, pos + 1, pos + 1);
        let e = sp.2;
        if sp.1 != Kind::Normal {
            assert(s[e - 1] != PLUS && s[e - 1] != STAR);
            assert(s[e - 1] == QUESTION);
            assert(piece_pattern(r.0) =~= s.subrange(pos, e));
            assert forall|j: int|
                #![trigger opens_param(s, j)]
                j < e && opens_param(s, j) && name_runs(s, j, e) && e < s.len() implies ends_name(
                s[e],
            ) by {
                if j < e - 1 {
                    assert(is_modifier(s[e - 1]));
                } else {
                    assert(s[j] == QUESTION);
                }
            }
        } else {
            assert(piece_pattern(r.0) =~= s.subrange(pos, e));
        }
        if e < s.len() && e - 1 > pos {
            assert(s[e - 1] != BACKSLASH) by {
                if sp.1 == Kind::Normal {
                    assert(!ends_name(s[e - 1]));
                }
            }
        }
    } else if s[pos] == PLUS || s[pos] == STAR {
        assert(piece_pattern(r.0) =~= s.subrange(pos, pos + 1));
        assert forall|j: int|
            #![trigger opens_param(s, j)]
            j < pos + 1 && opens_param(s, j) && name_runs(s, j, pos + 1) && pos + 1 < s.len()
                implies ends_name(s[pos + 1]) by {
            assert(is_modifier(s[pos]));
        }
    } else if s[pos] == BACKSLASH {
        assert(pos + 1 < s.len());
        let c = s[pos + 1];
        assert(c == COLON || c == PLUS || c == QUESTION);
        assert(utf8_width(c) == 1);
        let sr = scan_string(s, pos, pos);
        assert(sr.0 =~= seq![c]);
        assert(sr.1 == pos + 2);
        assert(piece_pattern(r.0) =~= s.subrange(pos, pos + 2));
        assert forall|j: int|
            #![trigger opens_param(s, j)]
            j < pos + 2 && opens_param(s, j) && name_runs(s, j, pos + 2) && pos + 2 < s.len()
                implies ends_name(s[pos + 2]) by {
            if j < pos {
                assert(name_runs(s, j, pos));
                assert(ends_name(s[pos]));
            } else if j == pos + 1 {
                assert(!opens_param(s, j));
            }
        }
    } else {
        lemma_scan_run(s, pos, pos);
        let sr = scan_string(s, pos, pos);
        let e = sr.1;
        if s[pos] == QUESTION {
            // A `?` alone would be written back escaped; it is not alone.
            if pos > 0 && s[pos - 1] == BACKSLASH {
                assert(false);
            } else {
                let j = choose|j: int|
                    #![trigger opens_param(s, j)]
                    j < pos && opens_param(s, j) && name_runs(s, j, pos);
                assert(ends_name(s[pos]));
                assert(false);
            }
        }
        assert(sr.0 != seq![COLON]) by {
            if sr.0 == seq![COLON] {
                assert(sr.0[0] == s[pos]);
            }
        }
        assert(sr.0 != seq![PLUS]) by {
            if sr.0 == seq![PLUS] {
                assert(sr.0[0] == s[pos]);
            }
        }
        assert(sr.0 != seq![QUESTION]) by {
            if sr.0 == seq![QUESTION] {
                assert(sr.0[0] == s[pos]);
            }
        }
        assert(piece_pattern(r.0) == s.subrange(pos, e));
        assert forall|j: int|
            #![trigger opens_param(s, j)]
            j < e && opens_param(s, j) && name_runs(s, j, e) && e < s.len() implies ends_name(
            s[e],
        ) by {
            if j < pos {
                assert(name_runs(s, j, pos));
                assert(ends_name(s[pos]));
            } else {
                assert(!is_special(s[j]));
            }
        }
        if e < s.len() {
            assert(s[e - 1] != BACKSLASH);
        }
    }
}

/// Where a parameter's name ends, and what its kind says of the byte there.
proof fn lemma_scan_param_end(s: Seq<u8>, start: int, i: int)
    requires
        1 <= start <= i <= s.len(),
        name_runs(s, start - 1, i),
    ensures
        ({
            let r = scan_param(s, start, i);
            &&& i <= r.2 <= s.len()
            &&& r.0 == s.subrange(start, if r.1 == Kind::Normal {
                r.2
            } else {
                r.2 - 1
            })
            &&& r.1 == Kind::Normal ==> r.2 == s.len() || (r.2 < s.len() && ends_name(s[r.2])
                && name_runs(s, start - 1, r.2))
            &&& r.1 != Kind::Normal ==> start < r.2 && is_modifier(s[r.2 - 1]) && name_runs(
                s,
                start - 1,
                r.2 - 1,
            ) && (s[r.2 - 1] == QUESTION ==> r.1 == Kind::Optional || r.1 == Kind::OptionalSegment)
            &&& r.1 == Kind::Normal && r.2 == s.len() ==> name_runs(s, start - 1, r.2)
        }),
    decreases s.len() - i,
{
    if i < s.len() && !ends_name(s[i]) && !is_modifier(s[i]) {
        lemma_scan_param_end(s, start, i + 1);
    }
}

/// From a step start on, the pieces are written back as the bytes they came from.
proof fn lemma_round_trip(s: Seq<u8>, pos: int, count: nat)
    requires
        plain_pattern(s),
        at_step(s, pos),
    ensures
        pattern_bytes(parse_from(s, pos, count)) == s.subrange(pos, s.len() as int),
    decreases s.len() - pos,
{
    if pos < s.len() {
        lemma_step_plain(s, pos, count);
        let r = step(s, pos, count)->Some_0;
        lemma_round_trip(s, r.1, r.2);
        lemma_pattern_cons(r.0, parse_from(s, r.1, r.2));
        assert(s.subrange(pos, s.len() as int) =~= s.subrange(pos, r.1) + s.subrange(
            r.1,
            s.len() as int,
        ));
    } else {
        assert(step(s, pos, count) is None);
        assert(s.subrange(pos, s.len() as int) =~= Seq::<u8>::empty());
    }
}

/// Writing a parsed pattern back out, piece after piece, gives the pattern
/// itself, when every `\` in it escapes a `:`, `+` or `?`, every other `?`
/// ends a `:name?`, and no `:name` is followed by `+` or `*`.
pub proof fn law_pattern_round_trip(s: Seq<u8>)
    requires
        plain_pattern(s),
    ensures
        pattern_bytes(parse_pattern(s)) == s,
{
    assert(at_step(s, 0));
    lemma_round_trip(s, 0, 0);
    assert(s.subrange(0, s.len() as int) =~= s);
}


/// Scanning a name goes on, unchanged, past bytes that neither end it nor
/// give it a kind.
proof fn lemma_scan_param_skip(s: Seq<u8>, start: int, j: int, i: int)
    requires
        0 <= j <= i <= s.len(),
        forall|t: int| j <= t < i ==> !ends_name(#[trigger] s[t]) && !is_modifier(s[t]),
    ensures
        scan_param(s, start, j) == scan_param(s, start, i),
    decreases i - j,
{
    if j < i {
        lemma_scan_param_skip(s, start, j + 1, i);
    }
}

/// A parameter fills a whole segment: a `/` just before the byte that opens
/// it (`at`), and a `/` or the end just after its sign (`sign`).
pub open spec fn fills_segment(s: Seq<u8>, at: int, sign: int) -> bool {
    &&& at >= 1
    &&& s[at - 1] == SLASH
    &&& (sign + 1 == s.len() || s[sign + 1] == SLASH)
}

/// The kind of a named parameter comes from the byte that ends its name. A
/// `:name` runs from the `:` at `pos` to the first byte `i` that ends a name
/// or gives a kind. At the end of the pattern, or at `-`, `.`, `~`, `/`, `\`
/// or `:`, the parameter is `Normal` and the next piece starts at `i`. A `+`
/// makes it `OneOrMore`. A `?` makes it `Optional`, and a `*` `ZeroOrMore`,
/// unless the parameter fills a whole segment (a `/` before the `:` and a `/`
/// or the end after the sign), which makes it `OptionalSegment` or
/// `ZeroOrMoreSegment`; the sign is part of the parameter.
pub proof fn law_named_kind(s: Seq<u8>, pos: int, i: int, count: nat)
    requires
        0 <= pos < i <= s.len(),
        s[pos] == COLON,
        forall|t: int| pos < t < i ==> !ends_name(#[trigger] s[t]) && !is_modifier(s[t]),
        i < s.len() ==> ends_name(s[i]) || is_modifier(s[i]),
    ensures
        ({
            let r = step(s, pos, count)->Some_0;
            let name = PositionView::Named(s.subrange(pos + 1, i));
            &&& step(s, pos, count) is Some
            &&& r.2 == count
            &&& (i == s.len() || ends_name(s[i])) ==> r.0 == PieceView::Parameter(name, Kind::Normal) && r.1 == i
            &&& (i < s.len() && s[i] == PLUS) ==> r.0 == PieceView::Parameter(name, Kind::OneOrMore) && r.1 == i + 1
            &&& (i < s.len() && s[i] == QUESTION) ==> r.0 == PieceView::Parameter(
                name,
                if fills_segment(s, pos, i) {
                    Kind::OptionalSegment
                } else {
                    Kind::Optional
                },
            ) && r.1 == i + 1
            &&& (i < s.len() && s[i] == STAR) ==> r.0 == PieceView::Parameter(
                name,
                if fills_segment(s, pos, i) {
                    Kind::ZeroOrMoreSegment
                } else {
                    Kind::ZeroOrMore
                },
            ) && r.1 == i + 1
        }),
{
    lemma_scan_param_skip(s, pos + 1, pos + 1, i);
}

/// An unnamed `+` is `OneOrMore`; an unnamed `*` is `ZeroOrMore`, or
/// `ZeroOrMoreSegment` when it fills a whole segment. Either is numbered
/// next and named by its sign and its number.
pub proof fn law_unnamed_kind(s: Seq<u8>, pos: int, count: nat)
    requires
        0 <= pos < s.len(),
        s[pos] == PLUS || s[pos] == STAR,
    ensures
        ({
            let r = step(s, pos, count)->Some_0;
            &&& step(s, pos, count) is Some
            &&& r.1 == pos + 1
            &&& r.2 == count + 1
            &&& r.0 matches PieceView::Parameter(PositionView::Index(c, name), k) && c == count + 1
                && name == seq![s[pos]] + crate::bytes::decimal(count + 1) && k == if s[pos] == PLUS {
                Kind::OneOrMore
            } else if fills_segment(s, pos, pos) {
                Kind::ZeroOrMoreSegment
            } else {
                Kind::ZeroOrMore
            }
        }),
{
}

/// What follows a parameter that ends at its sign does not change it: the
/// pattern cut right after the sign reads the same parameter, when the cut
/// leaves a `/` or the end after the sign. So `/:p*/edit` reads its `:p*` as
/// `/:p*` does, and `/*/a` its `*` as `/*` does.
pub proof fn law_kind_before_slash(s: Seq<u8>, pos: int, i: int, count: nat)
    requires
        0 <= pos <= i < s.len(),
        i + 1 == s.len() || s[i + 1] == SLASH,
        is_modifier(s[i]),
        pos == i ==> s[pos] == PLUS || s[pos] == STAR,
        pos < i ==> s[pos] == COLON && forall|t: int|
            pos < t < i ==> !ends_name(#[trigger] s[t]) && !is_modifier(s[t]),
    ensures
        step(s, pos, count) == step(s.take(i + 1), pos, count),
{
    let c = s.take(i + 1);
    assert forall|t: int| 0 <= t < c.len() implies c[t] == s[t] by {}
    if pos == i {
        law_unnamed_kind(s, pos, count);
        law_unnamed_kind(c, pos, count);
    } else {
        law_named_kind(s, pos, i, count);
        law_named_kind(c, pos, i, count);
        assert(c.subrange(pos + 1, i) =~= s.subrange(pos + 1, i));
    }
}


/// Each parameter is written with the sign of its kind first: `*` for the
/// zero-or-more kinds, `+` for one or more, `:` for the others (which take a
/// name); a name follows its sign, and an optional parameter ends in `?`.
pub proof fn law_param_sign(pos: PositionView, k: Kind)
    ensures
        ({
            let w = piece_pattern(PieceView::Parameter(pos, k));
            &&& (k == Kind::ZeroOrMore || k == Kind::ZeroOrMoreSegment) ==> w.len() > 0 && w[0] == STAR
            &&& k == Kind::OneOrMore ==> w.len() > 0 && w[0] == PLUS
            &&& pos is Named && (k == Kind::Normal || k == Kind::Optional || k == Kind::OptionalSegment) ==> w.len() > 0
                && w[0] == COLON
            &&& pos matches PositionView::Named(n) ==> w.len() >= n.len() + 1 && w.subrange(1, n.len() + 1int) == n
            &&& pos is Named && (k == Kind::Optional || k == Kind::OptionalSegment) ==> w.last() == QUESTION
            &&& pos is Index ==> w.len() <= 1
        }),
{
    let w = piece_pattern(PieceView::Parameter(pos, k));
    match pos {
        PositionView::Named(n) => {
            match k {
                Kind::Normal => {
                    assert(w.subrange(1, n.len() + 1int) =~= n);
                },
                Kind::Optional | Kind::OptionalSegment => {
                    assert(w.subrange(1, n.len() + 1int) =~= n);
                },
                _ => {
                    assert(w.subrange(1, n.len() + 1int) =~= n);
                },
            }
        },
        PositionView::Index(_, _) => {},
    }
}

/// A kind with the whole-segment distinction dropped: what a parameter
/// standing alone, with nothing before it, is read as.
pub open spec fn plain_kind(k: Kind) -> Kind {
    match k {
        Kind::OptionalSegment => Kind::Optional,
        Kind::ZeroOrMoreSegment => Kind::ZeroOrMore,
        _ => k,
    }
}

/// Writing a parameter and reading the text back gives first a parameter of
/// the same kind (but for the whole-segment distinction, which depends on
/// what stands around it), and, for a `:` parameter, of the same name: the
/// sign written is the one the parser reads as that kind.
pub proof fn law_param_written_reads_back(pos: PositionView, k: Kind)
    requires
        pos matches PositionView::Named(n) ==> forall|t: int| 0 <= t < n.len() ==> !ends_name(#[trigger] n[t]) && !is_modifier(n[t]),
        pos is Index ==> k == Kind::OneOrMore || k == Kind::ZeroOrMore || k == Kind::ZeroOrMoreSegment,
    ensures
        ({
            let w = piece_pattern(PieceView::Parameter(pos, k));
            let ps = parse_pattern(w);
            &&& ps.len() > 0
            &&& ps[0] matches PieceView::Parameter(pos2, k2) && k2 == plain_kind(k)
            &&& (pos is Named && (k == Kind::Normal || k == Kind::Optional || k == Kind::OptionalSegment)) ==> (ps[0]
                matches PieceView::Parameter(pos2, _) && pos2 == pos)
        }),
{
    let w = piece_pattern(PieceView::Parameter(pos, k));
    law_param_sign(pos, k);
    crate::parser::lemma_step_progress(w, 0, 0);
    let r = step(w, 0, 0)->Some_0;
    assert(parse_pattern(w) == seq![r.0] + parse_from(w, r.1, r.2));
    if w[0] == PLUS || w[0] == STAR {
        law_unnamed_kind(w, 0, 0);
        assert(!fills_segment(w, 0, 0));
    } else {
        let n = pos->Named_0;
        assert(w[0] == COLON);
        if k == Kind::Normal {
            assert(w =~= seq![COLON] + n);
            law_named_kind(w, 0, w.len() as int, 0);
            assert(w.subrange(1, w.len() as int) =~= n);
        } else {
            assert(w =~= seq![COLON] + n + seq![QUESTION]);
            let i = w.len() - 1;
            law_named_kind(w, 0, i, 0);
            assert(w.subrange(1, i) =~= n);
            assert(!fills_segment(w, 0, i));
        }
    }
}

} // verus!
