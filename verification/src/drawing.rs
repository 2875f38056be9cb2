//! A tree drawn as text, one node per line, with its branches.
//!
//! Each literal key is written as text with `:`, `?` and `+` escaped by a
//! backslash, each parameter by its sign (`:`, `?`, `??`, `+`, `*`, `**`), and a
//! node with a value is followed by ` •` and the value.
use vstd::prelude::*;

use crate::bytes::{append_bytes, decimal, usize_to_decimal, BACKSLASH, COLON, PLUS, QUESTION, STAR};
use crate::node::{lemma_models, model, models, Key, KeyModel, Node, NodeModel};
use crate::parser::Kind;
use crate::text::{string_from_utf8_lossy, utf8_lossy};

verus! {

/// A line break.
pub const NEWLINE: u8 = 10;

/// A space.
pub const SPACE: u8 = 32;

/// `├──`: a branch to a child that has siblings after it.
pub open spec fn edge() -> Seq<u8> {
    seq![0xe2u8, 0x94, 0x9c, 0xe2, 0x94, 0x80, 0xe2, 0x94, 0x80]
}

/// `│  `: the line that continues past a child with siblings after it.
pub open spec fn line() -> Seq<u8> {
    seq![0xe2u8, 0x94, 0x82, 0x20, 0x20]
}

/// `└──`: a branch to the last child.
pub open spec fn corner() -> Seq<u8> {
    seq![0xe2u8, 0x94, 0x94, 0xe2, 0x94, 0x80, 0xe2, 0x94, 0x80]
}

/// `   `: the blank left below the last child.
pub open spec fn blank() -> Seq<u8> {
    seq![0x20u8, 0x20, 0x20]
}

/// ` •`: what comes between a key and its value.
pub open spec fn bullet() -> Seq<u8> {
    seq![0x20u8, 0xe2, 0x80, 0xa2]
}

/// The bytes of a literal key, each `:`, `?` and `+` preceded by a backslash.
pub open spec fn escaped(s: Seq<u8>) -> Seq<u8>
    decreases s.len(),
{
    if s.len() == 0 {
        Seq::empty()
    } else {
        let b = s.last();
        escaped(s.drop_last()) + if b == COLON || b == QUESTION || b == PLUS {
            seq![BACKSLASH, b]
        } else {
            seq![b]
        }
    }
}

/// The sign of a parameter's kind.
pub open spec fn kind_sign(k: Kind) -> Seq<u8> {
    match k {
        Kind::Normal => seq![COLON],
        Kind::Optional => seq![QUESTION],
        Kind::OptionalSegment => seq![QUESTION, QUESTION],
        Kind::OneOrMore => seq![PLUS],
        Kind::ZeroOrMore => seq![STAR],
        Kind::ZeroOrMoreSegment => seq![STAR, STAR],
    }
}

/// The line of a node: its key, then its value if it has one.
pub open spec fn node_line(m: NodeModel<usize>) -> Seq<u8> {
    let key = match m.key {
        KeyModel::String(s) => escaped(s),
        KeyModel::Parameter(k) => kind_sign(k),
    };
    let value = match m.value {
        Some(v) => bullet() + decimal(v as nat),
        None => Seq::empty(),
    };
    key + value + seq![NEWLINE]
}

/// The drawing of `m` and everything below it; `pad` is what stands to the
/// left of its children's branches.
pub open spec fn tree_text(m: NodeModel<usize>, root: bool, pad: Seq<u8>) -> Seq<u8>
    decreases m, 1int,
{
    let space = if root {
        Seq::<u8>::empty()
    } else {
        seq![SPACE]
    };
    let lead = if root {
        seq![NEWLINE]
    } else {
        seq![SPACE]
    };
    let first = match m.nodes0 {
        Some(s) => nodes_text(s, s.len(), m.nodes1 is None, pad, space),
        None => Seq::empty(),
    };
    let second = match m.nodes1 {
        Some(s) => nodes_text(s, s.len(), true, pad, space),
        None => Seq::empty(),
    };
    lead + node_line(m) + first + second
}

/// The drawing of the first `n` of the children `s`, each on its branch; the
/// last child of all gets a corner when `check` holds.
pub open spec fn nodes_text(s: Seq<NodeModel<usize>>, n: nat, check: bool, pad: Seq<u8>, space: Seq<u8>) -> Seq<u8>
    decreases s, n,
{
    if n == 0 || n > s.len() {
        Seq::empty()
    } else {
        let i = n - 1;
        let last = check && i == s.len() - 1;
        let left = if last {
            blank()
        } else {
            line()
        };
        let right = if last {
            corner()
        } else {
            edge()
        };
        nodes_text(s, (n - 1) as nat, check, pad, space) + pad + space + right + tree_text(
            s[i],
            false,
            pad + space + left,
        )
    }
}

/// Appends the bytes of `s` to `out`, escaping `:`, `?` and `+`.
fn write_escaped(out: &mut Vec<u8>, s: &[u8])
    ensures
        final(out)@ == old(out)@ + escaped(s@),
{
    let mut i: usize = 0;
    while i < s.len()
        invariant
            i <= s@.len(),
            out@ == old(out)@ + escaped(s@.take(i as int)),
        decreases s@.len() - i,
    {
        let b = s[i];
        if b == COLON || b == QUESTION || b == PLUS {
            out.push(BACKSLASH);
        }
        out.push(b);
        proof {
            assert(s@.take(i + 1).drop_last() =~= s@.take(i as int));
        }
        i = i + 1;
    }
    proof {
        assert(s@.take(s@.len() as int) =~= s@);
    }
}

/// Appends the line of `node` to `out`.
fn write_line(out: &mut Vec<u8>, node: &Node<usize>)
    ensures
        final(out)@ == old(out)@ + node_line(node@),
{
    match &node.key {
        Key::String(s) => write_escaped(out, s.as_slice()),
        Key::Parameter(k) => {
            match k {
                Kind::Normal => out.push(COLON),
                Kind::Optional => out.push(QUESTION),
                Kind::OptionalSegment => {
                    out.push(QUESTION);
                    out.push(QUESTION);
                },
                Kind::OneOrMore => out.push(PLUS),
                Kind::ZeroOrMore => out.push(STAR),
                Kind::ZeroOrMoreSegment => {
                    out.push(STAR);
                    out.push(STAR);
                },
            }
        },
    }
    let ghost mid = out@;
    match &node.value {
        Some(v) => {
            out.push(0x20);
            out.push(0xe2);
            out.push(0x80);
            out.push(0xa2);
            let digits = usize_to_decimal(*v);
            append_bytes(out, digits.as_slice());
        },
        None => {},
    }
    out.push(NEWLINE);
    proof {
        assert(out@ =~= old(out)@ + node_line(node@));
    }
}

/// Appends the drawing of `node` and everything below it to `out`.
fn write_tree(out: &mut Vec<u8>, node: &Node<usize>, root: bool, pad: &Vec<u8>)
    ensures
        final(out)@ == old(out)@ + tree_text(node@, root, pad@),
    decreases node,
{
    out.push(if root {
        NEWLINE
    } else {
        SPACE
    });
    write_line(out, node);
    let space: Vec<u8> = if root {
        Vec::new()
    } else {
        vec![SPACE]
    };
    let ghost after_line = out@;
    match &node.nodes0 {
        Some(v) => write_nodes(out, v, node.nodes1.is_none(), pad, &space),
        None => {},
    }
    let ghost after_first = out@;
    match &node.nodes1 {
        Some(v) => write_nodes(out, v, true, pad, &space),
        None => {},
    }
    proof {
        let m = node@;
        if node.nodes0 is Some {
            lemma_models(node.nodes0->Some_0@, node.nodes0->Some_0@.len());
        }
        if node.nodes1 is Some {
            lemma_models(node.nodes1->Some_0@, node.nodes1->Some_0@.len());
        }
        let sp = if root {
            Seq::<u8>::empty()
        } else {
            seq![SPACE]
        };
        assert(space@ =~= sp);
        assert(after_line =~= old(out)@ + (if root { seq![NEWLINE] } else { seq![SPACE] }) + node_line(m));
        assert(out@ =~= old(out)@ + tree_text(m, root, pad@));
    }
}

proof fn lemma_nodes_step(s: Seq<NodeModel<usize>>, i: nat, check: bool, pad: Seq<u8>, space: Seq<u8>)
    requires
        i < s.len(),
    ensures
        nodes_text(s, i + 1, check, pad, space) == nodes_text(s, i, check, pad, space) + pad + space + (if check
            && i == s.len() - 1 {
            corner()
        } else {
            edge()
        }) + tree_text(
            s[i as int],
            false,
            pad + space + (if check && i == s.len() - 1 {
                blank()
            } else {
                line()
            }),
        ),
{
}

/// Appends a branch to `out`: `├──` for `0x9c`, `└──` for `0x94`.
fn write_branch(out: &mut Vec<u8>, turn: u8)
    requires
        turn == 0x9c || turn == 0x94,
    ensures
        turn == 0x9c ==> final(out)@ == old(out)@ + edge(),
        turn == 0x94 ==> final(out)@ == old(out)@ + corner(),
{
    out.push(0xe2);
    out.push(0x94);
    out.push(turn);
    out.push(0xe2);
    out.push(0x94);
    out.push(0x80);
    out.push(0xe2);
    out.push(0x94);
    out.push(0x80);
    proof {
        assert(turn == 0x9c ==> out@ =~= old(out)@ + edge());
        assert(turn == 0x94 ==> out@ =~= old(out)@ + corner());
    }
}

/// Appends the drawing of the children `v`, each on its branch, to `out`.
#[verifier::rlimit(50)]
fn write_nodes(out: &mut Vec<u8>, v: &Vec<Node<usize>>, check: bool, pad: &Vec<u8>, space: &Vec<u8>)
    ensures
        final(out)@ == old(out)@ + nodes_text(models(v@, v@.len()), v@.len(), check, pad@, space@),
    decreases v,
{
    let ghost s = models(v@, v@.len());
    proof {
        lemma_models(v@, v@.len());
    }
    let n = v.len();
    let mut i: usize = 0;
    while i < n
        invariant
            n == v@.len(),
            s == models(v@, v@.len()),
            s.len() == n,
            forall|j: int| 0 <= j < n ==> #[trigger] s[j] == model(v@[j]),
            i <= n,
            out@ == old(out)@ + nodes_text(s, i as nat, check, pad@, space@),
        decreases n - i,
    {
        let last = check && i == n - 1;
        let mut inner = crate::bytes::copy_range(pad.as_slice(), 0, pad.len());
        append_bytes(&mut inner, space.as_slice());
        let ghost before = out@;
        append_bytes(out, pad.as_slice());
        append_bytes(out, space.as_slice());
        if last {
            write_branch(out, 0x94);
            inner.push(SPACE);
            inner.push(SPACE);
            inner.push(SPACE);
        } else {
            write_branch(out, 0x9c);
            inner.push(0xe2);
            inner.push(0x94);
            inner.push(0x82);
            inner.push(SPACE);
            inner.push(SPACE);
        }
        proof {
            assert(decreases_to!(v => v@));
            assert(decreases_to!(v@ => v@[i as int]));
        }
        let ghost mid = out@;
        write_tree(out, &v[i], false, &inner);
        proof {
            let left = if last { blank() } else { line() };
            let right = if last { corner() } else { edge() };
            assert(inner@ =~= pad@ + space@ + left);
            assert(mid =~= before + pad@ + space@ + right);
            assert(out@ == mid + tree_text(s[i as int], false, pad@ + space@ + left));
            lemma_nodes_step(s, i as nat, check, pad@, space@);
            assert(out@ =~= old(out)@ + nodes_text(s, (i + 1) as nat, check, pad@, space@));
        }
        i = i + 1;
    }
}

impl Node<usize> {
    /// The tree below this node drawn as text, one node per line.
    pub fn debug_tree(&self) -> (s: String)
        ensures
            s@ == utf8_lossy(tree_text(self@, true, Seq::empty())),
            vstd::utf8::valid_utf8(tree_text(self@, true, Seq::empty())) ==> s@ == vstd::utf8::decode_utf8(
                tree_text(self@, true, Seq::empty()),
            ),
    {
        let mut out: Vec<u8> = Vec::new();
        let pad: Vec<u8> = Vec::new();
        write_tree(&mut out, self, true, &pad);
        proof {
            assert(out@ =~= tree_text(self@, true, Seq::empty()));
        }
        string_from_utf8_lossy(out.as_slice())
    }
}


/// The sign drawn for a parameter node tells its kind: `:` for `Normal`,
/// `?` for `Optional`, `??` for `OptionalSegment`, `+` for `OneOrMore`, `*`
/// for `ZeroOrMore` and `**` for `ZeroOrMoreSegment`, so distinct kinds are
/// drawn with distinct signs.
pub proof fn law_kind_sign(k1: Kind, k2: Kind)
    ensures
        kind_sign(k1) == kind_sign(k2) ==> k1 == k2,
        kind_sign(k1).len() >= 1,
        kind_sign(k1)[0] == match k1 {
            Kind::Normal => COLON,
            Kind::Optional | Kind::OptionalSegment => QUESTION,
            Kind::OneOrMore => PLUS,
            Kind::ZeroOrMore | Kind::ZeroOrMoreSegment => STAR,
        },
        (k1 == Kind::OptionalSegment || k1 == Kind::ZeroOrMoreSegment) <==> kind_sign(k1).len() == 2,
{
    if kind_sign(k1) == kind_sign(k2) {
        assert(kind_sign(k1)[0] == kind_sign(k2)[0]);
        assert(kind_sign(k1).len() == kind_sign(k2).len());
    }
}

/// Two parameter nodes with the same value are drawn on the same line only
/// when they have the same kind.
pub proof fn law_param_line_kind(m1: NodeModel<usize>, m2: NodeModel<usize>)
    requires
        m1.key is Parameter,
        m2.key is Parameter,
        m1.value == m2.value,
        node_line(m1) == node_line(m2),
    ensures
        m1.key == m2.key,
{
    let k1 = m1.key->Parameter_0;
    let k2 = m2.key->Parameter_0;
    let a = kind_sign(k1);
    let b = kind_sign(k2);
    let rest = match m1.value {
        Some(v) => bullet() + decimal(v as nat),
        None => Seq::empty(),
    } + seq![NEWLINE];
    law_kind_sign(k1, k2);
    law_kind_sign(k2, k1);
    assert(node_line(m1) =~= a + rest);
    assert(node_line(m2) =~= b + rest);
    assert(rest.len() > 0 && (rest[0] == 0x20u8 || rest[0] == NEWLINE));
    assert((a + rest)[0] == a[0]);
    assert((b + rest)[0] == b[0]);
    assert((a + rest)[1] == if a.len() == 2 { a[1] } else { rest[0] });
    assert((b + rest)[1] == if b.len() == 2 { b[1] } else { rest[0] });
    if a.len() != b.len() {
        assert(false);
    } else if a.len() == 2 {
        assert(a =~= seq![a[0], a[1]]);
        assert(b =~= seq![b[0], b[1]]);
    } else {
        assert(a =~= seq![a[0]]);
        assert(b =~= seq![b[0]]);
    }
}


/// A key is drawn piece by piece: the drawing of two runs of bytes is the
/// drawing of the first, then that of the second.
pub proof fn law_escaped_concat(s1: Seq<u8>, s2: Seq<u8>)
    ensures
        escaped(s1 + s2) == escaped(s1) + escaped(s2),
    decreases s2.len(),
{
    if s2.len() == 0 {
        assert(s1 + s2 =~= s1);
        assert(escaped(s1) + escaped(s2) =~= escaped(s1));
    } else {
        law_escaped_concat(s1, s2.drop_last());
        assert((s1 + s2).drop_last() =~= s1 + s2.drop_last());
        assert((s1 + s2).last() == s2.last());
        let tail = if s2.last() == COLON || s2.last() == QUESTION || s2.last() == PLUS {
            seq![BACKSLASH, s2.last()]
        } else {
            seq![s2.last()]
        };
        assert(escaped(s1) + escaped(s2) =~= escaped(s1) + escaped(s2.drop_last()) + tail);
    }
}

/// A key without `:`, `?` or `+` is drawn as it is; each of those three
/// bytes is drawn with a backslash before it.
pub proof fn law_escaped_bytes(s: Seq<u8>, b: u8)
    ensures
        (forall|i: int| 0 <= i < s.len() ==> #[trigger] s[i] != COLON && s[i] != QUESTION && s[i] != PLUS) ==> escaped(s)
            == s,
        escaped(seq![b]) == if b == COLON || b == QUESTION || b == PLUS {
            seq![BACKSLASH, b]
        } else {
            seq![b]
        },
    decreases s.len(),
{
    assert(seq![b].drop_last() =~= Seq::<u8>::empty());
    assert(seq![b].last() == b);
    assert(escaped(Seq::<u8>::empty()) == Seq::<u8>::empty());
    assert(escaped(seq![b]) == escaped(seq![b].drop_last()) + if b == COLON || b == QUESTION || b == PLUS {
        seq![BACKSLASH, b]
    } else {
        seq![b]
    });
    assert(Seq::<u8>::empty() + seq![BACKSLASH, b] =~= seq![BACKSLASH, b]);
    assert(Seq::<u8>::empty() + seq![b] =~= seq![b]);
    if s.len() > 0 && (forall|i: int| 0 <= i < s.len() ==> #[trigger] s[i] != COLON && s[i] != QUESTION && s[i] != PLUS) {
        law_escaped_bytes(s.drop_last(), b);
        assert(s.last() == s[s.len() - 1]);
        assert forall|i: int| 0 <= i < s.drop_last().len() implies #[trigger] s.drop_last()[i] != COLON
            && s.drop_last()[i] != QUESTION && s.drop_last()[i] != PLUS by {
            assert(s.drop_last()[i] == s[i]);
        }
        assert(s.drop_last() + seq![s.last()] =~= s);
    }
}

} // verus!
