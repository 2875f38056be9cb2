use core::cmp::Ordering;
use path_tree::{Kind, Node, NodeKind, ParamsIter, Parser, Path, PathTree, Piece, Position, Raws};

#[test]
fn literal_route_is_found_again() {
    let mut tree = PathTree::<usize>::new();
    let paths = ["/", "/about", "/about/us", "/ab", "/α", "/β", "/a/b/c"];
    let mut ids = Vec::new();
    for (i, p) in paths.iter().enumerate() {
        let id = tree.insert(p, i * 10);
        ids.push(id);
        let r = tree.find(p).unwrap();
        assert_eq!(*r.id, id);
        assert_eq!(*r.value, i * 10);
        assert_eq!(r.params(), vec![]);
    }
    assert_eq!(ids, vec![0, 1, 2, 3, 4, 5, 6]);
    for (i, p) in paths.iter().enumerate() {
        let r = tree.find(p).unwrap();
        assert_eq!(*r.value, i * 10);
    }
}

#[test]
fn parameter_route_on_new_tree() {
    let mut tree = PathTree::<u8>::new();
    let id = tree.insert("/users/:id", 7);
    assert_eq!(id, 0);
    let r = tree.find("/users/gordon").unwrap();
    assert_eq!(*r.value, 7);
    assert_eq!(*r.id, 0);
    assert_eq!(r.params(), vec![("id", "gordon")]);
    let r = tree.find("/users/ünï").unwrap();
    assert_eq!(r.params(), vec![("id", "ünï")]);
    assert!(tree.find("/users/").is_none());
    assert!(tree.find("/users/a/b").is_none());
    assert!(tree.find("/user").is_none());
}

#[test]
fn reinsert_keeps_id_and_replaces_route() {
    let mut tree = PathTree::<&str>::new();
    assert_eq!(tree.insert("/a/:x", "first"), 0);
    assert_eq!(tree.insert("/b", "b"), 1);
    assert_eq!(tree.insert("/a/:y", "second"), 0);
    let r = tree.find("/a/1").unwrap();
    assert_eq!(*r.value, "second");
    assert_eq!(r.params(), vec![("y", "1")]);
    assert_eq!(tree.get_route(0).unwrap().0, "second");
    assert!(tree.get_route(2).is_none());
    assert_eq!(tree.insert("/c", "c"), 2);
}

#[test]
fn empty_pattern_stands_for_the_root() {
    let mut tree = PathTree::<usize>::new();
    assert_eq!(tree.insert("", 1), 0);
    assert!(tree.find("").is_none());
    assert!(tree.get_route(0).is_none());
    assert_eq!(tree.insert("/", 1), 0);
    assert_eq!(tree.insert("", 2), 0);
    let r = tree.find("/").unwrap();
    assert_eq!(*r.value, 2);
    assert_eq!(r.pieces, &[Piece::String(b"/".to_vec())]);
    assert!(tree.get_route(1).is_none());
}

#[test]
fn default_is_empty() {
    let tree = PathTree::<usize>::default();
    assert!(tree.find("/").is_none());
    assert!(tree.get_route(0).is_none());
    assert!(tree.url_for(0, &[]).is_none());
}

#[test]
fn url_for_fills_parameters_in_order() {
    let mut tree = PathTree::<usize>::new();
    let id = tree.insert("/:org/:repo/tags/:tag", 1);
    assert_eq!(tree.url_for(id, &["viz-rs", "path-tree", "v1"]).unwrap(), "/viz-rs/path-tree/tags/v1");
    assert_eq!(tree.url_for(id, &["viz-rs"]).unwrap(), "/viz-rs//tags/");
    assert_eq!(tree.url_for(id, &["a", "b", "c", "d"]).unwrap(), "/a/b/tags/c");
    assert!(tree.url_for(id + 1, &["a"]).is_none());
    let id = tree.insert("/files/*", 2);
    assert_eq!(tree.url_for(id, &["ünï/x"]).unwrap(), "/files/ünï/x");
}

#[test]
fn pattern_is_written_back() {
    let mut tree = PathTree::<usize>::new();
    let cases = [
        "/:org/:repo/releases/download/:tag/:filename.:ext",
        "/api/+",
        "/files/*",
        "/:a?",
        "/x/:a?-:b",
        "/p/:path+",
        "/q/:rest*",
        r"/\::name",
    ];
    for (i, c) in cases.iter().enumerate() {
        tree.insert(c, i);
    }
    let r = tree.find("/rust-lang/rust/releases/download/v1/app.gz").unwrap();
    assert_eq!(r.pattern(), "/:org/:repo/releases/download/:tag/:filename.:ext");
    let r = tree.find("/api/v1/x").unwrap();
    assert_eq!(r.pattern(), "/api/+");
    let r = tree.find("/files/a/b").unwrap();
    assert_eq!(r.pattern(), "/files/*");
    let r = tree.find("/p/a/b").unwrap();
    assert_eq!(r.pattern(), "/p/+path");
    let r = tree.find("/q/").unwrap();
    assert_eq!(r.pattern(), "/q/*rest");
    let r = tree.find("/:joe").unwrap();
    assert_eq!(r.pattern(), r"/\::name");
    assert_eq!(r.params(), vec![("name", "joe")]);
}

#[test]
fn params_iter_yields_pairs_then_none() {
    let mut tree = PathTree::<usize>::new();
    tree.insert("/:org/:repo/*", 3);
    let r = tree.find("/rust-lang/rust/a/b").unwrap();
    let mut it: ParamsIter<'_, '_, '_, usize> = r.params_iter();
    assert_eq!(it.next(), Some(("org", "rust-lang")));
    assert_eq!(it.next(), Some(("repo", "rust")));
    assert_eq!(it.next(), Some(("*1", "a/b")));
    assert_eq!(it.next(), None);
    assert_eq!(it.next(), None);
    assert_eq!(r.raws.to_vec(), vec!["rust-lang", "rust", "a/b"]);
}

#[test]
fn parser_next_walks_the_pattern() {
    let mut p = Parser::new("/a/:b+/c*");
    assert_eq!(p.next(), Some(Piece::String(b"/a/".to_vec())));
    assert_eq!(p.next(), Some(Piece::Parameter(Position::Named(b"b".to_vec()), Kind::OneOrMore)));
    assert_eq!(p.next(), Some(Piece::String(b"/c".to_vec())));
    assert_eq!(p.next(), Some(Piece::Parameter(Position::Index(1, b"*1".to_vec()), Kind::ZeroOrMore)));
    assert_eq!(p.next(), None);
    assert_eq!(Parser::new("").collect_pieces(), vec![]);
    assert_eq!(
        Parser::new("*.*").collect_pieces(),
        vec![
            Piece::Parameter(Position::Index(1, b"*1".to_vec()), Kind::ZeroOrMore),
            Piece::String(b".".to_vec()),
            Piece::Parameter(Position::Index(2, b"*2".to_vec()), Kind::ZeroOrMore),
        ]
    );
}

#[test]
fn node_find_gives_ranges_deepest_first() {
    let mut node = Node::<usize>::new(NodeKind::String(b"/".to_vec()), None);
    let n = node.insert_bytes(b"/");
    let n = n.insert_parameter(Kind::Normal);
    let n = n.insert_bytes(b"/");
    let n = n.insert_parameter(Kind::Normal);
    n.value = Some(9);
    let (v, ranges) = node.find(b"/ab/cd").unwrap();
    assert_eq!(*v, 9);
    assert_eq!(ranges.to_vec(), vec![(4, 6), (1, 3)]);
    assert!(node.find(b"/ab/").is_none());
    assert!(node.find(b"ab/cd").is_none());
}

#[test]
fn node_tree_drawing() {
    let mut node = Node::<usize>::new(NodeKind::String(Vec::new()), None);
    node.insert_bytes(b"/a").value = Some(1);
    node.insert_bytes(b"/b:c").value = Some(2);
    let n = node.insert_bytes(b"/");
    n.insert_parameter(Kind::OptionalSegment).value = Some(3);
    n.insert_parameter(Kind::ZeroOrMoreSegment);
    assert_eq!(
        node.debug_tree(),
        "\n/\n├── a •1\n├── b\\:c •2\n├── ?? •3\n└── **\n"
    );
    let mut node = Node::<usize>::new(NodeKind::String(Vec::new()), None);
    node.insert_bytes("/α".as_bytes()).value = Some(0);
    node.insert_bytes("/β".as_bytes()).value = Some(1);
    assert_eq!(
        node.debug_tree(),
        "\n/\u{FFFD}\n├── \u{FFFD} •0\n└── \u{FFFD} •1\n"
    );
}

#[test]
fn compare_puts_slash_last() {
    assert_eq!(path_tree::order::compare(b'a', b'a'), Ordering::Equal);
    assert_eq!(path_tree::order::compare(b'a', b'b'), Ordering::Less);
    assert_eq!(path_tree::order::compare(b'z', b'b'), Ordering::Greater);
    assert_eq!(path_tree::order::compare(b'/', b'z'), Ordering::Greater);
    assert_eq!(path_tree::order::compare(b'~', b'/'), Ordering::Less);
    assert_eq!(path_tree::order::compare(b'/', b'/'), Ordering::Equal);
}

#[test]
fn clone_matches_like_the_original() {
    let mut tree = PathTree::<String>::new();
    tree.insert("/x/:y", "v".to_string());
    let copy = tree.clone();
    let r = copy.find("/x/z").unwrap();
    assert_eq!(r.value, "v");
    assert_eq!(r.params(), vec![("y", "z")]);
    assert_eq!(copy.node.debug_tree(), tree.node.debug_tree());
}

#[test]
fn named_and_one_or_more_never_match_empty() {
    let mut tree = PathTree::<usize>::new();
    tree.insert("/users/:id/profile", 1);
    tree.insert("/api/+/x", 2);
    assert!(tree.find("/users//profile").is_none());
    assert!(tree.find("/api//x").is_none());
    assert_eq!(*tree.find("/users/7/profile").unwrap().value, 1);
    assert_eq!(tree.find("/api/a/b/x").unwrap().params(), vec![("+1", "a/b")]);
    tree.insert("/users/:id?/profile", 3);
    let r = tree.find("/users//profile").unwrap();
    assert_eq!(*r.value, 3);
    assert_eq!(r.params(), vec![("id", "")]);
}

#[test]
fn literal_reinsert_keeps_tree_and_id() {
    let mut tree = PathTree::<usize>::new();
    assert_eq!(tree.insert("/a/b", 1), 0);
    assert_eq!(tree.insert("/a/:x", 2), 1);
    assert_eq!(tree.insert("/a", 3), 2);
    let before = tree.node.debug_tree();
    assert_eq!(tree.insert("/a/b", 4), 0);
    assert_eq!(tree.node.debug_tree(), before);
    assert_eq!(*tree.find("/a/b").unwrap().value, 4);
    assert_eq!(*tree.find("/a/c").unwrap().value, 2);
}

#[test]
fn name_before_name_takes_no_slash() {
    let mut tree = PathTree::<usize>::new();
    tree.insert("/test:sign:param", 1);
    assert!(tree.find("/test/abc").is_none());
    let r = tree.find("/testabc").unwrap();
    assert_eq!(r.params(), vec![("sign", "a"), ("param", "bc")]);
}

#[test]
fn path_built_by_hand() {
    let pieces = Parser::new("/:a/:b").collect_pieces();
    let p = Path { id: &3, value: &"v", pieces: &pieces, raws: Raws::from_texts(&["x", "y"]) };
    assert_eq!(p.params(), vec![("a", "x"), ("b", "y")]);
    assert_eq!(p.pattern(), "/:a/:b");
    assert_eq!(p.raws.to_vec(), vec!["x", "y"]);
}

#[test]
fn node_takes_empty_bytes_without_children() {
    let mut node = Node::<usize>::new(NodeKind::String(b"/a".to_vec()), None);
    let n = node.insert_bytes(b"");
    n.value = Some(1);
    assert_eq!(node.nodes0.as_ref().unwrap().len(), 1);
    assert_eq!(node.nodes0.as_ref().unwrap()[0].key, NodeKind::String(Vec::new()));
}

#[test]
fn find_text_refuses_split_characters() {
    let mut tree = PathTree::<usize>::new();
    tree.insert("/:a:b", 1);
    assert!(tree.find_text("/éx").is_none());
    let r = tree.find_text("/ab").unwrap();
    assert_eq!(r.params(), vec![("a", "a"), ("b", "b")]);
    assert!(tree.find_text("/").is_none());
}

#[test]
fn unnamed_parameters_share_one_counter() {
    let pieces = Parser::new("/+/:x/*/+").collect_pieces();
    let names: Vec<Vec<u8>> = pieces
        .iter()
        .filter_map(|p| match p {
            Piece::Parameter(Position::Index(_, n), _) => Some(n.clone()),
            _ => None,
        })
        .collect();
    assert_eq!(names, vec![b"+1".to_vec(), b"*2".to_vec(), b"+3".to_vec()]);
}

#[test]
fn plain_patterns_are_written_back_as_parsed() {
    let cases = [r"/:name?/x\+y/:a-:b?", r"/\?q/:id?", "/*/+/:x.:y", "", r"\:"];
    for c in cases.iter() {
        let pieces = Parser::new(c).collect_pieces();
        let p = Path { id: &0, value: &(), pieces: &pieces, raws: Raws::from_texts(&[]) };
        assert_eq!(p.pattern(), *c);
    }
    let pieces = Parser::new("/:p+").collect_pieces();
    let p = Path { id: &0, value: &(), pieces: &pieces, raws: Raws::from_texts(&[]) };
    assert_eq!(p.pattern(), "/+p");
}

#[test]
fn literal_routes_found_whatever_the_order() {
    let paths = ["/", "/a", "/ab", "/abc", "/b/c", "/a/b", "/α"];
    let mut forward = PathTree::<&str>::new();
    for p in paths.iter() {
        forward.insert(p, p);
    }
    let mut backward = PathTree::<&str>::new();
    for (i, p) in paths.iter().rev().enumerate() {
        assert_eq!(backward.insert(p, p), i);
    }
    for p in paths.iter() {
        let a = forward.find(p).unwrap();
        let b = backward.find(p).unwrap();
        assert_eq!(*a.value, *p);
        assert_eq!(*b.value, *p);
        assert_eq!(a.params(), vec![]);
        assert_eq!(b.params(), vec![]);
    }
    for u in ["/abcd", "/b", "/a/", "", "/c", "a"].iter() {
        assert!(forward.find(u).is_none());
        assert!(backward.find(u).is_none());
    }
}

#[test]
fn one_range_per_parameter_node_on_the_way() {
    let mut node = Node::<usize>::new(NodeKind::String(b"/".to_vec()), None);
    node.insert_bytes(b"/files").value = Some(1);
    let n = node.insert_bytes(b"/files/");
    let n = n.insert_parameter(Kind::ZeroOrMore);
    n.value = Some(2);
    let n = node.insert_bytes(b"/u/");
    let n = n.insert_parameter(Kind::Normal);
    let n = n.insert_bytes(b"-");
    let n = n.insert_parameter(Kind::Normal);
    let n = n.insert_bytes(b"/");
    let n = n.insert_parameter(Kind::OneOrMore);
    n.value = Some(3);
    let (v, ranges) = node.find(b"/files").unwrap();
    assert_eq!((*v, ranges.to_vec().len()), (1, 0));
    let (v, ranges) = node.find(b"/files/a/b").unwrap();
    assert_eq!((*v, ranges.to_vec()), (2, vec![(7, 10)]));
    let (v, ranges) = node.find(b"/u/x-y/z/w").unwrap();
    assert_eq!(*v, 3);
    assert_eq!(ranges.to_vec(), vec![(7, 10), (5, 6), (3, 4)]);
}

#[test]
fn one_text_per_parameter_of_the_route() {
    let mut tree = PathTree::<usize>::new();
    let patterns = [
        "/:org/:repo/releases/download/:tag/:filename.:ext",
        "/users/:id",
        "/files/*",
        "/static/app.js",
        "/api/+/:v",
    ];
    for (i, p) in patterns.iter().enumerate() {
        tree.insert(p, i);
    }
    let cases = [
        ("/rust-lang/rust/releases/download/v1/app.gz", 0, 5),
        ("/users/7", 1, 1),
        ("/files/a/b/c", 2, 1),
        ("/static/app.js", 3, 0),
        ("/api/a/b/c", 4, 2),
    ];
    for (path, value, n) in cases.iter() {
        let r = tree.find(path).unwrap();
        assert_eq!(*r.value, *value);
        assert_eq!(r.raws.to_vec().len(), *n);
        let params = r.pieces.iter().filter(|p| matches!(p, Piece::Parameter(..))).count();
        assert_eq!(params, *n);
    }
}
