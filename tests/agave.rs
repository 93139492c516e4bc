use agave::{
    apply_replaces, apply_replaces_lines, check_batch, create_jenga_op_for_cluster,
    get_address_offset, get_children_by_tag, get_descendants_by_tag, get_name,
    get_svd_parent_chain, interpret_svd_num, parse_lines, select_clusters, BatchError, Node, ReplaceRange, SvdError, Tag, Tree,
};

fn tree_of(doc: &roxmltree::Document) -> Tree {
    let nodes: Vec<Node> = doc
        .descendants()
        .map(|n| Node {
            tag: if n.is_element() {
                Tag::from_name(n.tag_name().name())
            } else {
                Tag::Other
            },
            text: n.text().map(|t| t.to_string()),
            parent: n.parent().map(|p| p.id().get_usize()),
            children: n.children().map(|c| c.id().get_usize()).collect(),
            range: n.range(),
        })
        .collect();
    Tree::from_nodes(nodes).unwrap()
}

fn first_tagged(tree: &Tree, tag: Tag) -> usize {
    get_descendants_by_tag(tree, 0, tag)[0]
}

fn rr(remove: std::ops::Range<usize>, adds: Vec<std::ops::Range<usize>>) -> ReplaceRange {
    ReplaceRange {
        remove_range: remove,
        add_ranges: adds,
    }
}

const FLAT_DOC: &str = "<peripheral><cluster><name>Foo</name><addressOffset>0x0</addressOffset><register>A</register><register>B</register></cluster></peripheral>";

#[test]
fn offset_decoding_forms() {
    assert_eq!(interpret_svd_num("0x10"), Ok(16));
    assert_eq!(interpret_svd_num("#10"), Ok(16));
    assert_eq!(interpret_svd_num("16"), Ok(16));
    assert_eq!(interpret_svd_num("0X1f"), Ok(31));
    assert_eq!(interpret_svd_num("#aB"), Ok(171));
    assert_eq!(interpret_svd_num("5"), Ok(5));
    assert_eq!(interpret_svd_num("0"), Ok(0));
    assert_eq!(interpret_svd_num("0x0"), Ok(0));
}

#[test]
fn offset_decoding_rejects_bad_literals() {
    assert_eq!(interpret_svd_num("0xZZ"), Err(SvdError::InvalidNumericLiteral));
    assert_eq!(interpret_svd_num(""), Err(SvdError::InvalidNumericLiteral));
    assert_eq!(interpret_svd_num("0x"), Err(SvdError::InvalidNumericLiteral));
    assert_eq!(interpret_svd_num("#"), Err(SvdError::InvalidNumericLiteral));
    assert_eq!(interpret_svd_num("1a"), Err(SvdError::InvalidNumericLiteral));
    assert_eq!(interpret_svd_num("+5"), Err(SvdError::InvalidNumericLiteral));
    assert_eq!(interpret_svd_num("-1"), Err(SvdError::InvalidNumericLiteral));
}

#[test]
fn offset_decoding_limits() {
    assert_eq!(interpret_svd_num("18446744073709551615"), Ok(u64::MAX));
    assert_eq!(interpret_svd_num("0xffffffffffffffff"), Ok(u64::MAX));
    assert_eq!(
        interpret_svd_num("18446744073709551616"),
        Err(SvdError::InvalidNumericLiteral)
    );
    assert_eq!(
        interpret_svd_num("0x10000000000000000"),
        Err(SvdError::InvalidNumericLiteral)
    );
}

#[test]
fn tag_names() {
    assert_eq!(Tag::from_name("peripheral"), Tag::Peripheral);
    assert_eq!(Tag::from_name("cluster"), Tag::Cluster);
    assert_eq!(Tag::from_name("register"), Tag::Register);
    assert_eq!(Tag::from_name("name"), Tag::Name);
    assert_eq!(Tag::from_name("addressOffset"), Tag::AddressOffset);
    assert_eq!(Tag::from_name("field"), Tag::Other);
    assert_eq!(Tag::from_name("Cluster"), Tag::Other);
}

#[test]
fn zero_offset_gate() {
    let bad = "<peripheral><cluster><name>Foo</name><addressOffset>0x4</addressOffset><register>A</register></cluster></peripheral>";
    let doc = roxmltree::Document::parse(bad).unwrap();
    let tree = tree_of(&doc);
    let cl = first_tagged(&tree, Tag::Cluster);
    assert_eq!(get_address_offset(&tree, cl), Ok(4));
    assert!(matches!(
        create_jenga_op_for_cluster(&tree, cl),
        Err(SvdError::UnsupportedClusterOffset)
    ));

    let doc = roxmltree::Document::parse(FLAT_DOC).unwrap();
    let tree = tree_of(&doc);
    let cl = first_tagged(&tree, Tag::Cluster);
    assert!(create_jenga_op_for_cluster(&tree, cl).is_ok());
}

#[test]
fn cluster_without_offset_or_with_bad_offset() {
    let text = "<peripheral><cluster><name>Foo</name><register>A</register></cluster></peripheral>";
    let doc = roxmltree::Document::parse(text).unwrap();
    let tree = tree_of(&doc);
    let cl = first_tagged(&tree, Tag::Cluster);
    assert!(matches!(
        create_jenga_op_for_cluster(&tree, cl),
        Err(SvdError::MissingAddressOffset)
    ));

    let text = "<cluster><addressOffset>0xQ</addressOffset></cluster>";
    let doc = roxmltree::Document::parse(text).unwrap();
    let tree = tree_of(&doc);
    let cl = first_tagged(&tree, Tag::Cluster);
    assert_eq!(get_address_offset(&tree, cl), Err(SvdError::InvalidNumericLiteral));
    assert!(matches!(
        create_jenga_op_for_cluster(&tree, cl),
        Err(SvdError::InvalidNumericLiteral)
    ));

    let text = "<cluster><addressOffset></addressOffset></cluster>";
    let doc = roxmltree::Document::parse(text).unwrap();
    let tree = tree_of(&doc);
    let cl = first_tagged(&tree, Tag::Cluster);
    assert_eq!(get_address_offset(&tree, cl), Err(SvdError::InvalidNumericLiteral));
}

#[test]
fn flatten_scenario() {
    let doc = roxmltree::Document::parse(FLAT_DOC).unwrap();
    let tree = tree_of(&doc);
    let cl = first_tagged(&tree, Tag::Cluster);
    let op = create_jenga_op_for_cluster(&tree, cl).unwrap();

    let cl_start = FLAT_DOC.find("<cluster>").unwrap();
    let cl_end = FLAT_DOC.find("</cluster>").unwrap() + "</cluster>".len();
    assert_eq!(op.remove_range, cl_start..cl_end);
    let a = FLAT_DOC.find("<register>A").unwrap();
    let b = FLAT_DOC.find("<register>B").unwrap();
    let reg_len = "<register>A</register>".len();
    assert_eq!(op.add_ranges, vec![a..a + reg_len, b..b + reg_len]);

    let out = apply_replaces(FLAT_DOC.as_bytes(), &[op]).unwrap();
    assert_eq!(
        String::from_utf8(out).unwrap(),
        "<peripheral><register>A</register><register>B</register></peripheral>"
    );
}

#[test]
fn name_chain_scenario() {
    let text = "<peripheral><name>P</name><cluster><name>Foo</name><register><name>Bar</name><field><name>F</name></field></register></cluster></peripheral>";
    let doc = roxmltree::Document::parse(text).unwrap();
    let tree = tree_of(&doc);
    let reg = first_tagged(&tree, Tag::Register);
    assert_eq!(
        get_svd_parent_chain(&tree, reg),
        Ok(vec!["P".to_string(), "Foo".to_string(), "Bar".to_string()])
    );
    let cl = first_tagged(&tree, Tag::Cluster);
    assert_eq!(
        get_svd_parent_chain(&tree, cl),
        Ok(vec!["P".to_string(), "Foo".to_string()])
    );
    assert_eq!(get_name(&tree, cl), Ok("Foo".to_string()));
    // The root node and elements outside the three tiers give no name.
    assert_eq!(get_svd_parent_chain(&tree, 0), Ok(vec![]));
    let field = get_descendants_by_tag(&tree, 0, Tag::Other)
        .into_iter()
        .find(|&i| doc.get_node(roxmltree::NodeId::from(i)).unwrap().has_tag_name("field"))
        .unwrap();
    assert_eq!(
        get_svd_parent_chain(&tree, field),
        Ok(vec!["P".to_string(), "Foo".to_string(), "Bar".to_string()])
    );
}

#[test]
fn name_chain_missing_name() {
    let text = "<peripheral><name>P</name><cluster><register><name>Bar</name></register></cluster></peripheral>";
    let doc = roxmltree::Document::parse(text).unwrap();
    let tree = tree_of(&doc);
    let reg = first_tagged(&tree, Tag::Register);
    assert_eq!(
        get_svd_parent_chain(&tree, reg),
        Err(SvdError::MissingNameElement)
    );
    let cl = first_tagged(&tree, Tag::Cluster);
    assert_eq!(get_name(&tree, cl), Err(SvdError::MissingNameElement));
}

#[test]
fn children_and_descendants_by_tag() {
    let doc = roxmltree::Document::parse(FLAT_DOC).unwrap();
    let tree = tree_of(&doc);
    let cl = first_tagged(&tree, Tag::Cluster);
    let regs = get_children_by_tag(&tree, cl, Tag::Register);
    assert_eq!(regs.len(), 2);
    assert!(regs[0] < regs[1]);
    // A node counts among its own descendants.
    assert_eq!(get_descendants_by_tag(&tree, cl, Tag::Cluster), vec![cl]);
    assert_eq!(get_descendants_by_tag(&tree, cl, Tag::Register), regs);
    assert_eq!(get_children_by_tag(&tree, 0, Tag::Register), Vec::<usize>::new());
    assert_eq!(get_descendants_by_tag(&tree, regs[0], Tag::Name), Vec::<usize>::new());
}

#[test]
fn from_nodes_rejects_bad_links() {
    let node = |parent: Option<usize>, children: Vec<usize>| Node {
        tag: Tag::Other,
        text: None,
        parent,
        children,
        range: 0..0,
    };
    assert!(Tree::from_nodes(vec![node(None, vec![1]), node(Some(0), vec![])]).is_some());
    assert!(Tree::from_nodes(vec![node(Some(0), vec![])]).is_none());
    assert!(Tree::from_nodes(vec![node(None, vec![2]), node(Some(0), vec![])]).is_none());
    assert!(Tree::from_nodes(vec![node(None, vec![]), node(Some(0), vec![0])]).is_none());
}

#[test]
fn byte_identity() {
    let text = b"hello\nworld";
    assert_eq!(apply_replaces(text, &[]).unwrap(), text.to_vec());
    assert_eq!(apply_replaces(b"", &[]).unwrap(), Vec::<u8>::new());
}

#[test]
fn line_identity() {
    assert_eq!(apply_replaces_lines(b"a\nb", &[]).unwrap(), b"a\nb\n".to_vec());
    assert_eq!(apply_replaces_lines(b"a\nb\n", &[]).unwrap(), b"a\nb\n".to_vec());
    assert_eq!(apply_replaces_lines(b"a\r\nb\r\n", &[]).unwrap(), b"a\nb\n".to_vec());
    assert_eq!(apply_replaces_lines(b"", &[]).unwrap(), b"\n".to_vec());
    assert_eq!(apply_replaces_lines(b"a\n\nb", &[]).unwrap(), b"a\n\nb\n".to_vec());
}

#[test]
fn byte_length_and_content() {
    let text = b"0123456789";
    let ops = [rr(1..3, vec![5..8]), rr(4..6, vec![]), rr(8..9, vec![0..1, 9..10])];
    let out = apply_replaces(text, &ops).unwrap();
    // 10 + (3 - 2) + (0 - 2) + (2 - 1)
    assert_eq!(out.len(), 10);
    assert_eq!(out, b"0567367099".to_vec());
}

#[test]
fn byte_splice_exact() {
    let text = b"abcdefgh";
    let ops = [rr(0..2, vec![6..8]), rr(4..4, vec![0..1])];
    assert_eq!(apply_replaces(text, &ops).unwrap(), b"ghcdaefgh".to_vec());
}

#[test]
fn overlapping_batch_rejected() {
    let text = b"0123456789";
    let ops = [rr(1..5, vec![]), rr(3..7, vec![])];
    assert!(!check_batch(&ops, text.len()));
    assert_eq!(apply_replaces(text, &ops), Err(BatchError::MalformedOperationBatch));
    assert_eq!(apply_replaces_lines(text, &ops), Err(BatchError::MalformedOperationBatch));
}

#[test]
fn malformed_batches_rejected() {
    let text = b"0123456789";
    let unsorted = [rr(5..6, vec![]), rr(1..2, vec![])];
    assert_eq!(apply_replaces(text, &unsorted), Err(BatchError::MalformedOperationBatch));
    let past_end = [rr(5..11, vec![])];
    assert_eq!(apply_replaces(text, &past_end), Err(BatchError::MalformedOperationBatch));
    let backwards = [rr(5..4, vec![])];
    assert_eq!(apply_replaces(text, &backwards), Err(BatchError::MalformedOperationBatch));
    let bad_add = [rr(1..2, vec![3..12])];
    assert_eq!(apply_replaces(text, &bad_add), Err(BatchError::MalformedOperationBatch));
    let touching = [rr(1..3, vec![]), rr(3..5, vec![])];
    assert!(check_batch(&touching, text.len()));
    assert_eq!(apply_replaces(text, &touching).unwrap(), b"056789".to_vec());
}

#[test]
fn line_mode_flattens_cluster() {
    let text = "<peripheral>\n  <cluster>\n    <name>Foo</name>\n    <addressOffset>0</addressOffset>\n    <register>\n      <name>A</name>\n    </register>\n    <register><name>B</name></register>\n  </cluster>\n</peripheral>\n";
    let doc = roxmltree::Document::parse(text).unwrap();
    let tree = tree_of(&doc);
    let cl = first_tagged(&tree, Tag::Cluster);
    let op = create_jenga_op_for_cluster(&tree, cl).unwrap();
    let out = apply_replaces_lines(text.as_bytes(), &[op]).unwrap();
    // The cluster's range ends inside the line of its closing tag, and the
    // engine resumes from that line: line mode is exact only on line bounds.
    assert_eq!(
        String::from_utf8(out).unwrap(),
        "<peripheral>\n    <register>\n      <name>A</name>\n    </register>\n    <register><name>B</name></register>\n  </cluster>\n</peripheral>\n"
    );
}

#[test]
fn selection_list_parsing() {
    let list = "  Periph.Foo  \n# a comment\n\nPeriph.Bar # trailing\r\n\t\n#\nlast";
    assert_eq!(
        parse_lines(list),
        vec!["Periph.Foo".to_string(), "Periph.Bar".to_string(), "last".to_string()]
    );
    assert_eq!(parse_lines(""), Vec::<String>::new());
    assert_eq!(parse_lines("\n\n   \n"), Vec::<String>::new());
    assert_eq!(parse_lines("a b # c\n"), vec!["a b".to_string()]);
    assert_eq!(parse_lines("\u{3000}x\u{a0}"), vec!["x".to_string()]);
}

#[test]
fn cluster_selection_by_dotted_path() {
    let text = "<device><peripheral><name>P</name><cluster><name>Foo</name></cluster><cluster><name>Baz</name><cluster><name>In</name></cluster></cluster></peripheral></device>";
    let doc = roxmltree::Document::parse(text).unwrap();
    let tree = tree_of(&doc);
    let cls = get_descendants_by_tag(&tree, 0, Tag::Cluster);
    assert_eq!(cls.len(), 3);
    let sels = vec!["P.Foo".to_string(), "P.Baz.In".to_string(), "P.Nope".to_string()];
    assert_eq!(select_clusters(&tree, &sels), Ok(vec![cls[0], cls[2]]));
    assert_eq!(select_clusters(&tree, &vec!["Foo".to_string()]), Ok(vec![]));
    assert_eq!(select_clusters(&tree, &vec![]), Ok(vec![]));

    let text = "<peripheral><name>P</name><cluster><register><name>R</name></register></cluster></peripheral>";
    let doc = roxmltree::Document::parse(text).unwrap();
    let tree = tree_of(&doc);
    assert_eq!(
        select_clusters(&tree, &vec!["P".to_string()]),
        Err(SvdError::MissingNameElement)
    );
}

#[test]
fn empty_name_child_gives_empty_name() {
    let text = "<peripheral><name>P</name><cluster><name/><register><name></name></register></cluster></peripheral>";
    let doc = roxmltree::Document::parse(text).unwrap();
    let tree = tree_of(&doc);
    let cl = first_tagged(&tree, Tag::Cluster);
    assert_eq!(get_name(&tree, cl), Ok(String::new()));
    let reg = first_tagged(&tree, Tag::Register);
    assert_eq!(
        get_svd_parent_chain(&tree, reg),
        Ok(vec!["P".to_string(), String::new(), String::new()])
    );
}

#[test]
fn name_is_taken_from_a_child_only() {
    let text = "<peripheral><register><name>Inner</name></register><name>Outer</name></peripheral>";
    let doc = roxmltree::Document::parse(text).unwrap();
    let tree = tree_of(&doc);
    let p = first_tagged(&tree, Tag::Peripheral);
    assert_eq!(get_name(&tree, p), Ok("Outer".to_string()));
}

#[test]
fn from_nodes_rejects_bad_ranges() {
    let node = |parent: Option<usize>, children: Vec<usize>, range: std::ops::Range<usize>| Node {
        tag: Tag::Other,
        text: None,
        parent,
        children,
        range,
    };
    let good = vec![
        node(None, vec![1, 2], 0..10),
        node(Some(0), vec![], 1..4),
        node(Some(0), vec![], 4..9),
    ];
    assert!(Tree::from_nodes(good).is_some());
    // A child that sticks out of its parent.
    let outside = vec![node(None, vec![1], 0..5), node(Some(0), vec![], 3..7)];
    assert!(Tree::from_nodes(outside).is_none());
    // Siblings that overlap.
    let overlap = vec![
        node(None, vec![1, 2], 0..10),
        node(Some(0), vec![], 1..5),
        node(Some(0), vec![], 4..9),
    ];
    assert!(Tree::from_nodes(overlap).is_none());
    // A child that names another parent.
    let wrong_parent = vec![
        node(None, vec![1, 2], 0..10),
        node(Some(0), vec![2], 1..5),
        node(Some(1), vec![], 2..3),
    ];
    assert!(Tree::from_nodes(wrong_parent).is_none());
    // A span that runs backwards.
    let backwards = vec![node(None, vec![], 5..2)];
    assert!(Tree::from_nodes(backwards).is_none());
}

#[test]
fn plan_is_a_well_formed_batch() {
    let doc = roxmltree::Document::parse(FLAT_DOC).unwrap();
    let tree = tree_of(&doc);
    let cl = first_tagged(&tree, Tag::Cluster);
    let op = create_jenga_op_for_cluster(&tree, cl).unwrap();
    for a in &op.add_ranges {
        assert!(op.remove_range.start <= a.start && a.end <= op.remove_range.end);
    }
    assert!(op.add_ranges[0].end <= op.add_ranges[1].start);
    assert!(check_batch(&[op], FLAT_DOC.len()));
}
