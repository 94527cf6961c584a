use mb_goban::util::{parse_board_size, parse_coords, ParseError};
use mb_goban::{SgfNode, SgfProp, SgfTree};

fn sample_tree() -> SgfTree {
    SgfTree {
        nodes: vec![
            SgfNode {
                props: vec![
                    SgfProp::new_many("AB", vec!["cd", "ef"]),
                    SgfProp::new_many("AW", vec!["aa", "bb"]),
                ],
            },
            SgfNode {
                props: vec![SgfProp::new("B", "qq")],
            },
        ],

        children: vec![
            SgfTree {
                nodes: vec![SgfNode {
                    props: vec![SgfProp::new("W", "aq")],
                }],
                children: Vec::new(),
            },
            SgfTree {
                nodes: vec![SgfNode {
                    props: vec![SgfProp::new("W", "bq")],
                }],
                children: Vec::new(),
            },
        ],
    }
}

#[test]
fn format_prop() {
    let prop = SgfProp {
        id: String::from("AB"),
        values: vec![String::from("cd"), String::from("ef")],
    };

    assert_eq!(prop.to_sgf(), String::from("AB[cd][ef]"));
}

#[test]
fn format_node() {
    let node = SgfNode {
        props: vec![
            SgfProp {
                id: String::from("AB"),
                values: vec![String::from("cd"), String::from("ef")],
            },
            SgfProp {
                id: String::from("AW"),
                values: vec![String::from("aa"), String::from("bb")],
            },
        ],
    };

    assert_eq!(node.to_sgf(), String::from(";AB[cd][ef]AW[aa][bb]"));
}

#[test]
fn format_tree() {
    let tree = sample_tree();

    assert_eq!(
        tree.to_sgf(),
        String::from("(;AB[cd][ef]AW[aa][bb];B[qq](;W[aq])(;W[bq]))")
    )
}

#[test]
fn constructors_keep_their_parts() {
    let prop = SgfProp::new("GC", "This can contain spaces");
    assert_eq!(prop.id, "GC");
    assert_eq!(prop.values, vec![String::from("This can contain spaces")]);

    let node = SgfNode::new(vec![prop.clone()]);
    assert_eq!(node.props, vec![prop]);

    let tree = SgfTree::new(vec![node.clone()], vec![SgfTree::new(vec![node], Vec::new())]);
    assert_eq!(tree.nodes.len(), 1);
    assert_eq!(tree.children.len(), 1);
    assert_eq!(tree.to_sgf(), "(;GC[This can contain spaces](;GC[This can contain spaces]))");
}

#[test]
fn empty_parts_format() {
    assert_eq!(SgfTree::default().to_sgf(), "()");
    assert_eq!(SgfNode::default().to_sgf(), ";");
    assert_eq!(SgfProp::new_many("KO", Vec::new()).to_sgf(), "KO");
}

#[test]
fn coords() {
    assert_eq!(parse_coords("aa").unwrap(), (0, 0));
    assert_eq!(parse_coords("ZZ").unwrap(), (51, 51));
    assert_eq!(parse_coords("dE").unwrap(), (3, 30));
}

#[test]
fn wrong_coords() {
    assert_eq!(parse_coords("00"), Err(ParseError::CoordinateParseError));
    assert_eq!(parse_coords("aaa"), Err(ParseError::CoordinateParseError));
    assert_eq!(parse_coords(""), Err(ParseError::CoordinateParseError));
}

#[test]
fn coords_edges() {
    assert_eq!(parse_coords("za"), Ok((25, 0)));
    assert_eq!(parse_coords("Az"), Ok((26, 25)));
    assert_eq!(parse_coords("a["), Err(ParseError::CoordinateParseError));
    assert_eq!(parse_coords("é"), Err(ParseError::CoordinateParseError));
}

#[test]
pub fn board_size() {
    assert_eq!(parse_board_size("19"), Ok((19, 19)));
    assert_eq!(parse_board_size("5:9"), Ok((5, 9)));
}

#[test]
fn board_size_edges() {
    assert_eq!(parse_board_size("+7"), Ok((7, 7)));
    assert_eq!(parse_board_size("5::9"), Ok((5, 9)));
    assert_eq!(parse_board_size(""), Err(ParseError::BoardSizeParseError));
    assert_eq!(parse_board_size("x"), Err(ParseError::BoardSizeParseError));
    assert_eq!(parse_board_size("5:"), Err(ParseError::BoardSizeParseError));
    assert_eq!(parse_board_size(":9"), Err(ParseError::BoardSizeParseError));
    assert_eq!(parse_board_size(" 9"), Err(ParseError::BoardSizeParseError));
    assert_eq!(
        parse_board_size("18446744073709551615"),
        Ok((usize::MAX, usize::MAX))
    );
    assert_eq!(
        parse_board_size("18446744073709551616"),
        Err(ParseError::BoardSizeParseError)
    );
}
