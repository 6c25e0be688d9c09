use pref_polys::graph::file::{
    parse_graph_file, parse_minimal_graph_file, parse_number, split_whitespace, EdgeRecord,
    GraphFileError,
};

fn lines(text: &str) -> Vec<Vec<u8>> {
    text.lines().map(|l| l.as_bytes().to_vec()).collect()
}

fn tokens(fields: &[&str]) -> Vec<Vec<u8>> {
    fields.iter().map(|f| f.as_bytes().to_vec()).collect()
}

const MINIMAL: &str = "# a graph
# with three parallel edges

3
length height unsuitability
2
3
0 0
1 1
0 0 1 1 0 0 -1 -1
1 0 1 0 1.5 0 -1 -1
2 0 1 0 0 1e0 0 1
";

#[test]
fn fields_are_split_at_whitespace() {
    assert_eq!(
        split_whitespace(&b"  12\t-1  x\r".to_vec()),
        tokens(&["12", "-1", "x"])
    );
    assert_eq!(split_whitespace(&b"".to_vec()), Vec::<Vec<u8>>::new());
    assert_eq!(split_whitespace(&b" \t ".to_vec()), Vec::<Vec<u8>>::new());
    assert_eq!(split_whitespace(&b"one".to_vec()), tokens(&["one"]));
}

#[test]
fn numbers_are_decimal_digits() {
    let max = u32::MAX as u64;
    assert_eq!(parse_number(&b"0".to_vec(), max), Some(0));
    assert_eq!(parse_number(&b"007".to_vec(), max), Some(7));
    assert_eq!(parse_number(&b"+15".to_vec(), max), Some(15));
    assert_eq!(parse_number(&b"4294967295".to_vec(), max), Some(4294967295));
    assert_eq!(parse_number(&b"4294967296".to_vec(), max), None);
    assert_eq!(parse_number(&b"99999999999999999999999".to_vec(), u64::MAX), None);
    assert_eq!(parse_number(&b"18446744073709551615".to_vec(), u64::MAX), Some(u64::MAX));
    assert_eq!(parse_number(&b"18446744073709551616".to_vec(), u64::MAX), None);
    assert_eq!(parse_number(&b"".to_vec(), max), None);
    assert_eq!(parse_number(&b"+".to_vec(), max), None);
    assert_eq!(parse_number(&b"-1".to_vec(), max), None);
    assert_eq!(parse_number(&b"1.5".to_vec(), max), None);
    assert_eq!(parse_number(&b"12a".to_vec(), max), None);
    assert_eq!(parse_number(&b"5".to_vec(), 4), None);
}

#[test]
fn minimal_graph_file_is_read() {
    let file = parse_minimal_graph_file(&lines(MINIMAL)).unwrap();
    assert_eq!(file.dim, 3);
    let nodes: Vec<(u32, u32)> = file.nodes.iter().map(|n| (n.id, n.ch_level)).collect();
    assert_eq!(nodes, vec![(0, 0), (1, 1)]);
    assert_eq!(
        file.edges,
        vec![
            EdgeRecord {
                source_id: 0,
                target_id: 1,
                costs: tokens(&["1", "0", "0"]),
                replaced_edges: None,
            },
            EdgeRecord {
                source_id: 0,
                target_id: 1,
                costs: tokens(&["0", "1.5", "0"]),
                replaced_edges: None,
            },
            EdgeRecord {
                source_id: 0,
                target_id: 1,
                costs: tokens(&["0", "0", "1e0"]),
                replaced_edges: Some((0, 1)),
            },
        ]
    );
}

#[test]
fn comments_in_the_body_are_skipped() {
    let text = "#\n\n1\nlength\n1\n1\n# the node\n0 5\n# the edge\n0 0 0 2.5 -1 -1\n";
    let file = parse_minimal_graph_file(&lines(text)).unwrap();
    assert_eq!(file.nodes.len(), 1);
    assert_eq!(file.nodes[0].ch_level, 5);
    assert_eq!(file.edges.len(), 1);
    assert_eq!(file.edges[0].costs, tokens(&["2.5"]));
}

#[test]
fn level_that_is_no_number_counts_as_zero() {
    let text = "#\n\n1\nlength\n1\n0\n7 high\n";
    let file = parse_minimal_graph_file(&lines(text)).unwrap();
    assert_eq!((file.nodes[0].id, file.nodes[0].ch_level), (7, 0));
}

#[test]
fn malformed_minimal_files_are_refused() {
    let parse = |text: &str| parse_minimal_graph_file(&lines(text)).map(|_| ());
    // nothing but comments
    assert_eq!(parse("# only\n# comments\n"), Err(GraphFileError::MissingHeader));
    assert_eq!(parse("#\n\n1\nlength\n1\n"), Err(GraphFileError::MissingHeader));
    // dimension is no number
    assert_eq!(parse("#\n\nthree\na b c\n1\n0\n0 0\n"), Err(GraphFileError::BadNumber(2)));
    // two names for three dimensions
    assert_eq!(parse("#\n\n3\na b\n1\n0\n0 0\n"), Err(GraphFileError::WrongMetricCount));
    // number of nodes is no number
    assert_eq!(parse("#\n\n1\na\n-1\n0\n"), Err(GraphFileError::BadNumber(4)));
    assert_eq!(parse("#\n\n1\na\n1\nnone\n"), Err(GraphFileError::BadNumber(5)));
    // node with three fields
    assert_eq!(parse("#\n\n1\na\n1\n0\n0 0 0\n"), Err(GraphFileError::WrongTokenCount(6)));
    // node id is no number
    assert_eq!(parse("#\n\n1\na\n1\n0\nx 0\n"), Err(GraphFileError::BadNumber(6)));
    // empty line in the body
    assert_eq!(parse("#\n\n1\na\n1\n0\n\n0 0\n"), Err(GraphFileError::WrongTokenCount(6)));
    // edge with a cost too many
    assert_eq!(
        parse("#\n\n1\na\n1\n1\n0 0\n0 0 0 1 2 -1 -1\n"),
        Err(GraphFileError::WrongTokenCount(7))
    );
    // edge whose target is no number
    assert_eq!(
        parse("#\n\n1\na\n1\n1\n0 0\n0 0 x 1 -1 -1\n"),
        Err(GraphFileError::BadNumber(7))
    );
    // edge whose parts are no numbers
    assert_eq!(
        parse("#\n\n1\na\n1\n1\n0 0\n0 0 0 1 3 x\n"),
        Err(GraphFileError::BadNumber(7))
    );
    // a line too many
    assert_eq!(
        parse("#\n\n1\na\n1\n0\n0 0\n1 1\n"),
        Err(GraphFileError::LineCountMismatch)
    );
    // a node missing
    assert_eq!(parse("#\n\n1\na\n2\n0\n0 0\n"), Err(GraphFileError::LineCountMismatch));
    // an edge missing
    assert_eq!(parse("#\n\n1\na\n1\n1\n0 0\n"), Err(GraphFileError::LineCountMismatch));
}

#[test]
fn full_graph_file_is_read() {
    let text = "# Id : 0
# Timestamp : 1
# Type: maxspeed
# Revision: 1
2
2
1
0 100 48.1 9.1 300 0
1 101 48.2 9.2 310 4
0 1 7.5 2 -1 -1
";
    let file = parse_graph_file(&lines(text)).unwrap();
    assert_eq!(file.dim, 2);
    let nodes: Vec<(u32, u32)> = file.nodes.iter().map(|n| (n.id, n.ch_level)).collect();
    assert_eq!(nodes, vec![(0, 0), (1, 4)]);
    assert_eq!(
        file.edges,
        vec![EdgeRecord {
            source_id: 0,
            target_id: 1,
            costs: tokens(&["7.5", "2"]),
            replaced_edges: None,
        }]
    );
    let short = "#\n#\n#\n#\n1\n1\n0\n0 100 48.1\n";
    assert_eq!(
        parse_graph_file(&lines(short)).map(|_| ()),
        Err(GraphFileError::WrongTokenCount(7))
    );
    let level = "#\n#\n#\n#\n1\n1\n0\n0 100 48.1 9.1 300 top\n";
    assert_eq!(
        parse_graph_file(&lines(level)).map(|_| ()),
        Err(GraphFileError::BadNumber(7))
    );
    assert_eq!(
        parse_graph_file(&lines("#\n#\n#\n")).map(|_| ()),
        Err(GraphFileError::MissingHeader)
    );
}
