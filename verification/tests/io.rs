use arbitrary::{Arbitrary, Unstructured};
use arbtest::arbtest;
use geo_coding::error::Error;
use geo_coding::write::Write;
use geo_coding::Tree2D;

#[test]
fn io_works() {
    arbtest(|u| {
        let nodes: Vec<TestNode> = u.arbitrary()?;
        let nodes: Vec<([i64; 2], String)> = nodes
            .into_iter()
            .map(|TestNode(location, name)| (location, name))
            .collect();
        let mut buf = Vec::new();
        let tree = Tree2D::from_nodes(nodes);
        tree.write(&mut buf).unwrap();
        let actual = Tree2D::<i64, String>::read(&buf[..]).unwrap_or_else(|e| {
            let e = e.reason();
            panic!("Decoding failed: {e}; tree = {tree:?}")
        });
        assert_eq!(tree, actual);
        Ok(())
    });
}

struct TestNode([i64; 2], String);

impl<'a> Arbitrary<'a> for TestNode {
    fn arbitrary(u: &mut Unstructured<'a>) -> arbitrary::Result<Self> {
        let latitude = u.int_in_range(-90_000_000_000..=90_000_000_000)?;
        let longitude = u.int_in_range(-180_000_000_000..=180_000_000_000)?;
        let name = u.arbitrary()?;
        Ok(Self([longitude, latitude], name))
    }
}

fn names(tree: &Tree2D<i64, String>) -> Vec<([i64; 2], String)> {
    tree.iter()
        .into_iter()
        .map(|(location, name)| (*location, name.clone()))
        .collect()
}

fn encoded(points: Vec<([i64; 2], &str)>) -> Vec<u8> {
    let points = points
        .into_iter()
        .map(|(location, name)| (location, name.to_string()))
        .collect();
    let mut bytes = Vec::new();
    Tree2D::from_nodes(points).write(&mut bytes).unwrap();
    bytes
}

fn failure(bytes: &[u8]) -> Error {
    Tree2D::<i64, String>::read(bytes).unwrap_err()
}

#[test]
fn one_node_is_written_byte_for_byte() {
    let bytes = encoded(vec![([1, 2], "b a b")]);
    let expected: Vec<u8> = vec![
        1, 0, 0, 0, // one node
        1, 1, 0, // longitudes
        1, 2, 0, // latitudes
        0, // lesser children
        0, // greater children
        1, 3, // word counts
        2, 0, 0, 0, // two words in the dictionary
        1, 1, 1, // their lengths
        b'a', b'b', // their bytes
        3, 0, 0, 0, // three word references
        1, 1, 0, 1, // the references
    ];
    assert_eq!(bytes, expected);
}

#[test]
fn the_empty_tree_is_three_counts() {
    let bytes = encoded(vec![]);
    assert_eq!(bytes, vec![0; 12]);
    let tree = Tree2D::<i64, String>::read(&bytes[..]).unwrap();
    assert!(tree.is_empty());
}

#[test]
fn the_dictionary_is_sorted_whatever_the_order_of_the_nodes() {
    let bytes = encoded(vec![([0, 0], "zeta alpha"), ([1, 0], "alpha mu zeta")]);
    let text: Vec<u8> = b"alphamuzeta".to_vec();
    assert!(bytes.windows(text.len()).any(|window| window == &text[..]));
    let bytes = encoded(vec![([1, 0], "alpha mu zeta"), ([0, 0], "zeta alpha")]);
    assert!(bytes.windows(text.len()).any(|window| window == &text[..]));
}

#[test]
fn names_are_read_back_space_for_space() {
    let given = vec![
        ([0, 0], ""),
        ([1, 5], " "),
        ([2, -5], "  two  spaces  "),
        ([-3, 7], "Köln am Rhein"),
        ([4, -7], "東京 都"),
        ([-5, 9], "a"),
        ([6, -9], "a a a a"),
    ];
    let bytes = encoded(given.clone());
    let tree = Tree2D::<i64, String>::read(&bytes[..]).unwrap();
    let mut read = names(&tree);
    let mut given: Vec<([i64; 2], String)> = given
        .into_iter()
        .map(|(location, name)| (location, name.to_string()))
        .collect();
    read.sort();
    given.sort();
    assert_eq!(read, given);
}

#[test]
fn a_tree_read_back_is_the_tree_written() {
    let points: Vec<([i64; 2], String)> = (0..100_i64)
        .map(|i| {
            (
                [(i * 7919) % 360 - 180, (i * 104_729) % 180 - 90],
                format!("place {} of {}", i % 13, i % 7),
            )
        })
        .collect();
    let tree = Tree2D::from_nodes(points);
    let mut bytes = Vec::new();
    tree.write(&mut bytes).unwrap();
    let back = Tree2D::<i64, String>::read(&bytes[..]).unwrap();
    assert_eq!(tree, back);
    let mut again = Vec::new();
    back.write(&mut again).unwrap();
    assert_eq!(bytes, again);
    let near = back.find_nearest(&[0, 0], 50, 3, geo_coding::orthogonal_distance);
    assert_eq!(near, tree.find_nearest(&[0, 0], 50, 3, geo_coding::orthogonal_distance));
}

#[test]
fn reading_leaves_what_follows_the_tree() {
    let mut bytes = encoded(vec![([1, 2], "a"), ([3, 4], "b")]);
    let len = bytes.len();
    bytes.extend_from_slice(&[7, 7, 7]);
    let mut source: &[u8] = &bytes;
    let tree = Tree2D::<i64, String>::read_from(&mut source).unwrap();
    assert_eq!(tree.len(), 2);
    assert_eq!(source, &[7, 7, 7]);
    assert_eq!(len + 3, bytes.len());
}

#[test]
fn a_cut_stream_is_an_unexpected_end() {
    let bytes = encoded(vec![([1, 2], "a b"), ([3, 4], "b c")]);
    for cut in 0..bytes.len() {
        assert_eq!(failure(&bytes[..cut]), Error::UnexpectedEnd);
    }
}

#[test]
fn a_width_of_nine_for_the_longitudes_is_refused() {
    let mut bytes = encoded(vec![([1, 2], "a")]);
    assert_eq!(bytes[4], 1);
    bytes[4] = 9;
    assert_eq!(failure(&bytes), Error::InvalidWidth);
    bytes[4] = 0;
    assert_eq!(failure(&bytes), Error::InvalidWidth);
}

#[test]
fn a_bad_sign_is_refused() {
    let mut bytes = encoded(vec![([1, 2], "a")]);
    assert_eq!(bytes[6], 0);
    bytes[6] = 2;
    assert_eq!(failure(&bytes), Error::InvalidSign);
}

#[test]
fn a_word_that_is_not_text_is_refused() {
    let mut bytes = encoded(vec![([1, 2], "a")]);
    let at = bytes.iter().position(|byte| *byte == b'a').unwrap();
    bytes[at] = 0xff;
    assert_eq!(failure(&bytes), Error::InvalidWord);
}

#[test]
fn a_reference_behind_the_dictionary_is_refused() {
    let mut bytes = encoded(vec![([1, 2], "a b")]);
    let last = bytes.len() - 1;
    assert_eq!(bytes[last], 1);
    bytes[last] = 2;
    assert_eq!(failure(&bytes), Error::InvalidWordIndex);
}

#[test]
fn a_missing_reference_is_refused() {
    let mut bytes = Vec::new();
    bytes.write_u32(1).unwrap();
    bytes.write_sign_magnitude(&[0]).unwrap();
    bytes.write_sign_magnitude(&[0]).unwrap();
    bytes.write_magnitude_monotonic(&[0]).unwrap();
    bytes.write_magnitude_monotonic(&[0]).unwrap();
    bytes.write_magnitude(&[2]).unwrap();
    bytes.write_u32(1).unwrap();
    bytes.write_magnitude(&[1]).unwrap();
    bytes.write_bytes(b"a").unwrap();
    bytes.write_u32(1).unwrap();
    bytes.write_magnitude(&[0]).unwrap();
    assert_eq!(failure(&bytes), Error::InvalidWordIndex);
}

fn with_links(lesser: &[u32], greater: &[u32]) -> Vec<u8> {
    let n = lesser.len();
    let mut bytes = Vec::new();
    bytes.write_u32(n as u32).unwrap();
    bytes.write_sign_magnitude(&vec![0; n]).unwrap();
    bytes.write_sign_magnitude(&vec![0; n]).unwrap();
    bytes.write_magnitude_monotonic(lesser).unwrap();
    bytes.write_magnitude_monotonic(greater).unwrap();
    bytes.write_magnitude(&vec![0; n]).unwrap();
    bytes.write_u32(0).unwrap();
    bytes.write_u32(0).unwrap();
    bytes
}

#[test]
fn child_references_must_lay_the_nodes_out_breadth_first() {
    assert!(Tree2D::<i64, String>::read(&with_links(&[2, 0, 0], &[3, 0, 0])[..]).is_ok());
    assert!(Tree2D::<i64, String>::read(&with_links(&[2, 3, 0], &[0, 0, 0])[..]).is_ok());
    assert!(Tree2D::<i64, String>::read(&with_links(&[0, 0, 0], &[2, 3, 0])[..]).is_ok());
    // A node that refers to itself.
    assert_eq!(failure(&with_links(&[1], &[0])), Error::InvalidLink);
    // A reference behind the array.
    assert_eq!(failure(&with_links(&[2], &[0])), Error::InvalidLink);
    // Children in the wrong order.
    assert_eq!(failure(&with_links(&[3, 0, 0], &[2, 0, 0])), Error::InvalidLink);
    // A node that nothing refers to.
    assert_eq!(failure(&with_links(&[2, 0, 0], &[0, 0, 0])), Error::InvalidLink);
    // A node referred to twice.
    assert_eq!(failure(&with_links(&[2, 0], &[2, 0])), Error::InvalidLink);
    // A cycle.
    assert_eq!(failure(&with_links(&[2, 1], &[0, 0])), Error::InvalidLink);
}

#[test]
fn a_name_without_words_is_empty() {
    let tree = Tree2D::<i64, String>::read(&with_links(&[0], &[0])[..]).unwrap();
    assert_eq!(names(&tree), vec![([0, 0], String::new())]);
}

#[test]
fn a_sink_without_room_fails() {
    let tree = Tree2D::from_nodes(vec![([1, 2], "a b".to_string())]);
    let mut whole = Vec::new();
    tree.write(&mut whole).unwrap();
    for room in 0..whole.len() {
        let mut sink = geo_coding::write::Limited::new(room);
        assert_eq!(tree.write(&mut sink), Err(Error::Failed));
        let taken = sink.into_bytes();
        assert!(taken.len() <= room);
        assert_eq!(taken[..], whole[..taken.len()]);
    }
    let mut sink = geo_coding::write::Limited::new(whole.len());
    assert_eq!(tree.write(&mut sink), Ok(()));
    assert_eq!(sink.into_bytes(), whole);
}
