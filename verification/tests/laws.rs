use wikidex::splitter::RecursiveCharacterTextSplitter;

const TEXT: &str = "Lorem ipsum dolor sit amet,\n\nconsectetur adipiscing elit.\nSed do eiusmod tempor incididunt ut labore et dolore magna aliqua. Ut enim ad minim veniam.\n\n\n\nquis nostrud";

fn splitter(size: usize, overlap: usize, seps: Option<Vec<&str>>, keep: bool) -> RecursiveCharacterTextSplitter {
    RecursiveCharacterTextSplitter::new(
        size,
        overlap,
        seps.map(|v| v.into_iter().map(|s| s.to_string()).collect()),
        keep,
    )
}

#[test]
fn kept_separator_pieces_restore_the_text() {
    // with a chunk size of one byte every non-empty piece is its own chunk
    let s = splitter(1, 0, Some(vec![", "]), true);
    let chunks = s.split_text("a, b, , c");
    assert_eq!(chunks, vec!["a, ", "b, ", ", ", "c"]);
    assert_eq!(chunks.concat(), "a, b, , c");
}

#[test]
fn dropped_separator_pieces_hold_no_separator() {
    let s = splitter(0, 0, Some(vec![", "]), false);
    let chunks = s.split_text("a, b, , c, ");
    assert_eq!(chunks, vec!["a", "b", "", "c"]);
    assert!(chunks.iter().all(|c| !c.contains(", ")));
}

#[test]
fn no_overlap_is_lossless() {
    let s = splitter(16, 0, None, true);
    let chunks = s.split_text(TEXT);
    assert_eq!(
        chunks,
        vec![
            "Lorem ipsum dolor ",
            "sit amet,\n",
            "\n",
            "consectetur adipiscing ",
            "elit.\n",
            "Sed do eiusmod tempor ",
            "incididunt ut labore ",
            "et dolore magna ",
            "aliqua. Ut enim ",
            "ad minim veniam.\n",
            "\n",
            "\n\nquis nostrud"
        ]
    );
    assert_eq!(chunks.concat(), TEXT);
}

#[test]
fn chunks_are_bounded() {
    let s = splitter(16, 6, None, true);
    let chunks = s.split_text(TEXT);
    assert_eq!(
        chunks.iter().map(|c| c.len()).collect::<Vec<_>>(),
        vec![12, 10, 6, 1, 12, 11, 6, 15, 18, 10, 10, 14, 11, 14, 1, 14]
    );
    assert!(chunks.iter().all(|c| c.chars().count() == 1 || c.len() < 2 * 16 - 6));
}

#[test]
fn small_text_is_a_single_chunk() {
    let s = splitter(32, 8, None, true);
    assert_eq!(s.split_text("a b\n\nc d"), vec!["a b\n\nc d"]);
    let s = splitter(32, 8, Some(vec!["|", ""]), true);
    assert_eq!(s.split_text("x|y|z"), vec!["x|y|z"]);
}

#[test]
fn empty_text_has_no_chunks() {
    for keep in [true, false] {
        let s = splitter(4, 1, None, keep);
        assert!(s.split_text("").is_empty());
    }
}

#[test]
fn dropped_separator_pieces_join_back() {
    let s = splitter(0, 0, Some(vec![", "]), false);
    let chunks = s.split_text("a, b, , c, ");
    assert_eq!(chunks.join(", ") + ", ", "a, b, , c, ");
    let chunks = s.split_text(", x, y");
    assert_eq!(chunks, vec!["", "x", "y"]);
    assert_eq!(chunks.join(", "), ", x, y");
}

#[test]
fn chunks_are_never_longer_than_the_text() {
    for (size, overlap, keep) in [(16, 6, true), (16, 6, false), (10, 5, true), (3, 1, false)] {
        let s = splitter(size, overlap, None, keep);
        let total: usize = s.split_text(TEXT).iter().map(|c| c.len()).sum();
        assert!(total <= TEXT.len());
    }
    let s = splitter(10, 5, None, true);
    assert_eq!(s.split_text("abcd\n\ngh").concat().len(), 6);
}

#[test]
fn kept_separators_give_no_empty_chunk() {
    for (size, overlap) in [(16, 6), (3, 1), (0, 0), (1, 0)] {
        let s = splitter(size, overlap, None, true);
        assert!(s.split_text(TEXT).iter().all(|c| !c.is_empty()));
        assert!(s.split_text("\n\n\n\n").iter().all(|c| !c.is_empty()));
    }
    // with no separators at all the empty text is its own (empty) chunk
    assert_eq!(splitter(4, 0, Some(vec![]), true).split_text(""), vec![""]);
}
