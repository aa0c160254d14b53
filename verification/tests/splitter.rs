use wikidex::splitter::RecursiveCharacterTextSplitter;

fn article() -> String {
    let mut t = String::new();
    for i in 0..300 {
        t.push_str(&format!("Section {} of the volume.", i));
        for j in 0..(i % 7 + 1) {
            t.push_str(&format!(" Sentence {} about case {} and its holding.", j, i));
        }
        if i % 10 == 3 {
            for k in 0..40 {
                t.push_str(&format!(" The court (é) held {}.", k));
            }
        }
        if i % 5 == 4 {
            t.push_str(&format!("\nFootnote {}.", i));
        }
        t.push_str("\n\n");
    }
    t
}

#[test]
fn split_huge_article() {
    let process = article();
    let split = RecursiveCharacterTextSplitter::new(1024, 128, None, true);
    let splits = split.split_text(&process);

    assert_eq!(splits.len(), 142);
    assert_eq!(
        splits[0],
        "Section 0 of the volume. Sentence 0 about case 0 and its holding.\n\nSection 1 of the volume. Sentence 0 about case 1 and its holding. Sentence 1 about case 1 and its holding.\n\nSection 2 of the volume. Sentence 0 about case 2 and its holding. Sentence 1 about case 2 and its holding. Sentence 2 about case 2 and its holding.\n\n"
    );
    assert_eq!(splits[3], "\n");
    assert_eq!(splits.concat(), process);
    assert_eq!(splits.iter().map(|s| s.len()).max(), Some(1198));
    for s in &splits {
        assert!(s.chars().count() == 1 || s.len() < 2 * 1024 - 128);
    }
}

fn splitter(size: usize, overlap: usize, seps: Option<Vec<&str>>, keep: bool) -> RecursiveCharacterTextSplitter {
    RecursiveCharacterTextSplitter::new(
        size,
        overlap,
        seps.map(|v| v.into_iter().map(|s| s.to_string()).collect()),
        keep,
    )
}

#[test]
fn short_text_is_one_chunk() {
    let s = splitter(1024, 128, None, true);
    assert_eq!(s.split_text("short text"), vec!["short text".to_string()]);
}

#[test]
fn empty_text_gives_no_chunks() {
    let s = splitter(1024, 128, None, true);
    assert!(s.split_text("").is_empty());
}

#[test]
fn words_are_grouped_up_to_chunk_size() {
    let s = splitter(6, 0, None, true);
    assert_eq!(s.split_text("aa bb cc dd ee"), vec!["aa bb ", "cc dd ", "ee"]);
    let s = splitter(10, 0, None, true);
    assert_eq!(s.split_text("hello world foo bar baz"), vec!["hello world ", "foo bar baz"]);
}

#[test]
fn dropped_separators() {
    let s = splitter(4, 0, None, false);
    assert_eq!(s.split_text("a b  c"), vec!["abc"]);
    let s = splitter(100, 0, None, false);
    assert_eq!(s.split_text("one two three"), vec!["one two three"]);
    let s = splitter(8, 0, Some(vec![",", ""]), false);
    assert_eq!(s.split_text("alpha,beta,gamma,delta"), vec!["alphabeta", "gammadelta"]);
}

#[test]
fn kept_separators_with_custom_list() {
    let s = splitter(8, 0, Some(vec![",", ""]), true);
    assert_eq!(s.split_text("alpha,beta,gamma,delta"), vec!["alpha,beta,", "gamma,delta"]);
}

#[test]
fn matches_do_not_overlap() {
    let s = splitter(5, 1, Some(vec!["xx"]), true);
    assert_eq!(s.split_text("axxxxb"), vec!["axxxx", "b"]);
}

#[test]
fn no_separators_gives_the_text() {
    let s = splitter(1, 0, Some(vec![]), true);
    assert_eq!(s.split_text("anything"), vec!["anything"]);
}

#[test]
fn zero_chunk_size_cuts_into_characters() {
    let s = splitter(0, 0, None, true);
    assert_eq!(s.split_text("ab c"), vec!["a", "b", " ", "c"]);
}

#[test]
fn lengths_are_counted_in_bytes() {
    let s = splitter(3, 0, None, true);
    assert_eq!(s.split_text("héllo"), vec!["hé", "llo"]);
}

#[test]
fn final_merge_keeps_only_the_first_run() {
    let s = splitter(10, 5, None, true);
    assert_eq!(s.split_text("abcd\n\ngh"), vec!["abcd\n\n"]);
}

#[test]
fn carried_pieces_and_large_parts() {
    let s = splitter(6, 2, None, true);
    assert_eq!(
        s.split_text("ab\n\ncd\n\nefghijkl\n\nmn"),
        vec!["ab\n\n", "cd\n\n", "efgh", "ijkl", "\n", "mn"]
    );
}

#[test]
fn overlap_beyond_chunk_size_when_nothing_is_merged() {
    let s = splitter(2, 5, None, true);
    assert!(s.split_text("").is_empty());
    let s = splitter(1, 5, None, true);
    assert_eq!(s.split_text("ab"), vec!["a", "b"]);
}

#[test]
fn try_split_refuses_only_an_underflowing_merge() {
    let s = splitter(1, 5, None, true);
    assert_eq!(s.try_split_text("ab"), Some(vec!["a".to_string(), "b".to_string()]));
    assert_eq!(s.try_split_text(""), Some(vec![]));
    let s = splitter(4, 5, None, true);
    assert_eq!(s.try_split_text("a b"), None);
    let s = splitter(6, 0, None, true);
    assert_eq!(
        s.try_split_text("aa bb cc dd ee"),
        Some(vec!["aa bb ".to_string(), "cc dd ".to_string(), "ee".to_string()])
    );
}
