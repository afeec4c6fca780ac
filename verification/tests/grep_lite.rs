use actionkv::grep_lite::{contexts, matching_lines, process_lines, CONTEXT_LINES};

fn lines(text: &str) -> Vec<String> {
    text.lines().map(String::from).collect()
}

const QUOTE: &str = "\
Every face, every shop,
bedroom window, public-house, and
dark square is a picture
feverishly turned--in search of what?
It is the same with books.
What do we seek
through millions of pages?";

#[test]
fn matching_lines_are_those_the_expression_finds() {
    let re = regex::Regex::new("oo").unwrap();
    assert_eq!(matching_lines(&lines(QUOTE), &re), vec![1, 4]);
    let re = regex::Regex::new("^[A-Z]").unwrap();
    assert_eq!(matching_lines(&lines(QUOTE), &re), vec![0, 4, 5]);
    let re = regex::Regex::new("absent").unwrap();
    assert_eq!(matching_lines(&lines(QUOTE), &re), Vec::<usize>::new());
}

#[test]
fn contexts_are_two_lines_each_way() {
    let text = lines(QUOTE);
    let found = contexts(&text, &vec![3], CONTEXT_LINES);
    assert_eq!(found.len(), 1);
    let numbers: Vec<usize> = found[0].iter().map(|(i, _)| *i).collect();
    assert_eq!(numbers, vec![1, 2, 3, 4, 5]);
    for (i, line) in &found[0] {
        assert_eq!(line, &text[*i]);
    }
}

#[test]
fn contexts_end_where_the_text_ends() {
    let text = lines(QUOTE);
    let found = contexts(&text, &vec![0, 6], 2);
    let first: Vec<usize> = found[0].iter().map(|(i, _)| *i).collect();
    let last: Vec<usize> = found[1].iter().map(|(i, _)| *i).collect();
    assert_eq!(first, vec![0, 1, 2]);
    assert_eq!(last, vec![4, 5, 6]);
    assert_eq!(found[1][2].1, "through millions of pages?");
}

#[test]
fn contexts_of_other_widths() {
    let text = lines(QUOTE);
    let found = contexts(&text, &vec![3], 0);
    assert_eq!(found[0], vec![(3, String::from("feverishly turned--in search of what?"))]);
    let found = contexts(&text, &vec![3], 100);
    assert_eq!(found[0].len(), 7);
    let found = contexts(&text, &vec![3], usize::MAX);
    assert_eq!(found[0].len(), 7);
    assert!(contexts(&text, &vec![], 2).is_empty());
}

#[test]
fn contexts_of_lines_behind_the_text() {
    let text = lines(QUOTE);
    let found = contexts(&text, &vec![7, 8, 9, usize::MAX], 2);
    let numbers: Vec<Vec<usize>> =
        found.iter().map(|c| c.iter().map(|(i, _)| *i).collect()).collect();
    assert_eq!(numbers, vec![vec![5, 6], vec![6], vec![], vec![]]);
}

#[test]
fn process_lines_gives_each_match_its_context() {
    let re = regex::Regex::new("oo").unwrap();
    let found = process_lines(&lines(QUOTE), &re);
    assert_eq!(found.len(), 2);
    let first: Vec<usize> = found[0].iter().map(|(i, _)| *i).collect();
    let second: Vec<usize> = found[1].iter().map(|(i, _)| *i).collect();
    assert_eq!(first, vec![0, 1, 2, 3]);
    assert_eq!(second, vec![2, 3, 4, 5, 6]);
    assert_eq!(found[0][1].1, "bedroom window, public-house, and");
    assert_eq!(found[1][2].1, "It is the same with books.");
}

#[test]
fn process_lines_without_a_match_finds_nothing() {
    let re = regex::Regex::new("zzz").unwrap();
    assert!(process_lines(&lines(QUOTE), &re).is_empty());
    let re = regex::Regex::new("a").unwrap();
    assert!(process_lines(&Vec::new(), &re).is_empty());
}
