use algs4::boggle::{BoggleBoard, BoggleSolver, LETTER_OFFSET, OFFSET_Q, OFFSET_U};
use algs4::trie::{Presence, Trie};

#[test]
fn works_properly() {
    let mut t = Trie::new();
    assert_eq!(t.contains(&[1, 2]), Presence::Missing);
    assert_eq!(t.contains(&[1, 2, 3]), Presence::Missing);
    t.add(&[1, 2, 3]);
    assert_eq!(t.contains(&[1, 2]), Presence::Prefix);
    assert_eq!(t.contains(&[1, 2, 3]), Presence::Present);
    t.add(&[1, 2]);
    assert_eq!(t.contains(&[1, 2]), Presence::Present);
}

#[test]
fn trie_keeps_unrelated_keys_apart() {
    let mut t = Trie::new();
    t.add(&[0]);
    t.add(&[25, 3]);
    assert_eq!(t.contains(&[]), Presence::Prefix);
    assert_eq!(t.contains(&[0]), Presence::Present);
    assert_eq!(t.contains(&[25]), Presence::Prefix);
    assert_eq!(t.contains(&[25, 3, 1]), Presence::Missing);
    assert_eq!(t.contains(&[26]), Presence::Missing);
}

#[test]
fn letter_offsets_are_correct() {
    assert_eq!(LETTER_OFFSET as char, 'A');
    assert_eq!(OFFSET_Q as i64 + LETTER_OFFSET as i64, 'Q' as i64);
    assert_eq!(OFFSET_U as i64 + LETTER_OFFSET as i64, 'U' as i64);
}

#[test]
fn can_solve_simple_board() {
    let board = BoggleBoard::new(2, 2, vec!['B' as u8, 'A' as u8, 'C' as u8, 'G' as u8]);
    let solver = BoggleSolver::new(
        vec!["BAG", "CAB", "BOB", "GAG"]
            .iter()
            .map(|s| s.to_string())
            .collect::<Vec<_>>(),
    );

    let mut words = solver.find_valid_words(&board).iter().cloned().collect::<Vec<_>>();
    words[..].sort();
    assert_eq!(words, vec!["BAG".to_string(), "CAB".to_string()])
}

#[test]
fn handles_qu_correctly() {
    let board = BoggleBoard::new(2, 2, vec!['Q' as u8, 'I' as u8, 'T' as u8, 'X' as u8]);
    let solver = BoggleSolver::new(
        vec!["QUIT", "QX"].iter().map(|s| s.to_string()).collect::<Vec<_>>(),
    );

    let words = solver.find_valid_words(&board).iter().cloned().collect::<Vec<_>>();

    // Q on board should be equal to QU, and we shouldn't be able to use Q without U.
    assert_eq!(words, vec!["QUIT".to_string()])
}

#[test]
fn cells_are_used_once_and_must_touch() {
    // A B C
    // D E F
    let board = BoggleBoard::new(3, 2, "ABCDEF".bytes().collect());
    let solver = BoggleSolver::new(
        vec!["ABE", "ACE", "ABA", "FED", "CEDA", "AF"]
            .iter()
            .map(|s| s.to_string())
            .collect::<Vec<_>>(),
    );
    let mut words = solver.find_valid_words(&board);
    words.sort();
    assert_eq!(words, vec!["ABE".to_string(), "CEDA".to_string(), "FED".to_string()]);
}

#[test]
fn scores_by_length() {
    let scores: Vec<i32> = ["", "AB", "ABC", "ABCD", "ABCDE", "ABCDEF", "ABCDEFG", "ABCDEFGHIJ"]
        .iter()
        .map(|w| BoggleSolver::score_of_word(&w.to_string()))
        .collect();
    assert_eq!(scores, vec![0, 0, 1, 1, 2, 3, 5, 11]);
}
