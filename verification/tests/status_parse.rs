use gitstatus::status_parse::{MiniStatus, Status};

#[test]
fn test_mini_status_parsing() {
    assert_eq!(MiniStatus::from_str("M "), Some(MiniStatus('M', ' ')));
    assert_eq!(MiniStatus::from_str("??"), Some(MiniStatus('?', '?')));
    assert_eq!(MiniStatus::from_str("DU"), Some(MiniStatus('D', 'U')));
    assert_eq!(MiniStatus::from_str("A "), Some(MiniStatus('A', ' ')));
    assert_eq!(MiniStatus::from_str("U "), Some(MiniStatus('U', ' ')));
    assert_eq!(MiniStatus::from_str(""), None); // Invalid line
    assert_eq!(MiniStatus::from_str("A"), None); // Only 1 character
}

#[test]
fn test_status_counts() {
    let lines = [
        "M  file1.txt", // Changed
        "A  file2.txt", // Staged
        "?? file3.txt", // Untracked
        "DU file4.txt", // Conflict
    ];
    let status = Status::from_lines(&lines).unwrap();

    assert_eq!(status.staged, 1); // One staged file
    assert_eq!(status.conflict, 1); // One conflict file
    assert_eq!(status.changed, 1); // One changed file
    assert_eq!(status.untracked, 1); // One untracked file
}

#[test]
fn test_empty_status_lines() {
    let lines: [&str; 0] = [];
    let status = Status::from_lines(&lines);
    assert!(status.is_some());
    let status = status.unwrap();
    assert_eq!(status.staged, 0);
    assert_eq!(status.conflict, 0);
    assert_eq!(status.changed, 0);
    assert_eq!(status.untracked, 0);
}

#[test]
fn test_invalid_status_lines() {
    let lines = [
        "invalid", // Does not match expected format
        "  ",      // Blank line
        "??",      // Untracked but no filename
    ];
    let status = Status::from_lines(&lines).unwrap();
    assert_eq!(status.staged, 0);
    assert_eq!(status.conflict, 0);
    assert_eq!(status.changed, 0);
    assert_eq!(status.untracked, 1); // Only "??" should count
}

#[test]
fn test_mixed_lines() {
    let lines = [
        "M  file1.txt", // Changed
        "invalid line", // Invalid
        "A  file2.txt", // Staged
        "?? file3.txt", // Untracked
        "  ",           // Blank line
        "DU file4.txt", // Conflict
    ];
    let status = Status::from_lines(&lines).unwrap();

    assert_eq!(status.staged, 1);
    assert_eq!(status.conflict, 1);
    assert_eq!(status.changed, 1);
    assert_eq!(status.untracked, 1);
}

#[test]
fn test_multiple_files_per_status() {
    let lines = [
        "M  file1.txt", // Changed
        "M  file2.txt", // Changed
        "A  file3.txt", // Staged
        "A  file4.txt", // Staged
        "?? file5.txt", // Untracked
        "?? file6.txt", // Untracked
        "DU file7.txt", // Conflict
        "DU file8.txt", // Conflict
    ];
    let status = Status::from_lines(&lines).unwrap();

    assert_eq!(status.staged, 2);
    assert_eq!(status.conflict, 2);
    assert_eq!(status.changed, 2);
    assert_eq!(status.untracked, 2);
}

#[test]
fn test_edge_cases_for_conflicts() {
    let lines = [
        "UU file1.txt", // Conflict
        "DD file2.txt", // Conflict
        "DU file3.txt", // Conflict
        "UD file4.txt", // Conflict
    ];
    let status = Status::from_lines(&lines).unwrap();

    assert_eq!(status.staged, 0);
    assert_eq!(status.conflict, 4);
    assert_eq!(status.changed, 0);
    assert_eq!(status.untracked, 0);
}

#[test]
fn test_only_invalid_lines() {
    let lines = ["invalid line 1", "invalid line 2", "", "   "];
    let status = Status::from_lines(&lines).unwrap();

    assert_eq!(status.staged, 0);
    assert_eq!(status.conflict, 0);
    assert_eq!(status.changed, 0);
    assert_eq!(status.untracked, 0);
}

#[test]
fn test_no_lines() {
    let lines: [&str; 0] = [];
    let status = Status::from_lines(&lines).unwrap();

    assert_eq!(status.staged, 0);
    assert_eq!(status.conflict, 0);
    assert_eq!(status.changed, 0);
    assert_eq!(status.untracked, 0);
}

#[test]
fn test_rare_status_combinations() {
    let lines = [
        "R  file1.txt", // Staged (renamed)
        "C  file2.txt", // Staged (copied)
        "RM file3.txt", // Staged (renamed) and Changed (worktree)
        "CM file4.txt", // Staged (copied) and Changed (worktree)
    ];
    let status = Status::from_lines(&lines).unwrap();

    assert_eq!(status.staged, 2); // file1.txt, file2.txt
    assert_eq!(status.conflict, 0);
    assert_eq!(status.changed, 2); // file3.txt, file4.txt
    assert_eq!(status.untracked, 0);
}

const ALPHABET: [char; 10] = [' ', 'M', 'A', 'D', 'R', 'C', 'U', '?', '!', 'T'];

#[test]
fn classifier_follows_the_rules_on_every_code() {
    for x in ALPHABET {
        for y in ALPHABET {
            let code = MiniStatus(x, y);
            let conflict = x == 'U' || y == 'U' || y == 'D';
            let changed = !conflict && (x == 'M' || x == 'D' || y == 'M' || y == 'D');
            let staged = (x == 'A' || x == 'R' || x == 'C') && y == ' ';
            let untracked = x == '?' && y == '?';
            assert_eq!(code.is_conflict(), conflict, "{:?}", code);
            assert_eq!(code.is_changed(), changed, "{:?}", code);
            assert_eq!(code.is_staged(), staged, "{:?}", code);
            assert_eq!(code.is_untracked(), untracked, "{:?}", code);
        }
    }
}

#[test]
fn classifier_puts_a_code_in_one_category_at_most() {
    for x in ALPHABET {
        for y in ALPHABET {
            let code = MiniStatus(x, y);
            let hits = [code.is_conflict(), code.is_changed(), code.is_staged(), code.is_untracked()];
            assert!(hits.iter().filter(|hit| **hit).count() <= 1, "{:?}", code);
        }
    }
}

#[test]
fn classifier_named_codes() {
    assert!(MiniStatus('A', ' ').is_staged());
    assert!(MiniStatus('R', ' ').is_staged());
    assert!(MiniStatus('C', ' ').is_staged());
    assert!(!MiniStatus('A', 'M').is_staged());
    assert!(MiniStatus('A', 'M').is_changed());
    assert!(!MiniStatus('M', ' ').is_staged());
    assert!(MiniStatus('M', ' ').is_changed());
    assert!(MiniStatus(' ', 'M').is_changed());
    assert!(MiniStatus('D', ' ').is_changed());
    assert!(!MiniStatus(' ', 'D').is_changed());
    assert!(MiniStatus(' ', 'D').is_conflict());
    assert!(MiniStatus('A', 'D').is_conflict());
    assert!(MiniStatus('A', 'A').is_staged() == false);
    assert!(!MiniStatus('A', 'A').is_conflict());
    assert!(MiniStatus('?', '?').is_untracked());
    assert!(!MiniStatus('?', ' ').is_untracked());
    assert!(!MiniStatus('!', '!').is_untracked());
    assert!(!MiniStatus('u', 'u').is_conflict());
}

#[test]
fn code_is_the_first_two_characters() {
    assert_eq!(MiniStatus::from_str("?? a file"), Some(MiniStatus('?', '?')));
    assert_eq!(MiniStatus::from_str(" M"), Some(MiniStatus(' ', 'M')));
    assert_eq!(MiniStatus::from_str("é"), None);
    assert_eq!(MiniStatus::from_str("éü"), Some(MiniStatus('é', 'ü')));
    assert_eq!(MiniStatus::from_str("M\u{1F600}x"), Some(MiniStatus('M', '\u{1F600}')));
    assert_eq!(MiniStatus::from_str(" "), None);
}

fn counts(lines: &[&str]) -> Status {
    Status::from_lines(lines).unwrap()
}

#[test]
fn status_is_the_same_in_every_order() {
    let lines = ["M  a", "A  b", "?? c", "DU d", "A  b", "x", "", " M e", "UU f"];
    let expected = Status { staged: 2, conflict: 2, changed: 2, untracked: 1 };
    assert_eq!(counts(&lines), expected);

    let mut reversed = lines;
    reversed.reverse();
    assert_eq!(counts(&reversed), expected);

    let mut sorted = lines;
    sorted.sort();
    assert_eq!(counts(&sorted), expected);

    let mut rotated = lines.to_vec();
    for _ in 0..lines.len() {
        rotated.rotate_left(1);
        assert_eq!(counts(&rotated), expected);
        let mut swapped = rotated.clone();
        swapped.swap(0, 4);
        assert_eq!(counts(&swapped), expected);
    }
}

#[test]
fn status_of_all_orders_of_four_lines() {
    let lines = ["M  file1", "A  file2", "?? file3", "DU file4"];
    let expected = Status { staged: 1, conflict: 1, changed: 1, untracked: 1 };
    for a in 0..4 {
        for b in 0..4 {
            for c in 0..4 {
                for d in 0..4 {
                    let mut seen = [false; 4];
                    for i in [a, b, c, d] {
                        seen[i] = true;
                    }
                    if seen == [true; 4] {
                        assert_eq!(counts(&[lines[a], lines[b], lines[c], lines[d]]), expected);
                    }
                }
            }
        }
    }
}

#[test]
fn short_and_blank_lines_change_nothing() {
    let base = ["M  a", "DU b", "?? c", "R  d"];
    let expected = counts(&base);
    assert_eq!(expected, Status { staged: 1, conflict: 1, changed: 1, untracked: 1 });
    let ignored = ["", " ", "M", "?", "U", "D", "  ", "   ", "\t\t", " \t file", "\u{a0}\u{3000}", "\r"];
    for line in ignored {
        assert_eq!(counts(&[line]), Status::default(), "{:?}", line);
        for at in 0..=base.len() {
            let mut lines = base.to_vec();
            lines.insert(at, line);
            assert_eq!(counts(&lines), expected, "{:?} at {}", line, at);
        }
    }
}

#[test]
fn status_counts_each_line_once() {
    let lines = ["MM a", "AM b", "AD c", " D d", "D  e", "MD f", "?A g", "A? h", "?? i", "!! j"];
    let status = counts(&lines);
    assert_eq!(status.changed, 3); // MM, AM, D
    assert_eq!(status.conflict, 3); // AD, " D", MD
    assert_eq!(status.staged, 0);
    assert_eq!(status.untracked, 1);
}

#[test]
fn status_counts_many_lines() {
    let lines = vec!["A  x"; 1000];
    assert_eq!(counts(&lines), Status { staged: 1000, conflict: 0, changed: 0, untracked: 0 });
}

#[test]
fn default_status_is_all_zero() {
    assert_eq!(Status::default(), Status { staged: 0, conflict: 0, changed: 0, untracked: 0 });
}
