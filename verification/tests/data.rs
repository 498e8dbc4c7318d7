use gitstatus::branch_parse::parse_distance;
use gitstatus::data::{Branch, BranchInfo, Distance, Remote};

#[test]
fn distance_is_written_as_git_writes_it() {
    assert_eq!(Distance::Ahead(3).to_string(), "[ahead 3]");
    assert_eq!(Distance::Behind(2).to_string(), "[behind 2]");
    assert_eq!(Distance::AheadBehind(3, 2).to_string(), "[ahead 3, behind 2]");
    assert_eq!(Distance::Ahead(0).to_string(), "[ahead 0]");
    assert_eq!(Distance::Behind(10).to_string(), "[behind 10]");
    assert_eq!(Distance::AheadBehind(1005, 90).to_string(), "[ahead 1005, behind 90]");
    assert_eq!(Distance::Ahead(i32::MAX).to_string(), "[ahead 2147483647]");
}

#[test]
fn distance_with_negative_counts_is_written_with_a_sign() {
    assert_eq!(Distance::Ahead(-1).to_string(), "[ahead -1]");
    assert_eq!(Distance::Behind(-120).to_string(), "[behind -120]");
    assert_eq!(Distance::AheadBehind(i32::MIN, -7).to_string(), "[ahead -2147483648, behind -7]");
}

#[test]
fn written_distance_parses_back() {
    let counts = [0, 1, 9, 10, 19, 100, 12345, 999_999_999, 1_000_000_000, i32::MAX];
    for a in counts {
        for d in [Distance::Ahead(a), Distance::Behind(a), Distance::AheadBehind(a, 77)] {
            let text = d.to_string();
            assert_eq!(parse_distance(&text), Ok(("", d)));
            let longer = format!("{} and more", text);
            assert_eq!(parse_distance(&longer), Ok((" and more", d)));
        }
    }
}

#[test]
fn ahead_behind_of_a_distance() {
    assert_eq!(Distance::Ahead(4).ahead_behind(), (4, 0));
    assert_eq!(Distance::Behind(6).ahead_behind(), (0, 6));
    assert_eq!(Distance::AheadBehind(4, 6).ahead_behind(), (4, 6));
}

#[test]
fn ahead_behind_of_a_header() {
    let branch = || Branch("main".to_string());
    let info = BranchInfo { branch: branch(), remote: None };
    assert_eq!(info.ahead_behind(), (0, 0));
    let info = BranchInfo {
        branch: branch(),
        remote: Some(Remote { branch: branch(), distance: None }),
    };
    assert_eq!(info.ahead_behind(), (0, 0));
    let info = BranchInfo {
        branch: branch(),
        remote: Some(Remote { branch: branch(), distance: Some(Distance::Behind(5)) }),
    };
    assert_eq!(info.ahead_behind(), (0, 5));
    let info = BranchInfo {
        branch: branch(),
        remote: Some(Remote { branch: branch(), distance: Some(Distance::AheadBehind(2, 1)) }),
    };
    assert_eq!(info.ahead_behind(), (2, 1));
}

#[test]
fn hash_holds_its_text() {
    let hash = gitstatus::data::Hash("4f1c2e9".to_string());
    assert_eq!(hash.0, "4f1c2e9");
    assert_eq!(hash, gitstatus::data::Hash("4f1c2e9".to_string()));
}
