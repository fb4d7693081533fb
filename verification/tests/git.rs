use todo_track::error::TodoTrackError;
use todo_track::git::{
    blame_file_command, blame_file_lines, blame_line, blame_line_command, is_git_repo,
    needs_blame, parse_blame_output, parse_porcelain_blame, repo_check_command, GitRun,
};

const HASH_A: &str = "0123456789abcdef0123456789abcdef01234567";
const HASH_B: &str = "89ABCDEF0123456789abcdef0123456789abcdef";

fn block(hash: &str, final_line: usize, author: &str, time: i64) -> String {
    format!(
        "{} {} {} 1\nauthor {}\nauthor-mail <{}@example.com>\nauthor-time {}\nauthor-tz +0000\ncommitter Someone\ncommitter-time 1\nsummary a change\nfilename f.rs\n\tthe line itself\n",
        hash, final_line, final_line, author, author, time
    )
}

fn exited(stdout: &str) -> GitRun {
    GitRun::Exited { success: true, stdout: stdout.to_string(), stderr: String::new() }
}

#[test]
fn blame_of_a_whole_file() {
    let out = format!(
        "{}{}{}",
        block(HASH_A, 1, "Alice", 0),
        block(HASH_B, 2, "Bob Builder", 1_700_000_000),
        block(HASH_A, 3, "Carol", 86_400)
    );
    let found = parse_blame_output(&out, &vec![1, 3]);
    assert_eq!(found.len(), 2);
    assert_eq!(found[&1].author, "Alice");
    assert_eq!(found[&1].date, "1970-01-01");
    assert_eq!(found[&3].author, "Carol");
    assert_eq!(found[&3].date, "1970-01-02");
    assert!(!found.contains_key(&2));

    let found = parse_blame_output(&out, &vec![2]);
    assert_eq!(found.len(), 1);
    assert_eq!(found[&2].author, "Bob Builder");
    assert_eq!(found[&2].date, "2023-11-14");
}

#[test]
fn timestamps_become_dates() {
    for (time, date) in [
        (0i64, "1970-01-01"),
        (86_399, "1970-01-01"),
        (86_400, "1970-01-02"),
        (951_782_400, "2000-02-29"),
        (1_431_648_000, "2015-05-15"),
        (-1, "1969-12-31"),
        (253_402_300_799, "9999-12-31"),
    ] {
        let out = block(HASH_A, 5, "x", time);
        let found = parse_blame_output(&out, &vec![5]);
        assert_eq!(found[&5].date, date, "{}", time);
    }
}

#[test]
fn missing_details_are_unknown() {
    let out = format!("{} 1 7 1\nsummary nothing else\n", HASH_A);
    let found = parse_blame_output(&out, &vec![7]);
    assert_eq!(found[&7].author, "Unknown");
    assert_eq!(found[&7].date, "Unknown");

    let out = format!("{} 1 7 1\nauthor-time soon\nauthor   Dee  \n", HASH_A);
    let found = parse_blame_output(&out, &vec![7]);
    assert_eq!(found[&7].author, "Dee");
    assert_eq!(found[&7].date, "Unknown");

    let out = format!("{} 1 7 1\nauthor-time 99999999999999999\n", HASH_A);
    let found = parse_blame_output(&out, &vec![7]);
    assert_eq!(found[&7].date, "Unknown");
}

#[test]
fn details_do_not_leak_into_the_next_block() {
    let out = format!("{}{} 2 2 1\nsummary bare\n", block(HASH_A, 1, "Alice", 0), HASH_B);
    let found = parse_blame_output(&out, &vec![1, 2]);
    assert_eq!(found[&1].author, "Alice");
    assert_eq!(found[&2].author, "Unknown");
    assert_eq!(found[&2].date, "Unknown");
}

#[test]
fn a_later_block_of_the_same_line_counts() {
    let out = format!("{}{}", block(HASH_A, 4, "First", 0), block(HASH_B, 4, "Second", 86_400));
    let found = parse_blame_output(&out, &vec![4]);
    assert_eq!(found.len(), 1);
    assert_eq!(found[&4].author, "Second");
    assert_eq!(found[&4].date, "1970-01-02");
}

#[test]
fn what_is_no_block_start() {
    let short = format!("{} 1 1 1\nauthor Nobody\n", &HASH_A[..39]);
    assert!(parse_blame_output(&short, &vec![1]).is_empty());
    let not_hex = format!("{}g 1 1 1\nauthor Nobody\n", &HASH_A[..39]);
    assert!(parse_blame_output(&not_hex, &vec![1]).is_empty());
    let no_number = format!("{} 1 x 1\nauthor Nobody\n", HASH_A);
    assert!(parse_blame_output(&no_number, &vec![1]).is_empty());
    let two_fields = format!("{} 1\nauthor Nobody\n", HASH_A);
    assert!(parse_blame_output(&two_fields, &vec![1]).is_empty());
    assert!(parse_blame_output("", &vec![1]).is_empty());
    assert!(parse_blame_output(&block(HASH_A, 1, "A", 0), &Vec::new()).is_empty());
}

#[test]
fn blame_file_lines_reads_a_successful_run() {
    let run = exited(&block(HASH_A, 9, "Alice", 0));
    let found = blame_file_lines("src/a.rs", &vec![9, 10], &run).unwrap();
    assert_eq!(found.len(), 1);
    assert_eq!(found[&9].author, "Alice");
}

#[test]
fn no_lines_need_no_run() {
    assert!(!needs_blame(&Vec::new()));
    assert!(needs_blame(&vec![1]));
    let failed = GitRun::NotStarted { reason: "no git".to_string() };
    assert!(blame_file_lines("f", &Vec::new(), &failed).unwrap().is_empty());
}

#[test]
fn a_failed_run_is_a_blame_error() {
    let not_started = GitRun::NotStarted { reason: "No such file or directory".to_string() };
    match blame_file_lines("src/a.rs", &vec![1], &not_started) {
        Err(TodoTrackError::GitBlame { file, reason }) => {
            assert_eq!(file, "src/a.rs");
            assert_eq!(reason, "failed to execute git blame: No such file or directory");
        }
        other => panic!("{:?}", other),
    }
    let refused = GitRun::Exited {
        success: false,
        stdout: block(HASH_A, 1, "Alice", 0),
        stderr: "fatal: no such path".to_string(),
    };
    match blame_file_lines("src/b.rs", &vec![1], &refused) {
        Err(TodoTrackError::GitBlame { file, reason }) => {
            assert_eq!(file, "src/b.rs");
            assert_eq!(reason, "fatal: no such path");
        }
        other => panic!("{:?}", other),
    }
    match blame_line("src/c.rs", &refused) {
        Err(TodoTrackError::GitBlame { file, reason }) => {
            assert_eq!(file, "src/c.rs");
            assert_eq!(reason, "fatal: no such path");
        }
        other => panic!("{:?}", other),
    }
    assert!(matches!(blame_line("x", &not_started), Err(TodoTrackError::GitBlame { .. })));
}

#[test]
fn blame_of_one_line() {
    let info = blame_line("f", &exited(&block(HASH_A, 3, "Alice Example", 1_431_648_000))).unwrap();
    assert_eq!(info.author, "Alice Example");
    assert_eq!(info.date, "2015-05-15");

    let info = parse_porcelain_blame("").unwrap();
    assert_eq!(info.author, "Unknown");
    assert_eq!(info.date, "Unknown");

    let info = parse_porcelain_blame("author A\nauthor B\nauthor-time 0\nauthor-time 86400\n").unwrap();
    assert_eq!(info.author, "B");
    assert_eq!(info.date, "1970-01-02");
}

#[test]
fn under_version_control() {
    assert!(is_git_repo(&exited("true\n")));
    assert!(!is_git_repo(&GitRun::Exited {
        success: false,
        stdout: String::new(),
        stderr: "fatal: not a git repository".to_string(),
    }));
    assert!(!is_git_repo(&GitRun::NotStarted { reason: "no git".to_string() }));
}

#[test]
fn git_commands() {
    assert_eq!(blame_file_command("src/a.rs"), vec!["blame", "--porcelain", "--", "src/a.rs"]);
    assert_eq!(
        blame_line_command("src/a.rs", 42),
        vec!["blame", "--porcelain", "-L", "42,42", "--", "src/a.rs"]
    );
    assert_eq!(repo_check_command(), vec!["rev-parse", "--is-inside-work-tree"]);
}
