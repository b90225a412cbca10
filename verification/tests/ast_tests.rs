use lab_checker::ast::{
    comparison_output, count_diff_lines, hashes_generated, index_result, parse_index,
};
use lab_checker::process::ProcessOutcome;

const H1: &str = "0123456789abcdef0123456789abcdef";
const H2: &str = "ffffffffffffffffffffffffffffffff";

fn text(b: &[u8]) -> String {
    String::from_utf8(b.to_vec()).unwrap()
}

fn index_of(out: &str) -> Option<Vec<(String, Vec<String>)>> {
    parse_index(out.as_bytes()).map(|ix| {
        ix.into_iter()
            .map(|(k, v)| (text(&k), v.iter().map(|l| text(l)).collect()))
            .collect()
    })
}

#[test]
fn parse_index_files_lines_under_hashes() {
    let out = format!("Hash {}\nalice\nbob\nHash {}\ncarol\nHash {}\ndave\n", H1, H2, H1);
    let ix = index_of(&out).unwrap();
    assert_eq!(
        ix,
        vec![
            (H1.to_string(), vec!["alice".to_string(), "bob".to_string(), "dave".to_string()]),
            (H2.to_string(), vec!["carol".to_string()]),
        ]
    );
}

#[test]
fn parse_index_lines_before_any_hash_go_under_empty_key() {
    let out = format!("stray\nHash {}\n", H1);
    let ix = index_of(&out).unwrap();
    assert_eq!(ix, vec![("".to_string(), vec!["stray".to_string()])]);
}

#[test]
fn parse_index_keeps_only_first_32_hash_chars() {
    let out = format!("Hash {}EXTRA\nx\n", H1);
    let ix = index_of(&out).unwrap();
    assert_eq!(ix, vec![(H1.to_string(), vec!["x".to_string()])]);
}

#[test]
fn parse_index_refuses_short_hash_line() {
    assert_eq!(index_of("Hash abc\nx\n"), None);
    assert_eq!(index_of(""), Some(vec![]));
}

#[test]
fn count_diff_lines_adds_up_changes() {
    let out = "diff -x *.out -x .git a/main.cpp b/main.cpp\na1 2\nfoo\nbar\nd5 1\n";
    assert_eq!(count_diff_lines(out.as_bytes()), Some(3));
    assert_eq!(count_diff_lines(b""), Some(0));
}

#[test]
fn count_diff_lines_skips_the_added_text() {
    let out = "a0 2\nd1 7\nlooks like 9 numbers\nd3 4\n";
    assert_eq!(count_diff_lines(out.as_bytes()), Some(6));
}

#[test]
fn count_diff_lines_negative_number_skips_nothing() {
    let out = "x -3\nd1 5\n";
    assert_eq!(count_diff_lines(out.as_bytes()), Some(2));
}

#[test]
fn count_diff_lines_refuses_malformed_output() {
    assert_eq!(count_diff_lines(b"single\n"), None);
    assert_eq!(count_diff_lines(b"a1 zz\n"), None);
    assert_eq!(count_diff_lines(b"x -2147483648\nd1 -1\n"), None);
    assert_eq!(count_diff_lines(b"a1 2147483647\nx\ny\n"), Some(i32::MAX));
}

fn exited(success: bool, stdout: &str, stderr: &str) -> ProcessOutcome {
    ProcessOutcome::Exited {
        success,
        stdout: stdout.as_bytes().to_vec(),
        stderr: stderr.as_bytes().to_vec(),
    }
}

#[test]
fn hashes_generated_needs_silent_script() {
    assert_eq!(hashes_generated(&exited(true, "ok", "")), Ok(()));
    assert_eq!(hashes_generated(&exited(false, "", "")), Ok(()));
    assert_eq!(hashes_generated(&exited(true, "", "Traceback")), Err(()));
    assert_eq!(hashes_generated(&ProcessOutcome::SpawnFailed("no python".to_string())), Err(()));
}

#[test]
fn comparison_output_gives_stdout() {
    assert_eq!(comparison_output(exited(true, "0.75", "")), Some(b"0.75".to_vec()));
    assert_eq!(comparison_output(exited(true, "0.75", "warn")), None);
    assert_eq!(comparison_output(ProcessOutcome::SpawnFailed("x".to_string())), None);
}

#[test]
fn index_result_needs_success() {
    let out = format!("Hash {}\nalice\n", H1);
    let r = index_result(&exited(true, &out, "")).unwrap().unwrap();
    assert_eq!(r.len(), 1);
    assert_eq!(r[0].0, H1.as_bytes().to_vec());
    assert_eq!(index_result(&exited(false, &out, "")), Err(()));
    assert_eq!(index_result(&ProcessOutcome::SpawnFailed("x".to_string())), Err(()));
    assert_eq!(index_result(&exited(true, "Hash 12\n", "")), Ok(None));
}
