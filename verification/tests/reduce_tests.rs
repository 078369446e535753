use archerdndsys::reduce::{clean_session_calls, collect_session_calls, ReduceError};

fn lines(v: &[&str]) -> Vec<String> {
    v.iter().map(|s| s.to_string()).collect()
}

#[test]
fn reduction_is_idempotent() {
    let input = lines(&[
        "POST /r {a:1}",
        "PUT /r {a:2}",
        "DELETE /s",
        "POST /s {c:3}",
        "GET /t",
        "PUT /t {d:4}",
    ]);
    let once = clean_session_calls(&input).unwrap();
    let twice = clean_session_calls(&once).unwrap();
    assert_eq!(once, twice);
}

#[test]
fn reduction_eliminates_gets() {
    let input = lines(&["GET /a", "POST /a {x:1}", "GET /a", "GET /b"]);
    let out = clean_session_calls(&input).unwrap();
    assert_eq!(out, lines(&["POST /a {x:1}"]));
    for line in &out {
        assert!(!line.starts_with("GET"));
    }
}

#[test]
fn at_most_one_delete_per_key() {
    let input = lines(&["PUT /k {1}", "DELETE /k", "DELETE /k", "POST /k {2}"]);
    let out = clean_session_calls(&input).unwrap();
    assert_eq!(out, lines(&["DELETE /k", "POST /k {2}"]));
    let deletes = out.iter().filter(|l| l.starts_with("DELETE")).count();
    assert_eq!(deletes, 1);
}

#[test]
fn conflict_aborts_and_names_the_endpoint() {
    let input = lines(&["PUT /r/1 {a:1}", "POST /r/1 {b:2}"]);
    let before = input.clone();
    match clean_session_calls(&input) {
        Err(ReduceError::ConflictingSequence { endpoint }) => {
            assert_eq!(endpoint, "/r/1");
        }
        _ => panic!("expected a conflict"),
    }
    assert_eq!(input, before);
}

#[test]
fn conflict_yields_no_partial_output() {
    let input = lines(&["POST /ok {1}", "PUT /r/1 {a}", "POST /r/1 {b}"]);
    assert!(matches!(
        clean_session_calls(&input),
        Err(ReduceError::ConflictingSequence { .. })
    ));
}

#[test]
fn create_then_delete_cancels() {
    let input = lines(&["POST /r/2 {x:1}", "DELETE /r/2"]);
    let out = clean_session_calls(&input).unwrap();
    assert!(out.is_empty());
}

#[test]
fn delete_absorbs_later_update() {
    let input = lines(&["DELETE /r/3", "PUT /r/3 {y:2}"]);
    let out = clean_session_calls(&input).unwrap();
    assert_eq!(out, lines(&["DELETE /r/3"]));
}

#[test]
fn delete_then_create_keeps_both_in_order() {
    let input = lines(&["DELETE /r/4", "POST /r/4 {z:3}"]);
    let out = clean_session_calls(&input).unwrap();
    assert_eq!(out, lines(&["DELETE /r/4", "POST /r/4 {z:3}"]));
}

#[test]
fn last_update_wins() {
    let input = lines(&["PUT /u {1}", "PUT /u {2}"]);
    let out = clean_session_calls(&input).unwrap();
    assert_eq!(out, lines(&["PUT /u {2}"]));
}

#[test]
fn last_create_wins() {
    let input = lines(&["POST /c {1}", "POST /c {2}"]);
    let out = clean_session_calls(&input).unwrap();
    assert_eq!(out, lines(&["POST /c {2}"]));
}

#[test]
fn create_then_update_keeps_the_update_record() {
    let input = lines(&["POST /cu {1}", "PUT /cu {2}"]);
    let out = clean_session_calls(&input).unwrap();
    assert_eq!(out, lines(&["PUT /cu {2}"]));
}

#[test]
fn delete_clears_earlier_history() {
    let input = lines(&["PUT /d {1}", "PUT /d {2}", "DELETE /d {tomb}"]);
    let out = clean_session_calls(&input).unwrap();
    assert_eq!(out, lines(&["DELETE /d {tomb}"]));
}

#[test]
fn malformed_line_is_reported_with_its_index() {
    let input = lines(&["POST /a {x}", "JUNK", "PUT /a {y}"]);
    match clean_session_calls(&input) {
        Err(ReduceError::MalformedRecord { line }) => assert_eq!(line, 1),
        _ => panic!("expected a malformed record"),
    }
}

#[test]
fn unknown_method_is_malformed() {
    let input = lines(&["PATCH /a {x}"]);
    assert!(matches!(
        clean_session_calls(&input),
        Err(ReduceError::MalformedRecord { line: 0 })
    ));
}

#[test]
fn empty_log_reduces_to_empty() {
    let out = clean_session_calls(&Vec::new()).unwrap();
    assert!(out.is_empty());
}

#[test]
fn keys_keep_first_appearance_order() {
    let input = lines(&["POST /a {1}", "POST /b {2}", "PUT /a {3}"]);
    let out = clean_session_calls(&input).unwrap();
    assert_eq!(out, lines(&["PUT /a {3}", "POST /b {2}"]));
}

#[test]
fn delete_create_update_leaves_delete_then_update() {
    // A delete, create, update history survives as the delete and the
    // update's record; cleaning that output again collapses the pair into
    // one synthesized delete.
    let input = lines(&["DELETE /r", "POST /r {x}", "PUT /r {y}"]);
    let once = clean_session_calls(&input).unwrap();
    assert_eq!(once, lines(&["DELETE /r", "PUT /r {y}"]));
    let twice = clean_session_calls(&once).unwrap();
    assert_eq!(twice, lines(&["DELETE /r"]));
}

#[test]
fn collect_skips_blank_lines() {
    let input = lines(&["", "   ", "POST /a {x}"]);
    let ops = collect_session_calls(&input).unwrap();
    assert_eq!(ops.len(), 1);
    assert_eq!(ops[0].endpoint, "/a");
}

#[test]
fn collect_rejects_malformed_lines() {
    let input = lines(&["POST /a {x}", "POST"]);
    match collect_session_calls(&input) {
        Err(ReduceError::MalformedRecord { line }) => assert_eq!(line, 1),
        _ => panic!("expected a malformed record"),
    }
}
