use hardlink_dups::{obtain_run_targets, read_lines, split_vec};

fn strings(items: &[&str]) -> Vec<String> {
    items.iter().map(|s| s.to_string()).collect()
}

#[test]
fn _split_vec() {
    let v: Vec<_> = vec![";", ";", ";"].into_iter().map(|s| s.to_string()).collect();
    let res = split_vec(&v[..], &";".to_string());
    assert_eq!(res.len(), 2)
}

#[test]
fn split_vec_cuts_at_delimiters() {
    let v = strings(&["a", "b", ";", "c", ";", "d"]);
    let res = split_vec(&v[..], &";".to_string());
    let got: Vec<Vec<&str>> = res.iter().map(|c| c.iter().map(|s| s.as_str()).collect()).collect();
    assert_eq!(got, vec![vec!["a", "b"], vec!["c"], vec!["d"]]);
}

#[test]
fn split_vec_leading_delimiter_joins_chunk() {
    let v = strings(&[";", "a", ";"]);
    let res = split_vec(&v[..], &";".to_string());
    let got: Vec<Vec<&str>> = res.iter().map(|c| c.iter().map(|s| s.as_str()).collect()).collect();
    assert_eq!(got, vec![vec![";", "a"]]);
}

#[test]
fn split_vec_empty_input() {
    let v: Vec<String> = Vec::new();
    assert!(split_vec(&v[..], &";".to_string()).is_empty());
}

#[test]
fn obtain_run_targets_splits_sets() {
    let v = strings(&["/a", "/b", "--", "/c"]);
    let sets = obtain_run_targets(&v, &"--".to_string()).unwrap();
    assert_eq!(sets.len(), 2);
    assert_eq!(sets[0].len(), 2);
    assert_eq!(sets[1][0].as_str(), "/c");
}

#[test]
fn obtain_run_targets_rejects_nul() {
    let v = strings(&["/a", "/b\0c", "/d\0"]);
    assert_eq!(obtain_run_targets(&v, &";".to_string()), Err(1));
}

#[test]
fn read_lines_stops_at_first_error() {
    let lines = vec![
        Ok("/x".to_string()),
        Ok("/y".to_string()),
        Err("bad".to_string()),
        Ok("/z".to_string()),
    ];
    let mut dest = vec!["/w".to_string()];
    assert_eq!(read_lines(&lines, &mut dest), Err("bad".to_string()));
    assert_eq!(dest, strings(&["/w", "/x", "/y"]));
}

#[test]
fn read_lines_takes_all() {
    let lines = vec![Ok("/x".to_string()), Ok("/y".to_string())];
    let mut dest = Vec::new();
    assert_eq!(read_lines(&lines, &mut dest), Ok(()));
    assert_eq!(dest, strings(&["/x", "/y"]));
}
