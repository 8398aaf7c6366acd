use file_agent::auth::generate_token_hash;
use file_agent::fsmodel::FsState;
use file_agent::handlers::{
    create_file_or_directory, list_directory, search_files, write_file, CreateRequest,
    SearchRequest, WriteRequest,
};

fn path(segs: &[&str]) -> Vec<String> {
    segs.iter().map(|s| s.to_string()).collect()
}

fn token() -> String {
    "tk".to_string()
}

fn hash() -> String {
    generate_token_hash("tk")
}

fn make_dir(fs: &mut FsState, segs: &[&str]) {
    let r = create_file_or_directory(
        fs,
        &CreateRequest { path: path(segs), is_directory: true, token: token() },
        &hash(),
    );
    assert!(r.success);
}

fn put_file(fs: &mut FsState, segs: &[&str], content: &str) {
    let r = write_file(
        fs,
        &WriteRequest { path: path(segs), content: content.to_string(), token: token() },
        &hash(),
    );
    assert!(r.success);
}

#[test]
fn search_matches_case_insensitively() {
    let mut fs = FsState::empty();
    make_dir(&mut fs, &["docs"]);
    put_file(&mut fs, &["docs", "Report.txt"], "r1");
    put_file(&mut fs, &["docs", "report_old.csv"], "r2");
    put_file(&mut fs, &["docs", "image.png"], "i");
    let r = search_files(
        &fs,
        &SearchRequest { directory: path(&["docs"]), pattern: "report".into(), token: token() },
        &hash(),
    );
    assert!(r.success);
    let mut names: Vec<String> = r.data.unwrap().into_iter().map(|f| f.name).collect();
    names.sort();
    assert_eq!(names, vec!["Report.txt".to_string(), "report_old.csv".to_string()]);
}

#[test]
fn search_result_is_capped() {
    let mut fs = FsState::empty();
    make_dir(&mut fs, &["docs"]);
    put_file(&mut fs, &["docs", "a.txt"], "");
    let r = search_files(
        &fs,
        &SearchRequest { directory: path(&["docs"]), pattern: "".into(), token: token() },
        &hash(),
    );
    assert!(r.success);
    // An empty pattern matches everything visited; still within the cap.
    let infos = r.data.unwrap();
    assert!(infos.len() <= 1000);
    assert_eq!(infos.len(), 2); // the directory itself and the file
}

#[test]
fn search_visits_at_most_one_thousand_entries() {
    let mut fs = FsState::empty();
    make_dir(&mut fs, &["big"]);
    for i in 0..1001 {
        put_file(&mut fs, &["big", &format!("f{i}.txt")], "");
    }
    // 1002 entries stand under the directory (itself included); the walk
    // stops at 1000 visited, so at most 1000 matches come back even
    // though the empty pattern matches every name.
    let r = search_files(
        &fs,
        &SearchRequest { directory: path(&["big"]), pattern: "".into(), token: token() },
        &hash(),
    );
    assert!(r.success);
    assert_eq!(r.data.unwrap().len(), 1000);
}

#[test]
fn search_missing_directory_is_empty_success() {
    let fs = FsState::empty();
    let r = search_files(
        &fs,
        &SearchRequest { directory: path(&["nowhere"]), pattern: "x".into(), token: token() },
        &hash(),
    );
    assert!(r.success);
    assert!(r.data.unwrap().is_empty());
}

#[test]
fn search_reports_path_and_size() {
    let mut fs = FsState::empty();
    make_dir(&mut fs, &["docs"]);
    put_file(&mut fs, &["docs", "Report.txt"], "12345");
    let r = search_files(
        &fs,
        &SearchRequest { directory: path(&["docs"]), pattern: "REPORT".into(), token: token() },
        &hash(),
    );
    let infos = r.data.unwrap();
    assert_eq!(infos.len(), 1);
    assert_eq!(infos[0].path, "docs/Report.txt");
    assert_eq!(infos[0].name, "Report.txt");
    assert!(infos[0].is_file);
    assert_eq!(infos[0].size, Some(5));
}

#[test]
fn list_counts_files_and_directories() {
    let mut fs = FsState::empty();
    make_dir(&mut fs, &["d", "sub"]);
    put_file(&mut fs, &["d", "a.txt"], "aaa");
    put_file(&mut fs, &["d", "b.txt"], "b");
    put_file(&mut fs, &["d", "c.txt"], "");
    let r = list_directory(&fs, &path(&["d"]), "tk", &hash());
    assert!(r.success);
    let infos = r.data.unwrap();
    assert_eq!(infos.len(), 4);
    assert_eq!(infos.iter().filter(|f| !f.is_file).count(), 1);
    let dir_entry = infos.iter().find(|f| !f.is_file).unwrap();
    assert_eq!(dir_entry.name, "sub");
    assert_eq!(dir_entry.size, None);
    let a = infos.iter().find(|f| f.name == "a.txt").unwrap();
    assert_eq!(a.size, Some(3));
    assert_eq!(a.path, "d/a.txt");
}

#[test]
fn list_is_shallow() {
    let mut fs = FsState::empty();
    make_dir(&mut fs, &["d", "sub"]);
    put_file(&mut fs, &["d", "sub", "deep.txt"], "x");
    let r = list_directory(&fs, &path(&["d"]), "tk", &hash());
    let infos = r.data.unwrap();
    assert_eq!(infos.len(), 1);
    assert_eq!(infos[0].name, "sub");
}

#[test]
fn list_missing_directory_fails_wholesale() {
    let fs = FsState::empty();
    let r = list_directory(&fs, &path(&["nope"]), "tk", &hash());
    assert!(!r.success);
    assert_eq!(r.error.as_deref(), Some("Path does not exist"));
}

#[test]
fn list_of_file_fails_wholesale() {
    let mut fs = FsState::empty();
    put_file(&mut fs, &["f.txt"], "x");
    let r = list_directory(&fs, &path(&["f.txt"]), "tk", &hash());
    assert!(!r.success);
    assert_eq!(r.error.as_deref(), Some("Not a directory"));
}

#[test]
fn search_requires_token_but_list_root_works() {
    let mut fs = FsState::empty();
    put_file(&mut fs, &["top.txt"], "x");
    let bad = search_files(
        &fs,
        &SearchRequest { directory: path(&[]), pattern: "top".into(), token: "no".into() },
        &hash(),
    );
    assert!(!bad.success);
    assert_eq!(bad.error.as_deref(), Some("authentication error: invalid token"));
    // The root can be listed with the empty path.
    let l = list_directory(&fs, &path(&[]), "tk", &hash());
    assert!(l.success);
    assert_eq!(l.data.unwrap().len(), 1);
}
