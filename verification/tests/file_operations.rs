use base64::Engine;
use file_agent::auth::generate_token_hash;
use file_agent::fsmodel::FsState;
use file_agent::handlers::{
    copy_file, create_file_or_directory, delete_file, list_directory, move_file, read_binary_file,
    read_file, write_binary_file, write_file, CopyRequest, CreateRequest, DeleteRequest,
    MoveRequest, ReadRequest, WriteBinaryRequest, WriteRequest,
};

fn path(segs: &[&str]) -> Vec<String> {
    segs.iter().map(|s| s.to_string()).collect()
}

fn token() -> String {
    "test-token".to_string()
}

fn hash() -> String {
    generate_token_hash("test-token")
}

fn make_dir(fs: &mut FsState, segs: &[&str]) {
    let r = create_file_or_directory(
        fs,
        &CreateRequest { path: path(segs), is_directory: true, token: token() },
        &hash(),
    );
    assert!(r.success, "mkdir {:?} failed: {:?}", segs, r.error);
}

fn put_file(fs: &mut FsState, segs: &[&str], content: &str) {
    let r = write_file(
        fs,
        &WriteRequest { path: path(segs), content: content.to_string(), token: token() },
        &hash(),
    );
    assert!(r.success, "write {:?} failed: {:?}", segs, r.error);
}

fn get_file(fs: &FsState, segs: &[&str]) -> Result<String, String> {
    let r = read_file(fs, &ReadRequest { path: path(segs), token: token() }, &hash());
    if r.success {
        Ok(r.data.unwrap())
    } else {
        Err(r.error.unwrap())
    }
}

#[test]
fn text_write_read_round_trip() {
    let mut fs = FsState::empty();
    put_file(&mut fs, &["notes.txt"], "héllo wörld — ✓ UTF-8");
    assert_eq!(get_file(&fs, &["notes.txt"]).unwrap(), "héllo wörld — ✓ UTF-8");
    // Overwrite replaces the whole content.
    put_file(&mut fs, &["notes.txt"], "");
    assert_eq!(get_file(&fs, &["notes.txt"]).unwrap(), "");
}

#[test]
fn write_does_not_create_parents() {
    let mut fs = FsState::empty();
    let r = write_file(
        &mut fs,
        &WriteRequest { path: path(&["missing", "f.txt"]), content: "x".into(), token: token() },
        &hash(),
    );
    assert!(!r.success);
    assert!(get_file(&fs, &["missing", "f.txt"]).is_err());
}

#[test]
fn binary_write_read_round_trip() {
    let bytes: Vec<u8> = vec![0, 1, 2, 254, 255, 128, 7];
    let encoded = base64::engine::general_purpose::STANDARD.encode(&bytes);
    let mut fs = FsState::empty();
    let w = write_binary_file(
        &mut fs,
        &WriteBinaryRequest { path: path(&["blob.bin"]), content: encoded.clone(), token: token() },
        &hash(),
    );
    assert!(w.success);
    assert_eq!(w.data.as_deref(), Some("Binary file written successfully"));
    let r = read_binary_file(&fs, &ReadRequest { path: path(&["blob.bin"]), token: token() }, &hash());
    assert!(r.success);
    assert_eq!(r.data.unwrap(), encoded);
}

#[test]
fn binary_write_rejects_malformed_base64() {
    let mut fs = FsState::empty();
    let w = write_binary_file(
        &mut fs,
        &WriteBinaryRequest { path: path(&["blob.bin"]), content: "!!!not-base64".into(), token: token() },
        &hash(),
    );
    assert!(!w.success);
    let err = w.error.unwrap();
    assert!(err.starts_with("Base64 decode error: "), "unexpected error: {err}");
    // Nothing was written.
    let r = read_binary_file(&fs, &ReadRequest { path: path(&["blob.bin"]), token: token() }, &hash());
    assert!(!r.success);
}

#[test]
fn delete_missing_path_reports_fixed_message() {
    let mut fs = FsState::empty();
    let r = delete_file(&mut fs, &DeleteRequest { path: path(&["nope"]), token: token() }, &hash());
    assert!(!r.success);
    assert_eq!(r.error.as_deref(), Some("Path does not exist"));
}

#[test]
fn delete_removes_directory_recursively() {
    let mut fs = FsState::empty();
    make_dir(&mut fs, &["d", "sub"]);
    put_file(&mut fs, &["d", "a.txt"], "a");
    put_file(&mut fs, &["d", "sub", "b.txt"], "b");
    let r = delete_file(&mut fs, &DeleteRequest { path: path(&["d"]), token: token() }, &hash());
    assert!(r.success);
    assert_eq!(r.data.as_deref(), Some("Deleted successfully"));
    assert!(get_file(&fs, &["d", "a.txt"]).is_err());
    assert!(get_file(&fs, &["d", "sub", "b.txt"]).is_err());
}

#[test]
fn create_directory_builds_ancestor_chain() {
    let mut fs = FsState::empty();
    make_dir(&mut fs, &["a", "b", "c"]);
    // Every ancestor is now a directory: listing each level shows the next.
    let l = list_directory(&fs, &path(&["a"]), "test-token", &hash());
    assert!(l.success);
    let infos = l.data.unwrap();
    assert_eq!(infos.len(), 1);
    assert_eq!(infos[0].name, "b");
    assert!(!infos[0].is_file);
    let l2 = list_directory(&fs, &path(&["a", "b"]), "test-token", &hash());
    assert_eq!(l2.data.unwrap()[0].name, "c");
}

#[test]
fn create_file_builds_ancestors_and_truncates() {
    let mut fs = FsState::empty();
    let r = create_file_or_directory(
        &mut fs,
        &CreateRequest { path: path(&["x", "y", "f.txt"]), is_directory: false, token: token() },
        &hash(),
    );
    assert!(r.success);
    assert_eq!(r.data.as_deref(), Some("File created successfully"));
    assert_eq!(get_file(&fs, &["x", "y", "f.txt"]).unwrap(), "");
    // Creating over an existing file truncates it.
    put_file(&mut fs, &["x", "y", "f.txt"], "content");
    let r2 = create_file_or_directory(
        &mut fs,
        &CreateRequest { path: path(&["x", "y", "f.txt"]), is_directory: false, token: token() },
        &hash(),
    );
    assert!(r2.success);
    assert_eq!(get_file(&fs, &["x", "y", "f.txt"]).unwrap(), "");
}

#[test]
fn move_creates_ancestors_and_removes_source() {
    let mut fs = FsState::empty();
    make_dir(&mut fs, &["m"]);
    put_file(&mut fs, &["m", "src.txt"], "payload");
    let r = move_file(
        &mut fs,
        &MoveRequest {
            source: path(&["m", "src.txt"]),
            destination: path(&["n", "deep", "dst.txt"]),
            token: token(),
        },
        &hash(),
    );
    assert!(r.success, "{:?}", r.error);
    assert_eq!(r.data.as_deref(), Some("File moved successfully"));
    assert!(get_file(&fs, &["m", "src.txt"]).is_err());
    assert_eq!(get_file(&fs, &["n", "deep", "dst.txt"]).unwrap(), "payload");
    // The created ancestor is a directory.
    let l = list_directory(&fs, &path(&["n"]), "test-token", &hash());
    let infos = l.data.unwrap();
    assert_eq!(infos.len(), 1);
    assert_eq!(infos[0].name, "deep");
    assert!(!infos[0].is_file);
}

#[test]
fn move_missing_source_reports_fixed_message() {
    let mut fs = FsState::empty();
    let r = move_file(
        &mut fs,
        &MoveRequest { source: path(&["ghost"]), destination: path(&["d"]), token: token() },
        &hash(),
    );
    assert!(!r.success);
    assert_eq!(r.error.as_deref(), Some("Source file does not exist"));
}

#[test]
fn copy_reproduces_directory_tree() {
    let mut fs = FsState::empty();
    make_dir(&mut fs, &["tree", "sub"]);
    put_file(&mut fs, &["tree", "one.txt"], "first");
    put_file(&mut fs, &["tree", "sub", "two.txt"], "second");
    let r = copy_file(
        &mut fs,
        &CopyRequest { source: path(&["tree"]), destination: path(&["mirror"]), token: token() },
        &hash(),
    );
    assert!(r.success, "{:?}", r.error);
    assert_eq!(r.data.as_deref(), Some("File copied successfully"));
    // Destination reproduces every file with identical contents.
    assert_eq!(get_file(&fs, &["mirror", "one.txt"]).unwrap(), "first");
    assert_eq!(get_file(&fs, &["mirror", "sub", "two.txt"]).unwrap(), "second");
    // The source is untouched.
    assert_eq!(get_file(&fs, &["tree", "one.txt"]).unwrap(), "first");
}

#[test]
fn copy_missing_source_reports_fixed_message() {
    let mut fs = FsState::empty();
    let r = copy_file(
        &mut fs,
        &CopyRequest { source: path(&["ghost"]), destination: path(&["d"]), token: token() },
        &hash(),
    );
    assert!(!r.success);
    assert_eq!(r.error.as_deref(), Some("Source file does not exist"));
}

#[test]
fn text_read_rejects_invalid_utf8() {
    let mut fs = FsState::empty();
    // 0xFF 0xFE is not valid UTF-8; smuggle it in through the binary endpoint.
    let encoded = base64::engine::general_purpose::STANDARD.encode([0xFFu8, 0xFE]);
    let w = write_binary_file(
        &mut fs,
        &WriteBinaryRequest { path: path(&["raw.bin"]), content: encoded, token: token() },
        &hash(),
    );
    assert!(w.success);
    let r = read_file(&fs, &ReadRequest { path: path(&["raw.bin"]), token: token() }, &hash());
    assert!(!r.success);
    assert_eq!(r.error.as_deref(), Some("stream did not contain valid UTF-8"));
}

#[test]
fn read_of_directory_fails() {
    let mut fs = FsState::empty();
    make_dir(&mut fs, &["d"]);
    let r = read_file(&fs, &ReadRequest { path: path(&["d"]), token: token() }, &hash());
    assert!(!r.success);
    assert_eq!(r.error.as_deref(), Some("Is a directory"));
}

#[test]
fn wrong_token_short_circuits_before_any_change() {
    let mut fs = FsState::empty();
    let bad = write_file(
        &mut fs,
        &WriteRequest { path: path(&["f.txt"]), content: "x".into(), token: "wrong".into() },
        &hash(),
    );
    assert!(!bad.success);
    assert_eq!(bad.error.as_deref(), Some("authentication error: invalid token"));
    // The write did not happen even with a good token afterwards.
    assert!(get_file(&fs, &["f.txt"]).is_err());
}
