//! The request handlers: each verifies the caller's token, delegates to
//! the filesystem model, and wraps the outcome in the uniform envelope.
//! Failures never escape as transport faults; every answer is an
//! envelope.

use vstd::prelude::*;
use vstd::string::StringExecFns;

use crate::auth::auth_error_view;
use crate::auth::check_auth;
use crate::auth::verify_spec;
use crate::codec::b64_of;
use crate::codec::base64_decode;
use crate::codec::base64_encode;
use crate::codec::decode_error_message;
use crate::codec::decode_error_prefix;
use crate::envelope::ApiResponse;
use crate::fsmodel::create_dir_allowed;
use crate::fsmodel::create_file_allowed;
use crate::fsmodel::dirs_creatable;
use crate::fsmodel::graft_map;
use crate::fsmodel::list_result_ok;
use crate::fsmodel::lookup;
use crate::fsmodel::move_target_ok;
use crate::fsmodel::copy_target_ok;
use crate::fsmodel::prune_map;
use crate::fsmodel::read_view;
use crate::fsmodel::restrict_map;
use crate::fsmodel::search_result_ok;
use crate::fsmodel::with_dirs;
use crate::fsmodel::write_allowed;
use crate::fsmodel::FileInfo;
use crate::fsmodel::FsError;
use crate::fsmodel::FsState;
use crate::fsmodel::NodeView;

verus! {

/// A read (text or binary) of one path.
pub struct ReadRequest {
    pub path: Vec<String>,
    pub token: String,
}

/// A text write of `content` to `path`.
pub struct WriteRequest {
    pub path: Vec<String>,
    pub content: String,
    pub token: String,
}

/// A binary write: `content` is base64 text.
pub struct WriteBinaryRequest {
    pub path: Vec<String>,
    pub content: String,
    pub token: String,
}

/// A delete of one path.
pub struct DeleteRequest {
    pub path: Vec<String>,
    pub token: String,
}

/// A bounded recursive search under `directory`.
pub struct SearchRequest {
    pub directory: Vec<String>,
    pub pattern: String,
    pub token: String,
}

/// Creation of a file or directory.
pub struct CreateRequest {
    pub path: Vec<String>,
    pub is_directory: bool,
    pub token: String,
}

/// A rename from `source` to `destination`.
pub struct MoveRequest {
    pub source: Vec<String>,
    pub destination: Vec<String>,
    pub token: String,
}

/// A copy from `source` to `destination`.
pub struct CopyRequest {
    pub source: Vec<String>,
    pub destination: Vec<String>,
    pub token: String,
}

/// Reads the file at the request's path as UTF-8 text.
pub fn read_file(fs: &FsState, request: &ReadRequest, expected_hash: &str) -> (r: ApiResponse<
    String,
>)
    requires
        fs.wf(),
    ensures
        r.wf(),
        !verify_spec(request.token@, expected_hash@) ==> (!r.success && (r.error matches Some(e)
            && e@ == auth_error_view())),
        verify_spec(request.token@, expected_hash@) ==> ({
            let m = fs.as_map();
            let p = request.path.deep_view();
            &&& (r.success <==> (read_view(m, p) matches Some(c) && vstd::utf8::valid_utf8(c)))
            &&& (r.success ==> (read_view(m, p) matches Some(c) && (r.data matches Some(s) && s@
                == vstd::utf8::decode_utf8(c))))
            &&& (!r.success ==> (r.error matches Some(e) && e@ == (if lookup(m, p) is None {
                FsError::NotFound.message_view()
            } else if lookup(m, p) == Some(NodeView::Dir) {
                FsError::IsADirectory.message_view()
            } else {
                FsError::NotUtf8.message_view()
            })))
        }),
{
    if let Err(e) = check_auth(request.token.as_str(), expected_hash) {
        return ApiResponse::err(e);
    }
    match fs.read_text(&request.path) {
        Ok(content) => ApiResponse::ok(content),
        Err(e) => ApiResponse::err(e.message()),
    }
}

/// Reads the file at the request's path as raw bytes, reported as base64
/// text.
pub fn read_binary_file(fs: &FsState, request: &ReadRequest, expected_hash: &str) -> (r:
    ApiResponse<String>)
    requires
        fs.wf(),
    ensures
        r.wf(),
        !verify_spec(request.token@, expected_hash@) ==> (!r.success && (r.error matches Some(e)
            && e@ == auth_error_view())),
        verify_spec(request.token@, expected_hash@) ==> ({
            let m = fs.as_map();
            let p = request.path.deep_view();
            &&& (r.success <==> read_view(m, p) is Some)
            &&& (r.success ==> (read_view(m, p) matches Some(c) && (r.data matches Some(s) && s@
                == b64_of(c))))
            &&& (!r.success ==> (r.error matches Some(e) && e@ == (if lookup(m, p) is None {
                FsError::NotFound.message_view()
            } else {
                FsError::IsADirectory.message_view()
            })))
        }),
{
    if let Err(e) = check_auth(request.token.as_str(), expected_hash) {
        return ApiResponse::err(e);
    }
    match fs.read_bytes(&request.path) {
        Ok(content) => ApiResponse::ok(base64_encode(&content)),
        Err(e) => ApiResponse::err(e.message()),
    }
}

/// Overwrites (or creates) the file at the request's path with the given
/// text.
pub fn write_file(fs: &mut FsState, request: &WriteRequest, expected_hash: &str) -> (r:
    ApiResponse<String>)
    requires
        old(fs).wf(),
    ensures
        final(fs).wf(),
        r.wf(),
        !verify_spec(request.token@, expected_hash@) ==> (!r.success && (r.error matches Some(e)
            && e@ == auth_error_view()) && *final(fs) == *old(fs)),
        verify_spec(request.token@, expected_hash@) ==> ({
            let m = old(fs).as_map();
            let p = request.path.deep_view();
            &&& (r.success <==> write_allowed(m, p))
            &&& (r.success ==> final(fs).as_map() == m.insert(
                p,
                NodeView::File(vstd::utf8::encode_utf8(request.content@)),
            ) && (r.data matches Some(d) && d@ == "File written successfully"@))
            &&& (!r.success ==> *final(fs) == *old(fs) && r.error is Some)
        }),
{
    if let Err(e) = check_auth(request.token.as_str(), expected_hash) {
        return ApiResponse::err(e);
    }
    let bytes = request.content.as_str().as_bytes_vec();
    match fs.write_bytes(&request.path, bytes) {
        Ok(()) => ApiResponse::ok(String::from_str("File written successfully")),
        Err(e) => ApiResponse::err(e.message()),
    }
}

/// Decodes the request's base64 text and, on success, overwrites (or
/// creates) the file at its path with the raw bytes; a malformed payload
/// touches nothing.
pub fn write_binary_file(fs: &mut FsState, request: &WriteBinaryRequest, expected_hash: &str) -> (r:
    ApiResponse<String>)
    requires
        old(fs).wf(),
    ensures
        final(fs).wf(),
        r.wf(),
        !verify_spec(request.token@, expected_hash@) ==> (!r.success && (r.error matches Some(e)
            && e@ == auth_error_view()) && *final(fs) == *old(fs)),
        verify_spec(request.token@, expected_hash@) ==> ({
            let m = old(fs).as_map();
            let p = request.path.deep_view();
            &&& (r.success <==> ((exists|bs: Seq<u8>| request.content@ == b64_of(bs))
                && write_allowed(m, p)))
            &&& (r.success ==> exists|bs: Seq<u8>|
                request.content@ == b64_of(bs) && final(fs).as_map() == m.insert(
                    p,
                    NodeView::File(bs),
                ) && (r.data matches Some(d) && d@ == "Binary file written successfully"@))
            &&& (!r.success ==> *final(fs) == *old(fs) && (r.error matches Some(e) && ((!(exists|
                bs: Seq<u8>,
            | request.content@ == b64_of(bs))) ==> e@.len() >= decode_error_prefix().len()
                && e@.take(decode_error_prefix().len() as int) == decode_error_prefix())))
        }),
{
    if let Err(e) = check_auth(request.token.as_str(), expected_hash) {
        return ApiResponse::err(e);
    }
    match base64_decode(request.content.as_str()) {
        Ok(binary_data) => {
            let ghost bs = binary_data@;
            match fs.write_bytes(&request.path, binary_data) {
                Ok(()) => {
                    proof {
                        assert(request.content@ == b64_of(bs));
                    }
                    ApiResponse::ok(String::from_str("Binary file written successfully"))
                },
                Err(e) => {
                    let mut msg = String::from_str("File write error: ");
                    msg.append(e.message().as_str());
                    ApiResponse::err(msg)
                },
            }
        },
        Err(detail) => {
            let msg = decode_error_message(detail.as_str());
            proof {
                assert(msg@.take(decode_error_prefix().len() as int) =~= decode_error_prefix());
            }
            ApiResponse::err(msg)
        },
    }
}

/// Removes the file, or directory tree, at the request's path; a missing
/// path reports the fixed not-found message without touching anything.
pub fn delete_file(fs: &mut FsState, request: &DeleteRequest, expected_hash: &str) -> (r:
    ApiResponse<String>)
    requires
        old(fs).wf(),
    ensures
        final(fs).wf(),
        r.wf(),
        !verify_spec(request.token@, expected_hash@) ==> (!r.success && (r.error matches Some(e)
            && e@ == auth_error_view()) && *final(fs) == *old(fs)),
        verify_spec(request.token@, expected_hash@) ==> ({
            let m = old(fs).as_map();
            let p = request.path.deep_view();
            &&& (r.success <==> m.dom().contains(p))
            &&& (r.success ==> final(fs).as_map() == prune_map(m, p) && (r.data matches Some(d)
                && d@ == "Deleted successfully"@))
            &&& (!r.success ==> *final(fs) == *old(fs) && (r.error matches Some(e) && e@
                == "Path does not exist"@))
        }),
{
    if let Err(e) = check_auth(request.token.as_str(), expected_hash) {
        return ApiResponse::err(e);
    }
    match fs.delete_path(&request.path) {
        Ok(()) => ApiResponse::ok(String::from_str("Deleted successfully")),
        Err(e) => ApiResponse::err(e.message()),
    }
}

/// Creates a directory with all missing ancestors, or an empty file
/// after creating its missing ancestors.
pub fn create_file_or_directory(fs: &mut FsState, request: &CreateRequest, expected_hash: &str) -> (r:
    ApiResponse<String>)
    requires
        old(fs).wf(),
    ensures
        final(fs).wf(),
        r.wf(),
        !verify_spec(request.token@, expected_hash@) ==> (!r.success && (r.error matches Some(e)
            && e@ == auth_error_view()) && *final(fs) == *old(fs)),
        verify_spec(request.token@, expected_hash@) ==> ({
            let m = old(fs).as_map();
            let p = request.path.deep_view();
            &&& (request.is_directory ==> ((r.success <==> create_dir_allowed(m, p)) && (r.success
                ==> final(fs).as_map() == with_dirs(m, p) && (r.data matches Some(d) && d@
                == "Directory created successfully"@))))
            &&& (!request.is_directory ==> ((r.success <==> create_file_allowed(m, p)) && (
            r.success ==> final(fs).as_map() == with_dirs(m, p.drop_last()).insert(
                p,
                NodeView::File(Seq::empty()),
            ) && (r.data matches Some(d) && d@ == "File created successfully"@))))
            &&& (!r.success ==> *final(fs) == *old(fs) && r.error is Some)
            &&& ((!r.success && !request.is_directory && p.len() >= 1 && !dirs_creatable(
                m,
                p.drop_last(),
            )) ==> (r.error matches Some(e) && e@.len() >= parent_error_prefix().len()
                && e@.take(parent_error_prefix().len() as int) == parent_error_prefix()))
        }),
{
    if let Err(e) = check_auth(request.token.as_str(), expected_hash) {
        return ApiResponse::err(e);
    }
    match fs.create_path(&request.path, request.is_directory) {
        Ok(()) => {
            if request.is_directory {
                ApiResponse::ok(String::from_str("Directory created successfully"))
            } else {
                ApiResponse::ok(String::from_str("File created successfully"))
            }
        },
        Err(e) => {
            if !request.is_directory && matches!(e, FsError::NotADirectory) {
                let mut msg = String::from_str("Failed to create parent directory: ");
                msg.append(e.message().as_str());
                proof {
                    assert(msg@.take(parent_error_prefix().len() as int)
                        =~= parent_error_prefix());
                }
                ApiResponse::err(msg)
            } else {
                ApiResponse::err(e.message())
            }
        },
    }
}

/// Renames the source to the destination, creating the destination's
/// missing ancestors; a missing source reports the fixed message without
/// touching anything.
pub fn move_file(fs: &mut FsState, request: &MoveRequest, expected_hash: &str) -> (r: ApiResponse<
    String,
>)
    requires
        old(fs).wf(),
    ensures
        final(fs).wf(),
        r.wf(),
        !verify_spec(request.token@, expected_hash@) ==> (!r.success && (r.error matches Some(e)
            && e@ == auth_error_view()) && *final(fs) == *old(fs)),
        verify_spec(request.token@, expected_hash@) ==> ({
            let m = old(fs).as_map();
            let sv = request.source.deep_view();
            let dv = request.destination.deep_view();
            &&& (r.success <==> (sv.len() >= 1 && m.dom().contains(sv) && dv.len() >= 1
                && dirs_creatable(m, dv.drop_last()) && move_target_ok(m, sv, dv)))
            &&& (r.success ==> final(fs).as_map() == graft_map(
                prune_map(with_dirs(m, dv.drop_last()), sv),
                restrict_map(m, sv),
                sv,
                dv,
            ) && (r.data matches Some(d) && d@ == "File moved successfully"@))
            &&& ((sv.len() == 0 || !m.dom().contains(sv)) ==> !r.success && *final(fs) == *old(fs)
                && (r.error matches Some(e) && e@ == "Source file does not exist"@))
            &&& (!r.success ==> r.error is Some)
        }),
{
    if let Err(e) = check_auth(request.token.as_str(), expected_hash) {
        return ApiResponse::err(e);
    }
    match fs.move_entry(&request.source, &request.destination) {
        Ok(()) => ApiResponse::ok(String::from_str("File moved successfully")),
        Err(e) => ApiResponse::err(e.message()),
    }
}

/// Copies the source — recursively for a directory — to the destination,
/// creating the destination's missing ancestors; a missing source reports
/// the fixed message without touching anything.
pub fn copy_file(fs: &mut FsState, request: &CopyRequest, expected_hash: &str) -> (r: ApiResponse<
    String,
>)
    requires
        old(fs).wf(),
    ensures
        final(fs).wf(),
        r.wf(),
        !verify_spec(request.token@, expected_hash@) ==> (!r.success && (r.error matches Some(e)
            && e@ == auth_error_view()) && *final(fs) == *old(fs)),
        verify_spec(request.token@, expected_hash@) ==> ({
            let m = old(fs).as_map();
            let sv = request.source.deep_view();
            let dv = request.destination.deep_view();
            &&& (r.success <==> (sv.len() >= 1 && m.dom().contains(sv) && dv.len() >= 1
                && dirs_creatable(m, dv.drop_last()) && copy_target_ok(m, sv, dv)))
            &&& (r.success ==> final(fs).as_map() == graft_map(
                with_dirs(m, dv.drop_last()),
                restrict_map(m, sv),
                sv,
                dv,
            ) && (r.data matches Some(d) && d@ == "File copied successfully"@))
            &&& ((sv.len() == 0 || !m.dom().contains(sv)) ==> !r.success && *final(fs) == *old(fs)
                && (r.error matches Some(e) && e@ == "Source file does not exist"@))
            &&& (!r.success ==> r.error is Some)
        }),
{
    if let Err(e) = check_auth(request.token.as_str(), expected_hash) {
        return ApiResponse::err(e);
    }
    match fs.copy_entry(&request.source, &request.destination) {
        Ok(()) => ApiResponse::ok(String::from_str("File copied successfully")),
        Err(e) => ApiResponse::err(e.message()),
    }
}

/// Bounded recursive search under the request's directory; never an
/// error once the token verifies, even when the directory is missing.
pub fn search_files(fs: &FsState, request: &SearchRequest, expected_hash: &str) -> (r: ApiResponse<
    Vec<FileInfo>,
>)
    requires
        fs.wf(),
    ensures
        r.wf(),
        !verify_spec(request.token@, expected_hash@) ==> (!r.success && (r.error matches Some(e)
            && e@ == auth_error_view())),
        verify_spec(request.token@, expected_hash@) ==> r.success && (r.data matches Some(v)
            && search_result_ok(
            fs.as_map(),
            request.directory.deep_view(),
            request.pattern@,
            v@,
        )),
{
    if let Err(e) = check_auth(request.token.as_str(), expected_hash) {
        return ApiResponse::err(e);
    }
    let files = fs.search(&request.directory, request.pattern.as_str());
    ApiResponse::ok(files)
}

/// Shallow listing of the directory at `path`; fails wholesale when that
/// path is not a directory.
pub fn list_directory(fs: &FsState, path: &Vec<String>, token: &str, expected_hash: &str) -> (r:
    ApiResponse<Vec<FileInfo>>)
    requires
        fs.wf(),
    ensures
        r.wf(),
        !verify_spec(token@, expected_hash@) ==> (!r.success && (r.error matches Some(e) && e@
            == auth_error_view())),
        verify_spec(token@, expected_hash@) ==> ({
            let m = fs.as_map();
            let p = path.deep_view();
            &&& (r.success <==> lookup(m, p) == Some(NodeView::Dir))
            &&& (r.success ==> (r.data matches Some(v) && list_result_ok(m, p, v@)))
            &&& (!r.success ==> (r.error matches Some(e) && e@ == (if lookup(m, p) is None {
                FsError::NotFound.message_view()
            } else {
                FsError::NotADirectory.message_view()
            })))
        }),
{
    if !crate::auth::verify_token(token, expected_hash) {
        return ApiResponse::err(String::from_str("authentication error: invalid token"));
    }
    match fs.list_dir(path) {
        Ok(files) => ApiResponse::ok(files),
        Err(e) => ApiResponse::err(e.message()),
    }
}

/// The fixed prefix put before a parent-directory creation failure.
pub open spec fn parent_error_prefix() -> Seq<char> {
    "Failed to create parent directory: "@
}

/// The health endpoint: always succeeds, and requires no token.
pub fn health_check() -> (r: ApiResponse<String>)
    ensures
        r.wf(),
        r.success,
        (r.data matches Some(d) && d@ == "File Agent is running (token required for operations)"@),
{
    ApiResponse::ok(String::from_str("File Agent is running (token required for operations)"))
}

} // verus!
