//! Uploading an asset: who owns it, what it is called, and how the operation
//! that creates it is followed.
use vstd::prelude::*;
use vstd::string::*;

use crate::decimal;
use crate::json;
use crate::json::{flag_at, json_scalar_to_string, read_at};
use crate::text;
use crate::text::{
    chars_of, find_from, joined, lower_text, owned, same, starts_with, string_of, string_of_range,
    trim_chars, trim_text,
};

verus! {

/// The largest asset that can be uploaded.
pub const MAX_ASSET_BYTES: u64 = 20_971_520;

/// The owner of an asset.
#[derive(Debug, Clone, PartialEq, Eq)]
pub enum Creator {
    User(String),
    Group(String),
}

/// How a request names its caller.
#[derive(Debug, Clone, Copy, PartialEq, Eq, Structural)]
pub enum AuthMode {
    ApiKey,
    Bearer,
}

/// An asset to upload; times are in milliseconds.
#[derive(Debug)]
pub struct AssetUploadRequest {
    pub file: String,
    pub api_key: String,
    pub auth_mode: AuthMode,
    pub creator: Creator,
    pub asset_type: String,
    pub content_type: String,
    pub display_name: String,
    pub description: String,
    pub wait: bool,
    pub timeout: u64,
    pub poll: u64,
}

/// Why a text names no creator.
#[derive(Debug, Clone, Copy, PartialEq, Eq, Structural)]
pub enum CreatorProblem {
    /// There is no colon.
    Form,
    /// The id is no number.
    Id,
    /// The kind is neither a user nor a group.
    Kind,
}

#[verifier::ext_equal]
pub enum CreatorModel {
    User(Seq<char>),
    Group(Seq<char>),
}

impl Creator {
    pub open spec fn view(&self) -> CreatorModel {
        match self {
            Creator::User(id) => CreatorModel::User(id@),
            Creator::Group(id) => CreatorModel::Group(id@),
        }
    }
}

/// The creator that a text names: a kind, a colon and a number.
pub open spec fn creator_of(input: Seq<char>) -> Result<CreatorModel, CreatorProblem> {
    let k = text::first_index(input, ':');
    if k >= input.len() {
        Err(CreatorProblem::Form)
    } else {
        let kind = text::lower(text::trimmed(input.take(k)));
        let id = text::trimmed(input.skip(k + 1));
        if id.len() == 0 || !decimal::all_digits(id) {
            Err(CreatorProblem::Id)
        } else if kind == "user"@ || kind == "u"@ {
            Ok(CreatorModel::User(id))
        } else if kind == "group"@ || kind == "g"@ {
            Ok(CreatorModel::Group(id))
        } else {
            Err(CreatorProblem::Kind)
        }
    }
}

fn only_digits(chars: &[char]) -> (r: bool)
    ensures
        r == decimal::all_digits(chars@),
{
    let mut k: usize = 0;
    while k < chars.len()
        invariant
            k <= chars@.len(),
            forall|j: int| 0 <= j < k ==> decimal::is_digit(#[trigger] chars@[j]),
        decreases chars@.len() - k,
    {
        if !('0' <= chars[k] && chars[k] <= '9') {
            assert(!decimal::is_digit(chars@[k as int]));
            return false;
        }
        k += 1;
    }
    true
}

/// Reads the owner of an asset.
pub fn parse_creator(input: &str) -> (r: Result<Creator, CreatorProblem>)
    ensures
        match r {
            Ok(creator) => creator_of(input@) == Ok::<CreatorModel, CreatorProblem>(creator@),
            Err(p) => creator_of(input@) == Err::<CreatorModel, CreatorProblem>(p),
        },
{
    let chars = chars_of(input);
    proof {
        assert(input@.skip(0) =~= input@);
    }
    let k = find_from(&chars, 0, ':');
    if k >= chars.len() {
        return Err(CreatorProblem::Form);
    }
    let kind_text = string_of_range(&chars, 0, k);
    let id_text = string_of_range(&chars, k + 1, chars.len());
    proof {
        assert(kind_text@ =~= input@.take(k as int));
        assert(id_text@ =~= input@.skip(k + 1));
    }
    let id_chars = trim_chars(&chars_of(id_text.as_str()));
    if id_chars.len() == 0 || !only_digits(&id_chars) {
        return Err(CreatorProblem::Id);
    }
    let id = string_of(&id_chars);
    let kind = lower_text(trim_text(kind_text.as_str()).as_str());
    if same(kind.as_str(), "user") || same(kind.as_str(), "u") {
        Ok(Creator::User(id))
    } else if same(kind.as_str(), "group") || same(kind.as_str(), "g") {
        Ok(Creator::Group(id))
    } else {
        Err(CreatorProblem::Kind)
    }
}

/// The place of the last dot in `s` before `n`, if there is one.
pub open spec fn last_dot(s: Seq<char>, n: int) -> Option<int>
    decreases n,
{
    if n <= 0 {
        None
    } else if s[n - 1] == '.' {
        Some(n - 1)
    } else {
        last_dot(s, n - 1)
    }
}

/// A file name without its extension. A name that begins with its only dot has
/// none.
pub open spec fn file_stem(name: Seq<char>) -> Seq<char> {
    match last_dot(name, name.len() as int) {
        Some(k) => if k > 0 {
            name.take(k)
        } else {
            name
        },
        None => name,
    }
}

/// The name of an asset that was given none.
pub open spec fn display_name_of(file_name: Option<Seq<char>>) -> Seq<char> {
    match file_name {
        Some(name) => if text::trimmed(file_stem(name)).len() > 0 {
            text::trimmed(file_stem(name))
        } else {
            "Ro Sync Asset"@
        },
        None => "Ro Sync Asset"@,
    }
}

/// Names an asset after its file, where the file has a name that is text.
pub fn default_display_name(file_name: Option<&str>) -> (out: String)
    ensures
        out@ == display_name_of(crate::compare_session::option_str(file_name)),
{
    let name = match file_name {
        None => return owned("Ro Sync Asset"),
        Some(name) => name,
    };
    let chars = chars_of(name);
    let len: usize = chars.len();
    let mut n: usize = len;
    while n > 0 && chars[n - 1] != '.'
        invariant
            n <= len,
            len == chars@.len(),
            last_dot(chars@, len as int) == last_dot(chars@, n as int),
        decreases n,
    {
        n -= 1;
    }
    let stem_len: usize = if n > 1 {
        n - 1
    } else {
        len
    };
    let stem = string_of_range(&chars, 0, stem_len);
    proof {
        assert(stem@ =~= name@.take(stem_len as int));
        assert(name@.take(len as int) =~= name@);
        assert(stem@ == file_stem(name@));
    }
    let kept = trim_text(stem.as_str());
    if chars_of(kept.as_str()).len() > 0 {
        kept
    } else {
        owned("Ro Sync Asset")
    }
}

/// `s` without the slashes at its start.
pub open spec fn without_slashes(s: Seq<char>) -> Seq<char>
    decreases s.len(),
{
    if s.len() > 0 && s[0] == '/' {
        without_slashes(s.drop_first())
    } else {
        s
    }
}

/// The address of an operation.
pub open spec fn url_of(operation: Seq<char>) -> Seq<char> {
    let path = text::trimmed(operation);
    if "http://"@.is_prefix_of(path) || "https://"@.is_prefix_of(path) {
        path
    } else if "assets/v1/"@.is_prefix_of(without_slashes(path)) {
        "https://apis.roblox.com/"@ + without_slashes(path)
    } else {
        "https://apis.roblox.com/assets/v1/"@ + without_slashes(path)
    }
}

/// The address of an operation, from its path.
pub fn operation_url(operation_path: &str) -> (out: String)
    ensures
        out@ == url_of(operation_path@),
{
    let path = trim_chars(&chars_of(operation_path));
    let ghost model = path@;
    if starts_with(&path, "http://") || starts_with(&path, "https://") {
        return string_of(&path);
    }
    let mut k: usize = 0;
    proof {
        assert(model.skip(0) =~= model);
    }
    while k < path.len() && path[k] == '/'
        invariant
            k <= path@.len(),
            model == path@,
            without_slashes(model.skip(k as int)) == without_slashes(model),
        decreases path@.len() - k,
    {
        proof {
            assert(model.skip(k as int).drop_first() =~= model.skip(k + 1));
        }
        k += 1;
    }
    let rest = string_of_range(&path, k, path.len());
    proof {
        assert(rest@ =~= model.skip(k as int));
        assert(without_slashes(model) == rest@);
    }
    if starts_with(&chars_of(rest.as_str()), "assets/v1/") {
        joined("https://apis.roblox.com/", rest.as_str())
    } else {
        joined("https://apis.roblox.com/assets/v1/", rest.as_str())
    }
}

/// Where the id of an asset may stand in an operation, in order.
pub open spec fn asset_id_pointer(k: int) -> Seq<char> {
    if k == 0 {
        "/response/assetId"@
    } else if k == 1 {
        "/response/asset/assetId"@
    } else if k == 2 {
        "/response/asset/id"@
    } else if k == 3 {
        "/metadata/assetId"@
    } else {
        "/assetId"@
    }
}

pub const ASSET_ID_POINTERS: usize = 5;

/// The id of the asset that an operation created: the first that is there, from
/// the `k`-th place on.
pub open spec fn asset_id_from(operation: Seq<char>, k: int) -> Option<Seq<char>>
    decreases ASSET_ID_POINTERS - k,
{
    if k < 0 || k >= ASSET_ID_POINTERS {
        None
    } else {
        let found = json::scalar_text(json::value_at(operation, asset_id_pointer(k)));
        if found is Some {
            found
        } else {
            asset_id_from(operation, k + 1)
        }
    }
}

fn pointer_at(k: usize) -> (r: &'static str)
    ensures
        r@ == asset_id_pointer(k as int),
{
    if k == 0 {
        "/response/assetId"
    } else if k == 1 {
        "/response/asset/assetId"
    } else if k == 2 {
        "/response/asset/id"
    } else if k == 3 {
        "/metadata/assetId"
    } else {
        "/assetId"
    }
}

/// The id of the asset that an operation, a JSON text, created.
pub fn extract_asset_id(operation: &str) -> (r: Option<String>)
    ensures
        text::option_text(r) == asset_id_from(operation@, 0),
{
    let mut k: usize = 0;
    while k < ASSET_ID_POINTERS
        invariant
            k <= ASSET_ID_POINTERS,
            asset_id_from(operation@, 0) == asset_id_from(operation@, k as int),
        decreases ASSET_ID_POINTERS - k,
    {
        let part = read_at(operation, pointer_at(k));
        let found = json_scalar_to_string(&part);
        if found.is_some() {
            return found;
        }
        k += 1;
    }
    None
}

/// The path of an operation.
pub open spec fn operation_path_of(operation: Seq<char>) -> Option<Seq<char>> {
    let path = json::scalar_text(json::value_at(operation, "/path"@));
    if path is Some {
        path
    } else {
        json::scalar_text(json::value_at(operation, "/name"@))
    }
}

pub fn operation_path_from(operation: &str) -> (r: Option<String>)
    ensures
        text::option_text(r) == operation_path_of(operation@),
{
    let path = read_at(operation, "/path");
    let found = json_scalar_to_string(&path);
    if found.is_some() {
        return found;
    }
    let name = read_at(operation, "/name");
    json_scalar_to_string(&name)
}

/// Whether an operation says that it is done.
pub open spec fn is_done(operation: Seq<char>) -> bool {
    json::flag_of(json::value_at(operation, "/done"@)) == Some(true)
}

pub fn initial_operation_done(operation: &str) -> (r: bool)
    ensures
        r == is_done(operation@),
{
    match flag_at(operation, "/done") {
        Some(done) => done,
        None => false,
    }
}

/// The error that an operation reports.
pub open spec fn error_of(operation: Seq<char>) -> Option<Seq<char>> {
    match json::value_at(operation, "/error"@) {
        Some(part) => if part.4 {
            None
        } else {
            Some(part.5)
        },
        None => None,
    }
}

pub fn operation_error(operation: &str) -> (r: Option<String>)
    ensures
        text::option_text(r) == error_of(operation@),
{
    match read_at(operation, "/error") {
        Some(part) => if part.is_null {
            None
        } else {
            Some(part.rendered)
        },
        None => None,
    }
}

/// What is known of an upload.
#[derive(Debug)]
pub struct UploadState {
    pub operation_path: Option<String>,
    pub asset_id: Option<String>,
    pub asset_uri: Option<String>,
    pub done: bool,
}

pub open spec fn uri_of(asset_id: Option<Seq<char>>) -> Option<Seq<char>> {
    match asset_id {
        Some(id) => Some("rbxassetid://"@ + id),
        None => None,
    }
}

fn describe(operation_path: Option<String>, operation: &str, done: bool) -> (s: UploadState)
    ensures
        s.operation_path == operation_path,
        text::option_text(s.asset_id) == asset_id_from(operation@, 0),
        text::option_text(s.asset_uri) == uri_of(asset_id_from(operation@, 0)),
        s.done == done,
{
    let asset_id = extract_asset_id(operation);
    let asset_uri = match &asset_id {
        Some(id) => Some(joined("rbxassetid://", id.as_str())),
        None => None,
    };
    UploadState { operation_path, asset_id, asset_uri, done }
}

/// What comes after a reply.
#[derive(Debug)]
pub enum UploadStep {
    Failed(String),
    Finished(UploadState),
    /// The operation at that path is asked for again.
    Poll(String),
}

/// Takes the reply to the upload.
pub fn upload_started(operation: &str, wait: bool) -> (r: UploadStep)
    ensures
        ({
            let path = operation_path_of(operation@);
            match error_of(operation@) {
                Some(error) => r matches UploadStep::Failed(said) && said@ == error,
                None => if wait && path is Some {
                    r matches UploadStep::Poll(at) && at@ == path->0
                } else {
                    r matches UploadStep::Finished(s) && {
                        &&& text::option_text(s.operation_path) == path
                        &&& text::option_text(s.asset_id) == asset_id_from(operation@, 0)
                        &&& text::option_text(s.asset_uri) == uri_of(asset_id_from(operation@, 0))
                        &&& s.done == is_done(operation@)
                    }
                },
            }
        }),
{
    if let Some(error) = operation_error(operation) {
        return UploadStep::Failed(error);
    }
    let path = operation_path_from(operation);
    let done = initial_operation_done(operation);
    if !wait {
        return UploadStep::Finished(describe(path, operation, done));
    }
    match path {
        Some(path) => UploadStep::Poll(path),
        None => UploadStep::Finished(describe(None, operation, done)),
    }
}

/// Takes the reply to a request for the operation at a path.
pub fn operation_polled(operation: &str, path: &str) -> (r: UploadStep)
    ensures
        if !is_done(operation@) {
            r matches UploadStep::Poll(at) && at@ == path@
        } else {
            match error_of(operation@) {
                Some(error) => r matches UploadStep::Failed(said) && said@ == error,
                None => r matches UploadStep::Finished(s) && {
                    &&& text::option_text(s.operation_path) == Some(path@)
                    &&& text::option_text(s.asset_id) == asset_id_from(operation@, 0)
                    &&& text::option_text(s.asset_uri) == uri_of(asset_id_from(operation@, 0))
                    &&& s.done
                },
            }
        },
{
    if !initial_operation_done(operation) {
        return UploadStep::Poll(owned(path));
    }
    match operation_error(operation) {
        Some(error) => UploadStep::Failed(error),
        None => UploadStep::Finished(describe(Some(owned(path)), operation, true)),
    }
}

/// Whether the wait for an operation is over.
pub fn upload_timed_out(elapsed: u64, timeout: u64) -> (r: bool)
    ensures
        r == (elapsed > timeout),
{
    elapsed > timeout
}

/// Why a file cannot be uploaded.
#[derive(Debug, Clone, Copy, PartialEq, Eq, Structural)]
pub enum AssetFileProblem {
    NotAFile,
    TooLarge(u64),
}

/// Checks a file to upload.
pub fn validate_file(is_file: bool, len: u64) -> (r: Result<(), AssetFileProblem>)
    ensures
        r == (if !is_file {
            Err::<(), AssetFileProblem>(AssetFileProblem::NotAFile)
        } else if len > MAX_ASSET_BYTES {
            Err(AssetFileProblem::TooLarge(len))
        } else {
            Ok(())
        }),
{
    if !is_file {
        return Err(AssetFileProblem::NotAFile);
    }
    if len > MAX_ASSET_BYTES {
        return Err(AssetFileProblem::TooLarge(len));
    }
    Ok(())
}

/// `s` without the prefixes `Bearer ` at its start.
pub open spec fn without_scheme(s: Seq<char>) -> Seq<char>
    decreases s.len(),
{
    if s.len() >= 7 && s.take(7) == "Bearer "@ {
        without_scheme(s.skip(7))
    } else {
        s
    }
}

/// The bearer token that a credential holds.
pub fn bearer_token(credential: &str) -> (out: String)
    ensures
        out@ == text::trimmed(without_scheme(credential@)),
{
    let chars = chars_of(credential);
    let len: usize = chars.len();
    let ghost model = chars@;
    let mut k: usize = 0;
    proof {
        assert(model.skip(0) =~= model);
    }
    loop
        invariant
            k <= len,
            len == chars@.len(),
            model == chars@,
            without_scheme(model.skip(k as int)) == without_scheme(model),
        ensures
            k <= len,
            without_scheme(model) == model.skip(k as int),
        decreases len - k,
    {
        if len - k < 7 {
            break;
        }
        let head = string_of_range(&chars, k, k + 7);
        proof {
            assert(head@ =~= model.skip(k as int).take(7));
            assert(model.skip(k as int).skip(7) =~= model.skip(k + 7));
        }
        if !same(head.as_str(), "Bearer ") {
            break;
        }
        k += 7;
    }
    let rest = string_of_range(&chars, k, len);
    proof {
        assert(rest@ =~= model.skip(k as int));
    }
    trim_text(rest.as_str())
}

} // verus!
