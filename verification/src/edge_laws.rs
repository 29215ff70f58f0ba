//! What holds at the edges: who may close the daemon, how an upload is read, and
//! what may be written to disk.
use vstd::prelude::*;

use crate::access;
use crate::access::{ControlProblem, DaemonIdentity, WidgetControlBody};
use crate::artifacts;
use crate::artifacts::ReadRangeProblem;
use crate::capture;
use crate::capture::{ArtifactProblem, CaptureLimits, PhotoChunk};
use crate::capture_flow;
use crate::capture_flow::{PhotoRun, ScreenFailure};
use crate::fs_map;
use crate::fs_safety;
use crate::fs_safety::{PortableDirectoryEntry, SafeEntryKind};
use crate::img_upload;
use crate::img_upload::{CreatorModel, CreatorProblem};
use crate::json;
use crate::legacy_scan;
use crate::lifecycle;
use crate::preflight;
use crate::preflight::FragmentAssignment;
use crate::sync_scope;
use crate::text;

verus! {

/// A token is accepted exactly where the daemon is owned and the token is the one of
/// its owner.
pub proof fn law_owner_token_is_accepted(
    owned: bool,
    expected: Option<Seq<char>>,
    token: Option<Seq<char>>,
)
    ensures
        access::token_problem(owned, expected, token) is None <==> owned && expected is Some && token
            == expected,
        access::token_problem(owned, expected, token) == Some(ControlProblem::WrongToken) <==> owned
            && expected is Some && token != expected,
{
}

/// The identity of a daemon is accepted exactly where each part of it is named.
pub proof fn law_named_identity_is_accepted(daemon: DaemonIdentity, body: WidgetControlBody)
    ensures
        access::identity_problem(daemon, body) is None <==> {
            &&& text::option_text(body.expected_boot_id) == Some(daemon.boot_id@)
            &&& body.expected_pid == Some(daemon.process_id)
            &&& body.expected_port == Some(daemon.listen_port)
            &&& text::option_text(body.expected_canonical_project) == Some(
                daemon.canonical_project@,
            )
        },
{
}

/// A reason that says something is kept as it is; else the default stands.
pub proof fn law_reason_is_kept(reason: Option<Seq<char>>, default: Seq<char>)
    ensures
        reason matches Some(t) && text::trimmed(t).len() > 0 ==> access::reason_of(reason, default)
            == reason->0,
        reason is None || text::trimmed(reason->0).len() == 0 ==> access::reason_of(reason, default)
            == default,
{
}

/// An origin on this machine has no user, and a host that names the machine itself.
pub proof fn law_loopback_origins(parts: (Seq<char>, Seq<char>, bool, Option<Seq<char>>))
    ensures
        access::is_loopback(parts) ==> parts.1 == Seq::<char>::empty() && !parts.2 && parts.3
            is Some && (parts.0 == "http"@ || parts.0 == "https"@) && parts.3->0 != Seq::<
            char,
        >::empty(),
        access::is_loopback(("http"@, Seq::empty(), false, Some("localhost"@))),
        access::is_loopback(("https"@, Seq::empty(), false, Some("127.0.0.1"@))),
{
    reveal_strlit("localhost");
    reveal_strlit("127.0.0.1");
    reveal_strlit("::1");
    reveal_strlit("[::1]");
}

/// A pair of a query is split at its first equals sign.
pub proof fn law_query_pair_is_split(key: Seq<char>, value: Seq<char>)
    requires
        !key.contains('='),
    ensures
        access::query_pair(key + seq!['='] + value) == (key, value),
        access::query_pair(key) == (key, Seq::<char>::empty()),
{
    let pair = key + seq!['='] + value;
    assert forall|j: int| 0 <= j < key.len() implies #[trigger] pair[j] != '=' by {
        assert(key[j] == pair[j]);
        assert(key.contains(key[j]));
    }
    text::lemma_first_index_is(pair, '=', key.len() as int);
    assert(pair.take(key.len() as int) =~= key);
    assert(pair.skip(key.len() + 1int) =~= value);
    assert forall|j: int| 0 <= j < key.len() implies #[trigger] key[j] != '=' by {
        assert(key.contains(key[j]));
    }
    text::lemma_first_index_is(key, '=', key.len() as int);
}

/// The first pair of a query with a key gives its value.
pub proof fn law_first_value_of_a_query_counts(pairs: Seq<Seq<char>>, key: Seq<char>, from: int, i: int)
    requires
        0 <= from <= i < pairs.len(),
        access::query_pair(pairs[i]).0 == key,
        forall|j: int| from <= j < i ==> access::query_pair(#[trigger] pairs[j]).0 != key,
    ensures
        access::query_value(pairs, key, from) == Some(access::query_pair(pairs[i]).1),
    decreases i - from,
{
    if from < i {
        assert(access::query_pair(pairs[from]).0 != key);
        law_first_value_of_a_query_counts(pairs, key, from + 1, i);
    }
}

/// A key that no pair of a query has is not found.
pub proof fn law_missing_key_is_not_found(pairs: Seq<Seq<char>>, key: Seq<char>, from: int)
    requires
        0 <= from,
        forall|j: int| from <= j < pairs.len() ==> access::query_pair(#[trigger] pairs[j]).0 != key,
    ensures
        access::query_value(pairs, key, from) is None,
    decreases pairs.len() - from,
{
    if from < pairs.len() {
        assert(access::query_pair(pairs[from]).0 != key);
        law_missing_key_is_not_found(pairs, key, from + 1);
    }
}

/// A creator is written as its kind, a colon and its number; the kind says whether it
/// is a user or a group.
pub proof fn law_creator_is_read(kind: Seq<char>, id: Seq<char>)
    requires
        !kind.contains(':'),
    ensures
        ({
            let word = text::lower(text::trimmed(kind));
            let number = text::trimmed(id);
            let good = number.len() > 0 && crate::decimal::all_digits(number);
            let r = img_upload::creator_of(kind + seq![':'] + id);
            &&& !good ==> r == Err::<CreatorModel, CreatorProblem>(CreatorProblem::Id)
            &&& good && (word == "user"@ || word == "u"@) ==> r == Ok::<
                CreatorModel,
                CreatorProblem,
            >(CreatorModel::User(number))
            &&& good && (word == "group"@ || word == "g"@) ==> r == Ok::<
                CreatorModel,
                CreatorProblem,
            >(CreatorModel::Group(number))
            &&& good && word != "user"@ && word != "u"@ && word != "group"@ && word != "g"@ ==> r
                == Err::<CreatorModel, CreatorProblem>(CreatorProblem::Kind)
        }),
        img_upload::creator_of(kind) == Err::<CreatorModel, CreatorProblem>(CreatorProblem::Form),
{
    let input = kind + seq![':'] + id;
    assert forall|j: int| 0 <= j < kind.len() implies #[trigger] input[j] != ':' by {
        assert(kind[j] == input[j]);
        assert(kind.contains(kind[j]));
    }
    text::lemma_first_index_is(input, ':', kind.len() as int);
    assert(input.take(kind.len() as int) =~= kind);
    assert(input.skip(kind.len() + 1int) =~= id);
    assert forall|j: int| 0 <= j < kind.len() implies #[trigger] kind[j] != ':' by {
        assert(kind.contains(kind[j]));
    }
    text::lemma_first_index_is(kind, ':', kind.len() as int);
    reveal_strlit("user");
    reveal_strlit("u");
    reveal_strlit("group");
    reveal_strlit("g");
    assert("user"@.len() == 4 && "group"@.len() == 5 && "u"@.len() == 1 && "g"@.len() == 1);
    assert("u"@[0] == 'u' && "g"@[0] == 'g');
}

proof fn lemma_last_dot(s: Seq<char>, n: int, k: int)
    requires
        0 <= k < n <= s.len(),
        s[k] == '.',
        forall|j: int| k < j < n ==> #[trigger] s[j] != '.',
    ensures
        img_upload::last_dot(s, n) == Some(k),
    decreases n,
{
    if k < n - 1 {
        assert(s[n - 1] != '.');
        lemma_last_dot(s, n - 1, k);
    }
}

/// The stem of a file name is what comes before its last dot; a name that has only a
/// leading dot is all stem.
pub proof fn law_file_stem_ends_at_the_last_dot(stem: Seq<char>, ext: Seq<char>)
    requires
        !ext.contains('.'),
    ensures
        stem.len() > 0 ==> img_upload::file_stem(stem + seq!['.'] + ext) == stem,
        img_upload::file_stem(seq!['.'] + ext) == seq!['.'] + ext,
{
    let name = stem + seq!['.'] + ext;
    assert forall|j: int| stem.len() < j < name.len() implies #[trigger] name[j] != '.' by {
        assert(ext.contains(ext[j - stem.len() - 1]));
    }
    lemma_last_dot(name, name.len() as int, stem.len() as int);
    assert(name.take(stem.len() as int) =~= stem);
    let hidden = seq!['.'] + ext;
    assert forall|j: int| 0 < j < hidden.len() implies #[trigger] hidden[j] != '.' by {
        assert(ext.contains(ext[j - 1]));
    }
    lemma_last_dot(hidden, hidden.len() as int, 0);
}

/// An asset without a usable file name is given a name of its own.
pub proof fn law_assets_have_a_name(name: Option<Seq<char>>)
    ensures
        img_upload::display_name_of(name).len() > 0,
        name matches Some(n) && text::trimmed(img_upload::file_stem(n)).len() > 0
            ==> img_upload::display_name_of(name) == text::trimmed(
            img_upload::file_stem(name->0),
        ),
{
    reveal_strlit("Ro Sync Asset");
}

/// The first place of an operation with an asset id gives it.
pub proof fn law_first_asset_id_counts(operation: Seq<char>, k: int)
    requires
        0 <= k < 5,
        json::scalar_text(json::value_at(operation, img_upload::asset_id_pointer(k))) is Some,
        forall|j: int|
            0 <= j < k ==> json::scalar_text(
                json::value_at(operation, #[trigger] img_upload::asset_id_pointer(j)),
            ) is None,
    ensures
        img_upload::asset_id_from(operation, 0) == json::scalar_text(
            json::value_at(operation, img_upload::asset_id_pointer(k)),
        ),
{
    lemma_asset_id(operation, k, 0);
}

proof fn lemma_asset_id(operation: Seq<char>, k: int, from: int)
    requires
        0 <= from <= k < 5,
        json::scalar_text(json::value_at(operation, img_upload::asset_id_pointer(k))) is Some,
        forall|j: int|
            from <= j < k ==> json::scalar_text(
                json::value_at(operation, #[trigger] img_upload::asset_id_pointer(j)),
            ) is None,
    ensures
        img_upload::asset_id_from(operation, from) == json::scalar_text(
            json::value_at(operation, img_upload::asset_id_pointer(k)),
        ),
    decreases k - from,
{
    if from < k {
        assert(json::scalar_text(
            json::value_at(operation, img_upload::asset_id_pointer(from)),
        ) is None);
        lemma_asset_id(operation, k, from + 1);
    }
}

/// An asset is addressed by its id.
pub proof fn law_asset_address_ends_in_its_id(id: Seq<char>)
    ensures
        img_upload::uri_of(Some(id)) == Some("rbxassetid://"@ + id),
        img_upload::uri_of(None) is None,
{
}

/// An operation that is given by its place is asked for below the service; slashes in
/// front make no difference.
pub proof fn law_operation_place_is_completed(rest: Seq<char>)
    ensures
        img_upload::without_slashes(seq!['/'] + rest) == img_upload::without_slashes(rest),
        rest.len() > 0 && rest[0] != '/' ==> img_upload::without_slashes(rest) == rest,
{
    assert((seq!['/'] + rest).drop_first() =~= rest);
}

/// The word `Bearer` in front of a credential makes no difference.
pub proof fn law_bearer_word_is_dropped(token: Seq<char>)
    ensures
        img_upload::without_scheme("Bearer "@ + token) == img_upload::without_scheme(token),
        !"Bearer "@.is_prefix_of(token) ==> img_upload::without_scheme(token) == token,
{
    reveal_strlit("Bearer ");
    let all = "Bearer "@ + token;
    assert("Bearer "@.len() == 7);
    assert(all.take(7) =~= "Bearer "@);
    assert(all.skip(7) =~= token);
    if token.len() >= 7 && token.take(7) == "Bearer "@ {
        assert(token.subrange(0, 7) =~= token.take(7));
        assert("Bearer "@.is_prefix_of(token));
    }
}

/// A chunk of an artifact is taken exactly where its text is not too long, can be
/// read, and stands for no more bytes than a chunk may hold; it is taken as it is.
pub proof fn law_artifact_chunk_is_taken(encoded: int, decoded: Option<Seq<u8>>)
    ensures
        artifacts::chunk_bytes(encoded, decoded) is Ok <==> encoded <= 699_052 && decoded is Some
            && decoded->0.len() <= 524_288,
        artifacts::chunk_bytes(encoded, decoded) is Ok ==> Some(
            artifacts::chunk_bytes(encoded, decoded)->Ok_0,
        ) == decoded,
{
}

/// A part of an artifact begins where it is asked for, holds as much as is asked for
/// or is left, and says where the next one begins.
pub proof fn law_artifact_part_is_read(offset: u64, asked: Option<u64>, size: u64)
    ensures
        ({
            let want: u64 = match asked {
                Some(n) => n,
                None => 524_288,
            };
            match artifacts::read_range(offset, asked, size) {
                Err(ReadRangeProblem::Offset) => offset >= size,
                Err(ReadRangeProblem::MaxBytes) => offset < size && !(1 <= want <= 524_288),
                Ok(r) => {
                    &&& offset < size && 1 <= want <= 524_288
                    &&& 0 < r.count <= want && offset + r.count <= size
                    &&& r.count == want || offset + r.count == size
                    &&& r.next_offset == offset + r.count
                    &&& r.eof <==> r.next_offset == size
                },
            }
        }),
{
}

/// Which failures of an artifact may be tried again.
pub proof fn law_only_passing_failures_are_retried(kind: artifacts::ArtifactErrorKind)
    ensures
        artifacts::error_code(kind).1 <==> kind is LeaseExpired || kind is OffsetMismatch || kind
            is PendingLeaseLimitExceeded || kind is Io || kind is LockPoisoned,
{
}

/// A directory may be written exactly where each name in it may, no two of them differ
/// in case only, and each script with children has a name for its init file.
pub proof fn law_directory_may_be_written(s: Seq<FragmentAssignment>, from: int)
    requires
        0 <= from,
    ensures
        preflight::directory_problem(s, from) is None <==> forall|k: int|
            from <= k < s.len() ==> #[trigger] may_be_written(s, k),
    decreases s.len() - from,
{
    if from < s.len() {
        law_directory_may_be_written(s, from + 1);
        assert(preflight::assignment_problem(s, from) is None <==> may_be_written(s, from));
    }
}

/// Whether the `k`-th name of a directory may be written beside those before it.
pub open spec fn may_be_written(s: Seq<FragmentAssignment>, k: int) -> bool {
    let a = s[k];
    let class = fs_map::ScriptClass::of_class(a.class@);
    &&& fs_map::component_problem(a.fragment@) is None
    &&& forall|j: int|
        0 <= j < k ==> text::lower((#[trigger] s[j]).fragment@) != text::lower(a.fragment@)
    &&& a.materializes && a.has_children && class is Some ==> a.name is Some
        && fs_map::component_problem(fs_map::init_file_name(a.name->0@, class->0)) is None
}

/// A service may be written exactly where each of its directories may.
pub proof fn law_service_may_be_written(groups: Seq<Vec<FragmentAssignment>>, from: int)
    requires
        0 <= from,
    ensures
        preflight::service_problem(groups, from) is None <==> forall|k: int|
            from <= k < groups.len() ==> preflight::directory_problem(
                (#[trigger] groups[k])@,
                0,
            ) is None,
    decreases groups.len() - from,
{
    if from < groups.len() {
        law_service_may_be_written(groups, from + 1);
    }
}

/// Of the entries that are looked at, those that are no directories are the files.
pub proof fn law_files_are_looked_at(entries: Seq<PortableDirectoryEntry>, n: int, i: int)
    requires
        0 <= i < n <= entries.len(),
        n <= usize::MAX,
    ensures
        legacy_scan::file_places(entries, n).contains(i as usize) <==> entries[i].kind
            != SafeEntryKind::Directory,
        forall|a: int|
            0 <= a < legacy_scan::file_places(entries, n).len()
                ==> #[trigger] legacy_scan::file_places(entries, n)[a] < n,
    decreases n,
{
    let before = legacy_scan::file_places(entries, n - 1);
    let all = legacy_scan::file_places(entries, n);
    if n > 1 {
        law_files_are_looked_at(entries, n - 1, if i < n - 1 {
            i
        } else {
            0
        });
    }
    if before.contains(i as usize) {
        let q = choose|q: int| 0 <= q < before.len() && before[q] == i as usize;
        assert(all[q] == i as usize);
        assert(before[q] < n - 1);
    }
    if entries[n - 1].kind != SafeEntryKind::Directory {
        assert(all[before.len() as int] == n - 1);
        if all.contains(i as usize) && i < n - 1 {
            let q = choose|q: int| 0 <= q < all.len() && all[q] == i as usize;
            assert(before[q] == i as usize);
        }
    }
}

/// Every directory that is looked at is gone into.
pub proof fn law_directories_are_gone_into(
    parent: Seq<char>,
    entries: Seq<PortableDirectoryEntry>,
    n: int,
    p: Seq<char>,
)
    requires
        0 <= n <= entries.len(),
    ensures
        legacy_scan::directories(parent, entries, n).contains(p) <==> exists|i: int|
            0 <= i < n && (#[trigger] entries[i]).kind == SafeEntryKind::Directory
                && fs_safety::below(parent, entries[i].fragment@) == p,
    decreases n,
{
    if n > 0 {
        law_directories_are_gone_into(parent, entries, n - 1, p);
        let before = legacy_scan::directories(parent, entries, n - 1);
        let all = legacy_scan::directories(parent, entries, n);
        if entries[n - 1].kind == SafeEntryKind::Directory {
            let x = fs_safety::below(parent, entries[n - 1].fragment@);
            assert(all[before.len() as int] == x);
            if before.contains(p) {
                let q = choose|q: int| 0 <= q < before.len() && before[q] == p;
                assert(all[q] == p);
            }
            if all.contains(p) && p != x {
                let q = choose|q: int| 0 <= q < all.len() && all[q] == p;
                assert(before[q] == p);
            }
        }
    }
}

/// A name inside a directory comes behind it and exactly one slash.
pub proof fn law_name_is_put_inside(directory: Seq<char>, name: Seq<char>)
    ensures
        directory.len() > 0 && directory.last() != '/' ==> lifecycle::inside(directory, name)
            == directory + seq!['/'] + name,
        lifecycle::inside(directory + seq!['/'], name) == directory + seq!['/'] + name,
        lifecycle::inside(Seq::empty(), name) == name,
{
    reveal_strlit("/");
    assert("/"@ =~= seq!['/']);
    assert((directory + seq!['/']).last() == '/');
    assert(Seq::<char>::empty() + name =~= name);
}

/// What is given outright decides where state is kept, before any other setting.
pub proof fn law_given_state_place_decides(env: lifecycle::StateEnvironment, given: lifecycle::GivenPath)
    requires
        given.absolute,
        given.text@.len() > 0,
        env.explicit == Some(given) || (env.explicit is None && env.configured == Some(given)),
    ensures
        lifecycle::state_place(env) == Ok::<Seq<char>, lifecycle::StateDirProblem>(given.text@),
{
}

/// A place that is not absolute is one in the current directory.
pub proof fn law_relative_place_is_in_the_current_directory(given: lifecycle::GivenPath, current: Seq<char>)
    requires
        !given.absolute,
    ensures
        lifecycle::absolute(given, Some(current)) == Ok::<Seq<char>, lifecycle::StateDirProblem>(
            lifecycle::inside(current, given.text@),
        ),
        lifecycle::absolute(given, None) is Err,
{
}

/// A store of secrets is read exactly where it is not too large and no other user has
/// any right to it.
pub proof fn law_secrets_are_private(len: int, mode: u32)
    ensures
        lifecycle::secret_file_problem(len, Some(mode)) is None <==> len <= 4_194_304 && mode % 64
            == 0,
        lifecycle::secret_file_problem(len, None) is None <==> len <= 4_194_304,
{
    assert((mode & 0x3f) == mode % 64) by (bit_vector);
}

/// The services are told apart by their places, and are those that are synced.
pub proof fn law_services_have_places(i: int, j: int)
    requires
        0 <= i < 8,
        0 <= j < 8,
    ensures
        sync_scope::service_text(i) is Some,
        sync_scope::is_synced_service(sync_scope::service_text(i)->0),
        sync_scope::service_text(i) == sync_scope::service_text(j) ==> i == j,
{
    reveal_strlit("ReplicatedStorage");
    reveal_strlit("ServerScriptService");
    reveal_strlit("StarterPlayer");
    reveal_strlit("StarterGui");
    reveal_strlit("Workspace");
    reveal_strlit("ReplicatedFirst");
    reveal_strlit("ServerStorage");
    reveal_strlit("Lighting");
    assert("ReplicatedStorage"@.len() == 17 && "ServerScriptService"@.len() == 19
        && "StarterPlayer"@.len() == 13 && "StarterGui"@.len() == 10 && "Workspace"@.len() == 9
        && "ReplicatedFirst"@.len() == 15 && "ServerStorage"@.len() == 13 && "Lighting"@.len() == 8);
    assert("StarterPlayer"@[1] == 't' && "ServerStorage"@[1] == 'e');
}

/// Every synced service has a place.
pub proof fn law_every_synced_service_has_a_place(name: Seq<char>) -> (k: int)
    requires
        sync_scope::is_synced_service(name),
    ensures
        0 <= k < 8,
        sync_scope::service_text(k) == Some(name),
{
    if name == "ReplicatedStorage"@ {
        0
    } else if name == "ServerScriptService"@ {
        1
    } else if name == "StarterPlayer"@ {
        2
    } else if name == "StarterGui"@ {
        3
    } else if name == "Workspace"@ {
        4
    } else if name == "ReplicatedFirst"@ {
        5
    } else if name == "ServerStorage"@ {
        6
    } else {
        7
    }
}

/// An origin is trusted exactly where it is one of the app's own, whatever its case,
/// or one on this machine.
pub proof fn law_trusted_origins(origin: Seq<char>)
    ensures
        ({
            let said = text::lower(text::trimmed(origin));
            let own = said == "t64://widget"@ || said == "terminal64://widget"@ || said
                == "app://localhost"@ || said == "tauri://localhost"@ || said
                == "http://tauri.localhost"@ || said == "wry://localhost"@;
            let parts = access::origin_parts(text::trimmed(origin));
            access::trusted_origin(origin) <==> own || (parts is Some && access::is_loopback(
                parts->0,
            ))
        }),
{
}

/// The id of an artifact is 48 hexadecimal digits, and is taken as it is.
pub proof fn law_artifact_ids_are_hexadecimal(id: Option<Seq<char>>)
    ensures
        match capture::named_id(id) {
            Ok(named) => id == Some(named) && named.len() == 48 && crate::hex::all_hex(named),
            Err(p) => if id is None {
                p == ArtifactProblem::NoId
            } else {
                p == ArtifactProblem::BadId && !(id->0.len() == 48 && crate::hex::all_hex(id->0))
            },
        },
{
}

/// An export is accepted exactly where it names the artifact that was asked for.
pub proof fn law_export_names_its_artifact(said: Seq<char>, lease: Seq<char>)
    ensures
        ({
            let id = json::text_of(json::value_at(said, "/id"@));
            &&& capture_flow::export_problem(said, lease) is None <==> id == Some(lease)
                && lease.len() == 48 && crate::hex::all_hex(lease)
            &&& id is Some && id->0 != lease && capture::is_artifact_id(id->0)
                ==> capture_flow::export_problem(said, lease) == Some(ScreenFailure::OtherLease)
        }),
{
}

/// A prepared capture is accepted exactly where its size is and it has bytes, no more
/// than may be.
pub proof fn law_prepared_capture_is_bounded(width: u32, height: u32, bytes: u64, limits: CaptureLimits)
    ensures
        capture_flow::prepared_failure(width, height, bytes, limits) is None
            <==> capture::capture_size_problem(width, height, limits) is None && 0 < bytes
            <= limits.max_bytes,
{
}

/// A chunk that fits is added behind the pixels that are there; one that does not
/// leaves them as they are.
pub proof fn law_fitting_chunk_is_added(run: PhotoRun, chunk: PhotoChunk)
    requires
        run.pixels is Some,
    ensures
        ({
            let before = run.pixels->0.rgba@;
            let bytes = artifacts::standard_bytes(chunk.bytes_base64@);
            let fits = capture::chunk_problem(
                chunk.offset,
                chunk.next_offset,
                chunk.eof,
                bytes,
                before.len() as int,
                run.pixels->0.expected as int,
            ) is None;
            let after = run.pixels_after(chunk);
            &&& !fits ==> after == before
            &&& fits && bytes is Some ==> after.len() == before.len() + bytes->0.len()
                && after.take(before.len() as int) == before && after.skip(before.len() as int)
                == bytes->0
        }),
{
    let before = run.pixels->0.rgba@;
    let bytes = artifacts::standard_bytes(chunk.bytes_base64@);
    if bytes is Some {
        let all = before + bytes->0;
        assert(all.take(before.len() as int) =~= before);
        assert(all.skip(before.len() as int) =~= bytes->0);
    }
}

/// An operation is over exactly where it says so, and has failed where it brings an
/// error that is not null.
pub proof fn law_operation_says_how_it_went(operation: Seq<char>)
    ensures
        img_upload::is_done(operation) <==> json::flag_of(json::value_at(operation, "/done"@))
            == Some(true),
        json::value_at(operation, "/error"@) is None ==> img_upload::error_of(operation) is None,
        json::scalar_text(json::value_at(operation, "/path"@)) is Some
            ==> img_upload::operation_path_of(operation) == json::scalar_text(
            json::value_at(operation, "/path"@),
        ),
{
}

} // verus!
