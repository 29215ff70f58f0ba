//! Who may speak to the daemon: browser origins, the tokens of its owners, and
//! the identity that a request to close it must name.
use vstd::prelude::*;
use vstd::string::*;
use vstd::utf8::*;

use crate::compare_session;
use crate::text;
use crate::text::{
    chars_of, find_from, lower_text, owned, same, split_chars, string_of_range, trim_text,
};

verus! {

/// The scheme, the user name, whether there is a password, and the host of an
/// origin that `reqwest::Url` can read.
pub uninterp spec fn origin_parts(origin: Seq<char>) -> Option<
    (Seq<char>, Seq<char>, bool, Option<Seq<char>>),
>;

/// The parts of an origin.
#[derive(Debug)]
pub struct OriginParts {
    pub scheme: String,
    pub username: String,
    pub has_password: bool,
    pub host: Option<String>,
}

impl OriginParts {
    pub open spec fn view(&self) -> (Seq<char>, Seq<char>, bool, Option<Seq<char>>) {
        (self.scheme@, self.username@, self.has_password, text::option_text(self.host))
    }
}

/// `reqwest::Url::parse`, and `scheme`, `username`, `password` and `host_str` of
/// what it reads. The contract says only that they depend on the text alone; the
/// grammar of a URL is left unsaid.
#[verifier::external_body]
fn parse_origin(origin: &str) -> (r: Option<OriginParts>)
    ensures
        match r {
            Some(parts) => origin_parts(origin@) == Some(parts@),
            None => origin_parts(origin@) is None,
        },
{
    let url = match reqwest::Url::parse(origin) {
        Ok(url) => url,
        Err(_) => return None,
    };
    Some(
        OriginParts {
            scheme: url.scheme().to_string(),
            username: url.username().to_string(),
            has_password: url.password().is_some(),
            host: url.host_str().map(|host| host.to_string()),
        },
    )
}

/// An origin of a packaged application, in lower case.
pub open spec fn is_app_origin(s: Seq<char>) -> bool {
    ||| s == "t64://widget"@
    ||| s == "terminal64://widget"@
    ||| s == "app://localhost"@
    ||| s == "tauri://localhost"@
    ||| s == "http://tauri.localhost"@
    ||| s == "wry://localhost"@
}

/// Whether the parts of an origin are those of this machine.
pub open spec fn is_loopback(
    parts: (Seq<char>, Seq<char>, bool, Option<Seq<char>>),
) -> bool {
    &&& parts.0 == "http"@ || parts.0 == "https"@
    &&& parts.1.len() == 0
    &&& !parts.2
    &&& match parts.3 {
        Some(host) => host == "localhost"@ || host == "127.0.0.1"@ || host == "::1"@ || host
            == "[::1]"@,
        None => false,
    }
}

pub fn origin_is_loopback(parts: &OriginParts) -> (r: bool)
    ensures
        r == is_loopback(parts@),
{
    if !same(parts.scheme.as_str(), "http") && !same(parts.scheme.as_str(), "https") {
        return false;
    }
    if chars_of(parts.username.as_str()).len() > 0 || parts.has_password {
        return false;
    }
    match &parts.host {
        Some(host) => {
            let host = host.as_str();
            same(host, "localhost") || same(host, "127.0.0.1") || same(host, "::1") || same(
                host,
                "[::1]",
            )
        },
        None => false,
    }
}

/// Whether an origin belongs to the application on this machine.
pub open spec fn trusted_origin(origin: Seq<char>) -> bool {
    ||| is_app_origin(text::lower(text::trimmed(origin)))
    ||| origin_parts(text::trimmed(origin)) matches Some(parts) && is_loopback(parts)
}

/// Whether a browser's origin, where it is a text, belongs to the application.
pub fn is_trusted_local_app_origin(origin: Option<&str>) -> (r: bool)
    ensures
        r == match origin {
            Some(text) => trusted_origin(text@),
            None => false,
        },
{
    let origin = match origin {
        None => return false,
        Some(origin) => origin,
    };
    let trimmed = trim_text(origin);
    let normalized = lower_text(trimmed.as_str());
    let n = normalized.as_str();
    if same(n, "t64://widget") || same(n, "terminal64://widget") || same(n, "app://localhost")
        || same(n, "tauri://localhost") || same(n, "http://tauri.localhost") || same(
        n,
        "wry://localhost",
    ) {
        return true;
    }
    match parse_origin(trimmed.as_str()) {
        Some(parts) => origin_is_loopback(&parts),
        None => false,
    }
}

/// The key and the value of a pair of a query.
pub open spec fn query_pair(pair: Seq<char>) -> (Seq<char>, Seq<char>) {
    let k = text::first_index(pair, '=');
    if 0 <= k < pair.len() {
        (pair.take(k), pair.skip(k + 1))
    } else {
        (pair, Seq::empty())
    }
}

/// The first value of a key among the pairs from `k` on.
pub open spec fn query_value(pairs: Seq<Seq<char>>, key: Seq<char>, k: int) -> Option<Seq<char>>
    decreases pairs.len() - k,
{
    if k < 0 || k >= pairs.len() {
        None
    } else if query_pair(pairs[k]).0 == key {
        Some(query_pair(pairs[k]).1)
    } else {
        query_value(pairs, key, k + 1)
    }
}

/// The first value of a key in a query.
pub fn find_query_value(query: &str, key: &str) -> (r: Option<String>)
    ensures
        text::option_text(r) == query_value(text::split(query@, '&'), key@, 0),
{
    let chars = chars_of(query);
    let pairs = split_chars(&chars, '&');
    let ghost models = text::split(query@, '&');
    let mut k: usize = 0;
    while k < pairs.len()
        invariant
            k <= pairs@.len(),
            models == text::split(query@, '&'),
            pairs@.len() == models.len(),
            forall|i: int| 0 <= i < models.len() ==> (#[trigger] pairs@[i])@ == models[i],
            query_value(models, key@, 0) == query_value(models, key@, k as int),
        decreases pairs@.len() - k,
    {
        let pair = &pairs[k];
        let ghost model = models[k as int];
        assert(pair@ == model);
        let at = find_from(pair, 0, '=');
        proof {
            assert(model.skip(0) =~= model);
        }
        let name = string_of_range(pair, 0, at);
        proof {
            assert(model.subrange(0, at as int) =~= model.take(at as int));
            if at == model.len() {
                assert(model.take(at as int) =~= model);
            }
        }
        if same(name.as_str(), key) {
            let value = if at < pair.len() {
                let value = string_of_range(pair, at + 1, pair.len());
                proof {
                    assert(value@ =~= model.skip(at + 1));
                }
                value
            } else {
                owned("")
            };
            proof {
                reveal_strlit("");
                assert(""@ =~= Seq::<char>::empty());
                assert(value@ == query_pair(model).1);
            }
            return Some(value);
        }
        k += 1;
    }
    None
}

/// Whether a browser request comes from the widget that owns the daemon.
pub open spec fn widget_request(
    origin: Option<Seq<char>>,
    query: Option<Seq<char>>,
    widget_owned: bool,
    expected: Option<Seq<char>>,
) -> bool {
    &&& widget_owned
    &&& origin is Some
    &&& text::lower(text::trimmed(origin->0)) == "null"@ || trusted_origin(origin->0)
    &&& expected is Some
    &&& query is Some
    &&& query_value(text::split(query->0, '&'), "widgetToken"@, 0) == expected
}

/// Admits a browser request by its origin and the token in its query.
pub fn is_authorized_widget_browser_request(
    origin: Option<&str>,
    query: Option<&str>,
    widget_owned: bool,
    expected_token: Option<&str>,
) -> (r: bool)
    ensures
        r == widget_request(
            compare_session::option_str(origin),
            compare_session::option_str(query),
            widget_owned,
            compare_session::option_str(expected_token),
        ),
{
    if !widget_owned {
        return false;
    }
    let text = match origin {
        None => return false,
        Some(text) => text,
    };
    let opaque = same(lower_text(trim_text(text).as_str()).as_str(), "null");
    if !opaque && !is_trusted_local_app_origin(origin) {
        return false;
    }
    let expected = match expected_token {
        None => return false,
        Some(expected) => expected,
    };
    let query = match query {
        None => return false,
        Some(query) => query,
    };
    match find_query_value(query, "widgetToken") {
        Some(candidate) => constant_time_text_eq(candidate.as_str(), expected),
        None => false,
    }
}

/// Whether two texts are the same. The time that it takes does not depend on
/// where they differ.
pub fn constant_time_text_eq(left: &str, right: &str) -> (r: bool)
    ensures
        r == (left@ == right@),
{
    let a = left.as_bytes();
    let b = right.as_bytes();
    let ghost x = encode_utf8(left@);
    let ghost y = encode_utf8(right@);
    proof {
        if x == y {
            text::lemma_utf8_injective(left@, right@);
        }
    }
    if a.len() != b.len() {
        return false;
    }
    let len: usize = a.len();
    let mut difference: u8 = 0;
    proof {
        assert(x.take(0) =~= y.take(0));
    }
    let mut k: usize = 0;
    while k < len
        invariant
            k <= len,
            len == a@.len() && len == b@.len(),
            a@ == x && b@ == y,
            difference == 0 <==> x.take(k as int) == y.take(k as int),
        decreases len - k,
    {
        let p: u8 = a[k];
        let q: u8 = b[k];
        let next: u8 = difference | (p ^ q);
        proof {
            assert(next == 0 <==> (difference == 0 && p == q)) by (bit_vector)
                requires
                    next == difference | (p ^ q),
            ;
            assert(x.take(k + 1) =~= x.take(k as int).push(p));
            assert(y.take(k + 1) =~= y.take(k as int).push(q));
            assert(x.take(k + 1)[k as int] == p && y.take(k + 1)[k as int] == q);
            if x.take(k + 1) == y.take(k + 1) {
                assert(x.take(k as int) =~= x.take(k + 1).take(k as int));
                assert(y.take(k as int) =~= y.take(k + 1).take(k as int));
            }
        }
        difference = next;
        k += 1;
    }
    proof {
        assert(x.take(len as int) =~= x);
        assert(y.take(len as int) =~= y);
    }
    difference == 0
}

/// Why a request to control the daemon is refused.
#[derive(Debug, Clone, Copy, PartialEq, Eq, Structural)]
pub enum ControlProblem {
    /// The daemon has no such owner.
    NotOwned,
    /// The daemon was given no token.
    NoToken,
    WrongToken,
    /// The request does not name the whole identity of the daemon.
    NoIdentity,
    /// The request is meant for another daemon.
    OtherIdentity,
}

/// What is wrong with the token of an owner.
pub open spec fn token_problem(
    owned: bool,
    expected: Option<Seq<char>>,
    token: Option<Seq<char>>,
) -> Option<ControlProblem> {
    if !owned {
        Some(ControlProblem::NotOwned)
    } else if expected is None {
        Some(ControlProblem::NoToken)
    } else if token != expected {
        Some(ControlProblem::WrongToken)
    } else {
        None
    }
}

fn check_token(owned_by: bool, expected: Option<&str>, token: Option<&str>) -> (r: Result<
    (),
    ControlProblem,
>)
    ensures
        ({
            let problem = token_problem(
                owned_by,
                compare_session::option_str(expected),
                compare_session::option_str(token),
            );
            match r {
                Err(p) => problem == Some(p),
                Ok(()) => problem is None,
            }
        }),
{
    if !owned_by {
        return Err(ControlProblem::NotOwned);
    }
    match (expected, token) {
        (None, _) => Err(ControlProblem::NoToken),
        (Some(e), Some(t)) => if same(e, t) {
            Ok(())
        } else {
            Err(ControlProblem::WrongToken)
        },
        (Some(_), None) => Err(ControlProblem::WrongToken),
    }
}

/// Admits a request of the widget by its token.
pub fn authorize_widget_control(
    widget_owned: bool,
    widget_owner_token: Option<&str>,
    token: Option<&str>,
) -> (r: Result<(), ControlProblem>)
    ensures
        ({
            let problem = token_problem(
                widget_owned,
                compare_session::option_str(widget_owner_token),
                compare_session::option_str(token),
            );
            match r {
                Err(p) => problem == Some(p),
                Ok(()) => problem is None,
            }
        }),
{
    check_token(widget_owned, widget_owner_token, token)
}

/// Admits a request of the manager by its token.
pub fn authorize_manager_control(
    managed: bool,
    manager_owner_token: Option<&str>,
    token: Option<&str>,
) -> (r: Result<(), ControlProblem>)
    ensures
        ({
            let problem = token_problem(
                managed,
                compare_session::option_str(manager_owner_token),
                compare_session::option_str(token),
            );
            match r {
                Err(p) => problem == Some(p),
                Ok(()) => problem is None,
            }
        }),
{
    check_token(managed, manager_owner_token, token)
}

/// The identity of a running daemon.
#[derive(Debug)]
pub struct DaemonIdentity {
    pub boot_id: String,
    pub process_id: u32,
    pub listen_port: u16,
    pub canonical_project: String,
}

/// A request to control the daemon.
#[derive(Debug)]
pub struct WidgetControlBody {
    pub token: Option<String>,
    pub reason: Option<String>,
    pub expected_boot_id: Option<String>,
    pub expected_pid: Option<u32>,
    pub expected_port: Option<u16>,
    pub expected_canonical_project: Option<String>,
}

/// What is wrong with the identity that a request names.
pub open spec fn identity_problem(
    daemon: DaemonIdentity,
    body: WidgetControlBody,
) -> Option<ControlProblem> {
    if body.expected_boot_id is None || body.expected_pid is None || body.expected_port is None
        || body.expected_canonical_project is None {
        Some(ControlProblem::NoIdentity)
    } else if body.expected_boot_id->0@ != daemon.boot_id@ || body.expected_pid->0
        != daemon.process_id || body.expected_port->0 != daemon.listen_port
        || body.expected_canonical_project->0@ != daemon.canonical_project@ {
        Some(ControlProblem::OtherIdentity)
    } else {
        None
    }
}

/// Admits a request to close the daemon only where it names exactly this one.
pub fn authorize_destructive_identity(daemon: &DaemonIdentity, body: &WidgetControlBody) -> (r:
    Result<(), ControlProblem>)
    ensures
        match r {
            Err(p) => identity_problem(*daemon, *body) == Some(p),
            Ok(()) => identity_problem(*daemon, *body) is None,
        },
{
    match (
        &body.expected_boot_id,
        body.expected_pid,
        body.expected_port,
        &body.expected_canonical_project,
    ) {
        (Some(boot_id), Some(pid), Some(port), Some(project)) => {
            if !same(boot_id.as_str(), daemon.boot_id.as_str()) || pid != daemon.process_id || port
                != daemon.listen_port || !same(
                project.as_str(),
                daemon.canonical_project.as_str(),
            ) {
                Err(ControlProblem::OtherIdentity)
            } else {
                Ok(())
            }
        },
        _ => Err(ControlProblem::NoIdentity),
    }
}

/// The reason for closing: the one that was given, unless it is blank.
pub open spec fn reason_of(reason: Option<Seq<char>>, default: Seq<char>) -> Seq<char> {
    match reason {
        Some(text) => if text::trimmed(text).len() > 0 {
            text
        } else {
            default
        },
        None => default,
    }
}

pub fn close_reason(reason: Option<&str>, default_reason: &str) -> (out: String)
    ensures
        out@ == reason_of(compare_session::option_str(reason), default_reason@),
{
    match reason {
        Some(text) => {
            let kept = trim_text(text);
            if chars_of(kept.as_str()).len() > 0 {
                owned(text)
            } else {
                owned(default_reason)
            }
        },
        None => owned(default_reason),
    }
}

/// What becomes of a request to close the daemon.
#[derive(Debug)]
pub enum CloseReply {
    Refused(ControlProblem),
    /// The plugin is connected, so the daemon stays.
    KeptAlive(String),
    Closing(String),
}

/// The reply to the widget that asks to close the daemon: a daemon whose plugin
/// is connected stays.
pub fn widget_close(
    widget_owned: bool,
    widget_owner_token: Option<&str>,
    daemon: &DaemonIdentity,
    body: &WidgetControlBody,
    plugin_connected: bool,
) -> (r: CloseReply)
    ensures
        ({
            let token = token_problem(
                widget_owned,
                compare_session::option_str(widget_owner_token),
                text::option_text(body.token),
            );
            let reason = reason_of(text::option_text(body.reason), "widget closed"@);
            if token is Some {
                r == CloseReply::Refused(token->0)
            } else if identity_problem(*daemon, *body) is Some {
                r == CloseReply::Refused(identity_problem(*daemon, *body)->0)
            } else if plugin_connected {
                r matches CloseReply::KeptAlive(said) && said@ == reason
            } else {
                r matches CloseReply::Closing(said) && said@ == reason
            }
        }),
{
    match authorize_widget_control(widget_owned, widget_owner_token, as_str(&body.token)) {
        Err(p) => return CloseReply::Refused(p),
        Ok(()) => {},
    }
    match authorize_destructive_identity(daemon, body) {
        Err(p) => return CloseReply::Refused(p),
        Ok(()) => {},
    }
    let reason = close_reason(as_str(&body.reason), "widget closed");
    if plugin_connected {
        CloseReply::KeptAlive(reason)
    } else {
        CloseReply::Closing(reason)
    }
}

/// The reply to the manager that asks to close the daemon.
pub fn manager_close(
    managed: bool,
    manager_owner_token: Option<&str>,
    daemon: &DaemonIdentity,
    body: &WidgetControlBody,
) -> (r: CloseReply)
    ensures
        ({
            let token = token_problem(
                managed,
                compare_session::option_str(manager_owner_token),
                text::option_text(body.token),
            );
            let reason = reason_of(
                text::option_text(body.reason),
                "lifecycle manager requested shutdown"@,
            );
            if token is Some {
                r == CloseReply::Refused(token->0)
            } else if identity_problem(*daemon, *body) is Some {
                r == CloseReply::Refused(identity_problem(*daemon, *body)->0)
            } else {
                r matches CloseReply::Closing(said) && said@ == reason
            }
        }),
{
    match authorize_manager_control(managed, manager_owner_token, as_str(&body.token)) {
        Err(p) => return CloseReply::Refused(p),
        Ok(()) => {},
    }
    match authorize_destructive_identity(daemon, body) {
        Err(p) => return CloseReply::Refused(p),
        Ok(()) => {},
    }
    CloseReply::Closing(
        close_reason(as_str(&body.reason), "lifecycle manager requested shutdown"),
    )
}

/// The text in an option.
pub fn as_str(o: &Option<String>) -> (r: Option<&str>)
    ensures
        compare_session::option_str(r) == text::option_text(*o),
{
    match o {
        Some(s) => Some(s.as_str()),
        None => None,
    }
}

/// Why a project is not set up.
#[derive(Debug, Clone, Copy, PartialEq, Eq, Structural)]
pub enum ProjectInitProblem {
    /// The daemon was started without a directory for projects.
    Unavailable,
    /// The body cannot be read.
    BadRequest,
    /// The capability is missing or stale.
    Unauthorized,
}

/// Whether a request may set up a project: the daemon has a directory for
/// projects, and the body, where it can be read, gives the capability that the
/// daemon told the plugin.
pub fn project_init_inner(
    has_projects_root: bool,
    given: Option<&str>,
    capability: &str,
) -> (r: Result<(), ProjectInitProblem>)
    ensures
        r == (if !has_projects_root {
            Err::<(), ProjectInitProblem>(ProjectInitProblem::Unavailable)
        } else if given is None {
            Err(ProjectInitProblem::BadRequest)
        } else if given->0@ != capability@ {
            Err(ProjectInitProblem::Unauthorized)
        } else {
            Ok(())
        }),
{
    if !has_projects_root {
        return Err(ProjectInitProblem::Unavailable);
    }
    match given {
        None => Err(ProjectInitProblem::BadRequest),
        Some(given) => if constant_time_text_eq(given, capability) {
            Ok(())
        } else {
            Err(ProjectInitProblem::Unauthorized)
        },
    }
}

/// A daemon closes only for an owner who holds its token and names its identity.
pub proof fn law_closing_needs_token_and_identity(
    owned: bool,
    expected: Option<Seq<char>>,
    daemon: DaemonIdentity,
    body: WidgetControlBody,
)
    requires
        token_problem(owned, expected, text::option_text(body.token)) is None,
        identity_problem(daemon, body) is None,
    ensures
        owned,
        expected is Some && text::option_text(body.token) == expected,
        text::option_text(body.expected_boot_id) == Some(daemon.boot_id@),
        body.expected_pid == Some(daemon.process_id),
        body.expected_port == Some(daemon.listen_port),
        text::option_text(body.expected_canonical_project) == Some(daemon.canonical_project@),
{
}

/// No browser request is admitted without the token, wherever it comes from.
pub proof fn law_browser_needs_the_token(
    origin: Option<Seq<char>>,
    query: Option<Seq<char>>,
    widget_owned: bool,
    expected: Option<Seq<char>>,
)
    requires
        widget_request(origin, query, widget_owned, expected),
    ensures
        widget_owned && expected is Some && query is Some,
        query_value(text::split(query->0, '&'), "widgetToken"@, 0) == expected,
{
}

} // verus!
