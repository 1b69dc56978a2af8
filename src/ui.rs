//! Routing of the human-facing status pages.

use std::sync::Arc;

use vstd::prelude::*;

use crate::session::ServeSession;

verus! {

/// The status page a request asks for.
#[derive(Clone, Copy, Debug, PartialEq, Eq, Structural)]
pub enum UiRoute {
    Home,
    Logo,
    Icon,
    ShowInstances,
    ShowImfs,
    NotFound,
}

/// The page for a request with the given method and path.
pub open spec fn route_of(is_get: bool, path: Seq<char>) -> UiRoute {
    if !is_get {
        UiRoute::NotFound
    } else if path == "/"@ {
        UiRoute::Home
    } else if path == "/logo.png"@ {
        UiRoute::Logo
    } else if path == "/icon.png"@ {
        UiRoute::Icon
    } else if path == "/show-instances"@ {
        UiRoute::ShowInstances
    } else if path == "/show-imfs"@ {
        UiRoute::ShowImfs
    } else {
        UiRoute::NotFound
    }
}

fn same_text(a: &str, b: &str) -> (r: bool)
    ensures
        r == (a@ == b@),
{
    a.to_owned() == b.to_owned()
}

/// The text humantime gives for a duration of `secs` whole seconds.
pub uninterp spec fn format_duration_of(secs: u64) -> Seq<char>;

/// Relies on humantime::format_duration: its text depends on the duration
/// alone, and a zero duration reads "0s".
#[verifier::external_body]
fn format_uptime(secs: u64) -> (r: String)
    ensures
        r@ == format_duration_of(secs),
        secs == 0 ==> r@ == "0s"@,
{
    humantime::format_duration(std::time::Duration::from_secs(secs)).to_string()
}

/// The name shown for the project: its own, or a placeholder.
pub fn project_label(name: &Option<String>) -> (r: String)
    ensures
        r@ == match name {
            Some(n) => n@,
            None => "<unnamed>"@,
        },
{
    match name {
        Some(n) => n.clone(),
        None => "<unnamed>".to_owned(),
    }
}

/// An elapsed time cut down to whole seconds.
pub fn uptime_secs(secs: u64, subsec_nanos: u32) -> (r: u64)
    ensures
        r == secs,
{
    secs
}

/// The uptime as shown on the status page, to the whole second.
pub fn uptime_text(secs: u64, subsec_nanos: u32) -> (r: String)
    ensures
        r@ == format_duration_of(secs),
{
    format_uptime(uptime_secs(secs, subsec_nanos))
}

/// Serves status pages about one session.
pub struct UiService {
    pub serve_session: Arc<ServeSession>,
}

impl UiService {
    pub fn new(serve_session: Arc<ServeSession>) -> (r: UiService)
        ensures
            r.serve_session == serve_session,
    {
        UiService { serve_session }
    }

    /// Picks the page for a request.
    pub fn route(is_get: bool, path: &str) -> (r: UiRoute)
        ensures
            r == route_of(is_get, path@),
    {
        if !is_get {
            UiRoute::NotFound
        } else if same_text(path, "/") {
            UiRoute::Home
        } else if same_text(path, "/logo.png") {
            UiRoute::Logo
        } else if same_text(path, "/icon.png") {
            UiRoute::Icon
        } else if same_text(path, "/show-instances") {
            UiRoute::ShowInstances
        } else if same_text(path, "/show-imfs") {
            UiRoute::ShowImfs
        } else {
            UiRoute::NotFound
        }
    }
}

} // verus!
