//! The classes that are kept in step between Studio and the disk.
use vstd::prelude::*;

use crate::text;
use crate::text::{same, same_ignoring_case};

verus! {

pub open spec fn is_script(class: Seq<char>) -> bool {
    class == "Script"@ || class == "LocalScript"@ || class == "ModuleScript"@
}

/// Scripts and folders.
pub open spec fn in_scope(class: Seq<char>) -> bool {
    class == "Folder"@ || is_script(class)
}

/// Classes whose subtrees Studio manages itself.
pub open spec fn is_suppressed(class: Seq<char>) -> bool {
    class == "Camera"@ || class == "Terrain"@ || class == "PlayerScripts"@ || class
        == "PackageLink"@
}

/// The services whose contents are kept in step.
pub open spec fn is_synced_service(name: Seq<char>) -> bool {
    ||| name == "ReplicatedStorage"@
    ||| name == "ServerScriptService"@
    ||| name == "StarterPlayer"@
    ||| name == "StarterGui"@
    ||| name == "Workspace"@
    ||| name == "ReplicatedFirst"@
    ||| name == "ServerStorage"@
    ||| name == "Lighting"@
}

pub fn script(class: &str) -> (r: bool)
    ensures
        r == is_script(class@),
{
    same(class, "Script") || same(class, "LocalScript") || same(class, "ModuleScript")
}

pub fn contains(class: &str) -> (r: bool)
    ensures
        r == in_scope(class@),
{
    same(class, "Folder") || script(class)
}

pub fn suppressed(class: &str) -> (r: bool)
    ensures
        r == is_suppressed(class@),
{
    same(class, "Camera") || same(class, "Terrain") || same(class, "PlayerScripts") || same(
        class,
        "PackageLink",
    )
}

pub fn synced_service(name: &str) -> (r: bool)
    ensures
        r == is_synced_service(name@),
{
    same(name, "ReplicatedStorage") || same(name, "ServerScriptService") || same(
        name,
        "StarterPlayer",
    ) || same(name, "StarterGui") || same(name, "Workspace") || same(name, "ReplicatedFirst")
        || same(name, "ServerStorage") || same(name, "Lighting")
}

/// How many services are kept in step.
pub const SYNCED_SERVICE_COUNT: usize = 8;

/// The services in the order in which they are handled.
pub open spec fn service_text(k: int) -> Option<Seq<char>> {
    if k == 0 {
        Some("ReplicatedStorage"@)
    } else if k == 1 {
        Some("ServerScriptService"@)
    } else if k == 2 {
        Some("StarterPlayer"@)
    } else if k == 3 {
        Some("StarterGui"@)
    } else if k == 4 {
        Some("Workspace"@)
    } else if k == 5 {
        Some("ReplicatedFirst"@)
    } else if k == 6 {
        Some("ServerStorage"@)
    } else if k == 7 {
        Some("Lighting"@)
    } else {
        None
    }
}

pub fn service_at(k: usize) -> (r: Option<&'static str>)
    ensures
        match r {
            Some(name) => service_text(k as int) == Some(name@),
            None => service_text(k as int) is None,
        },
        r is Some <==> k < SYNCED_SERVICE_COUNT,
{
    if k == 0 {
        Some("ReplicatedStorage")
    } else if k == 1 {
        Some("ServerScriptService")
    } else if k == 2 {
        Some("StarterPlayer")
    } else if k == 3 {
        Some("StarterGui")
    } else if k == 4 {
        Some("Workspace")
    } else if k == 5 {
        Some("ReplicatedFirst")
    } else if k == 6 {
        Some("ServerStorage")
    } else if k == 7 {
        Some("Lighting")
    } else {
        None
    }
}

/// Whether a name is that of a service but for the case of its letters.
pub open spec fn is_service_ignoring_case(name: Seq<char>) -> bool {
    exists|k: int|
        0 <= k < SYNCED_SERVICE_COUNT && text::lower((#[trigger] service_text(k))->0)
            == text::lower(name)
}

pub fn same_as_service_ignoring_case(name: &str) -> (r: bool)
    ensures
        r == is_service_ignoring_case(name@),
{
    let mut k: usize = 0;
    while k < SYNCED_SERVICE_COUNT
        invariant
            k <= SYNCED_SERVICE_COUNT,
            forall|j: int|
                0 <= j < k ==> text::lower((#[trigger] service_text(j))->0) != text::lower(name@),
        decreases SYNCED_SERVICE_COUNT - k,
    {
        if let Some(service) = service_at(k) {
            if same_ignoring_case(service, name) {
                return true;
            }
        }
        k += 1;
    }
    false
}

} // verus!
