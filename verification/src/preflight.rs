//! The file names that a streamed service will be given, before any is made.
use vstd::prelude::*;

use crate::fs_map;
use crate::fs_map::{find_component_problem, portable_init_file_name, ComponentProblem, ScriptClass};
use crate::text;
use crate::text::lower_text;
use crate::text_map::TextMap;

verus! {

/// A file name that is assigned to a child.
#[derive(Debug)]
pub struct FragmentAssignment {
    pub fragment: String,
    /// The child itself is written under the name.
    pub materializes: bool,
    pub class: String,
    pub has_children: bool,
    pub name: Option<String>,
}

/// Why a streamed service cannot be written.
#[derive(Debug, Clone, Copy, PartialEq, Eq, Structural)]
pub enum PreflightProblem {
    /// The file name at this place is not portable.
    Component { at: usize, problem: ComponentProblem },
    /// The file name at this place collapses with an earlier one.
    Collapsed(usize),
    /// The script at this place has no name.
    Nameless(usize),
}

/// The class of a script that is written as a directory with a marker.
pub open spec fn marker_class(a: FragmentAssignment) -> Option<ScriptClass> {
    if a.materializes && a.has_children {
        ScriptClass::of_class(a.class@)
    } else {
        None
    }
}

/// What is wrong with the assignment at `k` of one directory.
pub open spec fn assignment_problem(s: Seq<FragmentAssignment>, k: int) -> Option<PreflightProblem> {
    let a = s[k];
    if fs_map::component_problem(a.fragment@) is Some {
        Some(
            PreflightProblem::Component {
                at: k as usize,
                problem: fs_map::component_problem(a.fragment@)->0,
            },
        )
    } else if exists|j: int|
        0 <= j < k && text::lower((#[trigger] s[j]).fragment@) == text::lower(a.fragment@) {
        Some(PreflightProblem::Collapsed(k as usize))
    } else {
        match marker_class(a) {
            None => None,
            Some(class) => match a.name {
                None => Some(PreflightProblem::Nameless(k as usize)),
                Some(name) => match fs_map::component_problem(
                    fs_map::init_file_name(name@, class),
                ) {
                    Some(problem) => Some(
                        PreflightProblem::Component { at: k as usize, problem },
                    ),
                    None => None,
                },
            },
        }
    }
}

/// The first thing wrong with the assignments of one directory from `k` on.
pub open spec fn directory_problem(s: Seq<FragmentAssignment>, k: int) -> Option<PreflightProblem>
    decreases s.len() - k,
{
    if k < 0 || k >= s.len() {
        None
    } else {
        match assignment_problem(s, k) {
            Some(p) => Some(p),
            None => directory_problem(s, k + 1),
        }
    }
}

/// Checks the assignments of one directory.
pub fn preflight_directory(assignments: &Vec<FragmentAssignment>) -> (r: Result<
    (),
    PreflightProblem,
>)
    ensures
        match r {
            Err(p) => directory_problem(assignments@, 0) == Some(p),
            Ok(()) => directory_problem(assignments@, 0) is None,
        },
{
    let ghost s = assignments@;
    let mut folded: TextMap<usize> = TextMap::new();
    let mut k: usize = 0;
    while k < assignments.len()
        invariant
            s == assignments@,
            k <= s.len(),
            folded.wf(),
            forall|key: Seq<char>| #[trigger]
                folded@.contains_key(key) <==> exists|j: int|
                    0 <= j < k && text::lower((#[trigger] s[j]).fragment@) == key,
            directory_problem(s, 0) == directory_problem(s, k as int),
        decreases s.len() - k,
    {
        let a = &assignments[k];
        if let Some(problem) = find_component_problem(a.fragment.as_str()) {
            return Err(PreflightProblem::Component { at: k, problem });
        }
        let key = lower_text(a.fragment.as_str());
        if folded.contains(key.as_str()) {
            return Err(PreflightProblem::Collapsed(k));
        }
        let ghost before = folded@;
        let ghost name = key@;
        folded.insert(key, k);
        proof {
            assert forall|key: Seq<char>| #[trigger] folded@.contains_key(key) <==> exists|j: int|
                0 <= j < k + 1 && text::lower((#[trigger] s[j]).fragment@) == key by {
                if folded@.contains_key(key) {
                    if key == name {
                        assert(text::lower(s[k as int].fragment@) == key);
                    } else {
                        assert(before.contains_key(key));
                        let j = choose|j: int|
                            0 <= j < k && text::lower((#[trigger] s[j]).fragment@) == key;
                        assert(text::lower(s[j].fragment@) == key);
                    }
                }
                if exists|j: int|
                    0 <= j < k + 1 && text::lower((#[trigger] s[j]).fragment@) == key {
                    let j = choose|j: int|
                        0 <= j < k + 1 && text::lower((#[trigger] s[j]).fragment@) == key;
                    if j < k {
                        assert(before.contains_key(key));
                    }
                }
            }
        }
        if a.materializes && a.has_children {
            if let Some(class) = ScriptClass::from_class(a.class.as_str()) {
                match &a.name {
                    None => return Err(PreflightProblem::Nameless(k)),
                    Some(name) => {
                        let marker = portable_init_file_name(name.as_str(), class);
                        if let Some(problem) = find_component_problem(marker.as_str()) {
                            return Err(PreflightProblem::Component { at: k, problem });
                        }
                    },
                }
            }
        }
        k += 1;
    }
    Ok(())
}

/// What is wrong with the directories of a service from `k` on.
pub open spec fn service_problem(groups: Seq<Vec<FragmentAssignment>>, k: int) -> Option<
    (int, PreflightProblem),
>
    decreases groups.len() - k,
{
    if k < 0 || k >= groups.len() {
        None
    } else {
        match directory_problem(groups[k]@, 0) {
            Some(p) => Some((k, p)),
            None => service_problem(groups, k + 1),
        }
    }
}

/// Checks the assignments of all directories of a service, in the order in
/// which they are visited; says which directory is at fault.
pub fn preflight_streamed_service_fragments(groups: &Vec<Vec<FragmentAssignment>>) -> (r: Result<
    (),
    (usize, PreflightProblem),
>)
    ensures
        match r {
            Err((k, p)) => service_problem(groups@, 0) == Some((k as int, p)),
            Ok(()) => service_problem(groups@, 0) is None,
        },
{
    let mut k: usize = 0;
    while k < groups.len()
        invariant
            k <= groups@.len(),
            service_problem(groups@, 0) == service_problem(groups@, k as int),
        decreases groups@.len() - k,
    {
        if let Err(p) = preflight_directory(&groups[k]) {
            return Err((k, p));
        }
        k += 1;
    }
    Ok(())
}

/// Names that pass stay apart on file systems that fold case.
pub proof fn law_checked_names_stay_apart(s: Seq<FragmentAssignment>, i: int, j: int)
    requires
        directory_problem(s, 0) is None,
        0 <= i < j < s.len(),
    ensures
        text::lower(s[i].fragment@) != text::lower(s[j].fragment@),
        fs_map::component_problem(s[j].fragment@) is None,
{
    lemma_directory_from(s, 0, j);
    if text::lower(s[i].fragment@) == text::lower(s[j].fragment@) {
        assert(text::lower(s[i].fragment@) == text::lower(s[j].fragment@));
    }
}

proof fn lemma_directory_from(s: Seq<FragmentAssignment>, k: int, j: int)
    requires
        directory_problem(s, k) is None,
        0 <= k <= j < s.len(),
    ensures
        assignment_problem(s, j) is None,
    decreases j - k,
{
    if k < j {
        lemma_directory_from(s, k + 1, j);
    }
}

} // verus!
