//! The in-memory project service: creates projects with fresh ids and
//! trimmed, non-blank names; and the stable id a project created by name
//! over MCP receives.

use vstd::prelude::*;
use crate::core_types::ProjectId;
use crate::text::{trim, trimmed};
use vstd::string::StringSliceAdditionalSpecFns;

verus! {

/// Summary of a project as reported by the service.
#[derive(Debug, Clone, PartialEq, Eq)]
pub struct ProjectInfo {
    /// Stable identifier for the project.
    pub id: ProjectId,
    /// Human-readable project name.
    pub name: String,
}

/// Errors returned by [`ProjectService`].
#[derive(Debug, Clone, Copy, PartialEq, Eq, Structural)]
pub enum ProjectError {
    /// The provided project name was empty or whitespace-only.
    EmptyName,
}

impl ProjectError {
    /// Human-readable description.
    pub fn message(&self) -> (r: &'static str)
        ensures
            r@ == "project name must not be empty"@,
    {
        "project name must not be empty"
    }
}

/// Entry point for project operations; issues ids in creation order.
#[derive(Debug)]
pub struct ProjectService {
    next_id: u64,
}

impl ProjectService {
    /// The id the next created project receives.
    pub closed spec fn next(&self) -> u64 {
        self.next_id
    }

    /// Creates a new, empty service.
    pub fn new() -> (r: ProjectService)
        ensures
            r.next() == 0,
    {
        ProjectService { next_id: 0 }
    }

    /// Creates a project named by `name` with surrounding whitespace
    /// trimmed. A blank name is refused and changes nothing; otherwise the
    /// project gets the next id, and every later project a larger one.
    pub fn create_project(&mut self, name: &str) -> (r: Result<ProjectInfo, ProjectError>)
        requires
            old(self).next() < u64::MAX,
        ensures
            trim(name@).len() == 0 ==> r == Err::<ProjectInfo, ProjectError>(ProjectError::EmptyName)
                && final(self).next() == old(self).next(),
            trim(name@).len() > 0 ==> (r matches Ok(info) && info.id.0 == old(self).next() && info.name@
                == trim(name@) && final(self).next() == old(self).next() + 1),
    {
        let t = trimmed(name);
        if t.as_str().unicode_len() == 0 {
            return Err(ProjectError::EmptyName);
        }
        let id = ProjectId(self.next_id);
        self.next_id = self.next_id + 1;
        Ok(ProjectInfo { id, name: t })
    }
}

/// FNV-1a offset basis.
pub const FNV_OFFSET: u64 = 0xcbf2_9ce4_8422_2325;
/// FNV-1a prime.
pub const FNV_PRIME: u64 = 0x0000_0100_0000_01B3;

/// FNV-1a over `bytes`, in 64-bit wrapping arithmetic.
pub open spec fn fnv1a(bytes: Seq<u8>) -> u64
    decreases bytes.len(),
{
    if bytes.len() == 0 {
        FNV_OFFSET
    } else {
        (((fnv1a(bytes.drop_last()) ^ (bytes.last() as u64)) as int * FNV_PRIME as int)
            % 0x1_0000_0000_0000_0000) as u64
    }
}

/// The id of a project created by name: FNV-1a of the name's UTF-8 bytes.
pub fn project_id_for_name(name: &str) -> (r: ProjectId)
    ensures
        r.0 == fnv1a(name.spec_bytes()),
{
    let bytes = name.as_bytes();
    let mut h: u64 = FNV_OFFSET;
    let mut i: usize = 0;
    assert(bytes@.subrange(0, 0) =~= Seq::<u8>::empty());
    while i < bytes.len()
        invariant
            i <= bytes@.len(),
            bytes@ == name.spec_bytes(),
            h == fnv1a(bytes@.subrange(0, i as int)),
        decreases bytes@.len() - i,
    {
        proof {
            let next = bytes@.subrange(0, i + 1);
            assert(next.drop_last() =~= bytes@.subrange(0, i as int));
        }
        h = (h ^ (bytes[i] as u64)).wrapping_mul(FNV_PRIME);
        i += 1;
    }
    assert(bytes@.subrange(0, bytes@.len() as int) =~= bytes@);
    ProjectId(h)
}

} // verus!
