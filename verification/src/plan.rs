//! The plan: what `analyze` produces and `clean` carries out.
use vstd::prelude::*;
use crate::text::push_str;

verus! {

pub const PLAN_VERSION: u32 = 1;

#[derive(Clone, Debug, PartialEq, Eq)]
pub struct PlanSource {
    pub url: Option<String>,
    pub local: Option<String>,
    pub remote: String,
}

#[derive(Clone, Debug, PartialEq, Eq)]
pub struct PlanPolicy {
    pub min_size: u64,
    pub keep_refs: Vec<String>,
}

#[derive(Clone, Debug, PartialEq, Eq)]
pub struct PlanPath {
    pub path: String,
    pub reason: String,
}

/// What `analyze` produces and `clean` takes.
#[derive(Clone, Debug, PartialEq, Eq)]
pub struct Plan {
    pub version: u32,
    pub generated_by: String,
    pub source: PlanSource,
    pub policy: PlanPolicy,
    pub paths: Vec<PlanPath>,
}

/// Why a plan was refused.
#[derive(Clone, Copy, Debug, PartialEq, Eq)]
pub enum PlanError {
    UnsupportedVersion(u32),
    NoPaths,
}

/// The first line of every plan file.
pub open spec fn plan_header() -> Seq<char> {
    "# Pomona plan（由 git pomona analyze 生成，供 git pomona clean 使用）\n"@
}

/// Each note as a `# ` comment line.
pub open spec fn note_lines(notes: Seq<Seq<char>>) -> Seq<char>
    decreases notes.len(),
{
    if notes.len() == 0 {
        Seq::empty()
    } else {
        note_lines(notes.drop_last()) + "# "@ + notes.last() + "\n"@
    }
}

impl Plan {
    /// A plan file: the header, each note as a comment line, a blank line,
    /// then `body` (the plan in TOML).
    pub fn render(notes: &[String], body: &str) -> (r: String)
        ensures
            r@ == plan_header() + note_lines(notes@.map_values(|n: String| n@)) + "\n"@ + body@,
    {
        let ghost nv = notes@.map_values(|n: String| n@);
        let mut s = String::new();
        push_str(&mut s, "# Pomona plan（由 git pomona analyze 生成，供 git pomona clean 使用）\n");
        let mut i: usize = 0;
        while i < notes.len()
            invariant
                i <= notes.len(),
                nv == notes@.map_values(|n: String| n@),
                s@ == plan_header() + note_lines(nv.take(i as int)),
            decreases notes.len() - i,
        {
            let ghost before = s@;
            push_str(&mut s, "# ");
            push_str(&mut s, notes[i].as_str());
            push_str(&mut s, "\n");
            proof {
                assert(nv.take(i + 1).drop_last() =~= nv.take(i as int));
                assert(nv.take(i + 1).last() == notes@[i as int]@);
                assert(s@ =~= plan_header() + note_lines(nv.take(i + 1)));
            }
            i = i + 1;
        }
        assert(nv.take(i as int) =~= nv);
        push_str(&mut s, "\n");
        push_str(&mut s, body);
        s
    }

    /// Accepts a plan of the supported version that names at least one path.
    pub fn validate(self) -> (r: Result<Plan, PlanError>)
        ensures
            self.version != PLAN_VERSION ==> r == Err::<Plan, PlanError>(PlanError::UnsupportedVersion(self.version)),
            self.version == PLAN_VERSION && self.paths@.len() == 0 ==> r == Err::<Plan, PlanError>(PlanError::NoPaths),
            self.version == PLAN_VERSION && self.paths@.len() > 0 ==> r == Ok::<Plan, PlanError>(self),
    {
        if self.version != PLAN_VERSION {
            let v = self.version;
            return Err(PlanError::UnsupportedVersion(v));
        }
        if self.paths.len() == 0 {
            return Err(PlanError::NoPaths);
        }
        Ok(self)
    }

    /// The paths to clean, in plan order.
    pub fn path_list(&self) -> (r: Vec<String>)
        ensures
            r@.map_values(|s: String| s@) == self.paths@.map_values(|p: PlanPath| p.path@),
    {
        let mut r: Vec<String> = Vec::new();
        let mut i: usize = 0;
        while i < self.paths.len()
            invariant
                i <= self.paths.len(),
                r@.map_values(|s: String| s@) == self.paths@.take(i as int).map_values(|p: PlanPath| p.path@),
            decreases self.paths.len() - i,
        {
            let p = self.paths[i].path.clone();
            let ghost before = r@;
            r.push(p);
            assert(r@.map_values(|s: String| s@) =~= self.paths@.take(i + 1).map_values(|p: PlanPath| p.path@)) by {
                assert(r@.map_values(|s: String| s@) =~= before.map_values(|s: String| s@).push(p@));
                assert(self.paths@.take(i + 1) =~= self.paths@.take(i as int).push(self.paths@[i as int]));
            }
            i = i + 1;
        }
        assert(self.paths@.take(i as int) =~= self.paths@);
        r
    }
}

} // verus!
