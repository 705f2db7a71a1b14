//! Rewriting history so that chosen blobs are gone, keeping the shape of the
//! commit graph.
pub mod stream;

use vstd::prelude::*;
use crate::error::ToolError;
use crate::git::{GitLog, added, captured, extends, str_views, Git};
use crate::model::OidSet;
use crate::rewrite::stream::StreamError;

verus! {

/// What a rewrite did.
#[derive(Debug, Default)]
pub struct RewriteReport {
    /// File changes rewritten (an engine that cannot count them reports the
    /// number of blobs to remove).
    pub rewritten_entries: usize,
    /// The filtered stream kept after a failure.
    pub stream_log: Option<String>,
}

/// A history-rewriting engine: removes the given blobs, keeping the commit
/// topology.
pub trait Rewriter {
    fn name(&self) -> &'static str;

    fn strip_blobs(&self, repo: &str, remove: &OidSet) -> Result<RewriteReport, ToolError>;
}

/// The engines on offer.
#[derive(Clone, Copy, Debug, PartialEq, Eq)]
pub enum Engine {
    /// fast-export, stream filter, fast-import (the default; no Python needed).
    Native,
    /// git-filter-repo (installed with pip).
    FilterRepo,
}

/// Why a native rewrite failed.
#[derive(Clone, Copy, Debug, PartialEq, Eq)]
pub enum NativeFailure {
    /// The stream could not be filtered.
    Stream(StreamError),
    /// `fast-export` exited with this code (-1 when killed by a signal).
    Export(i32),
    /// `fast-import` exited with this code (-1 when killed by a signal).
    Import(i32),
}

/// How a native rewrite ended, from what its three stages reported: a
/// filtering error first, then a failed export, then a failed import;
/// otherwise the number of rewritten file changes.
pub fn native_outcome(filtered: Result<usize, StreamError>, export_code: i32, import_code: i32) -> (r: Result<
    usize,
    NativeFailure,
>)
    ensures
        r == (match filtered {
            Err(e) => Err(NativeFailure::Stream(e)),
            Ok(n) => if export_code != 0 {
                Err(NativeFailure::Export(export_code))
            } else if import_code != 0 {
                Err(NativeFailure::Import(import_code))
            } else {
                Ok(n)
            },
        }),
{
    match filtered {
        Err(e) => Err(NativeFailure::Stream(e)),
        Ok(n) => if export_code != 0 {
            Err(NativeFailure::Export(export_code))
        } else if import_code != 0 {
            Err(NativeFailure::Import(import_code))
        } else {
            Ok(n)
        },
    }
}

pub open spec fn expire_args() -> Seq<Seq<char>> {
    seq!["reflog"@, "expire"@, "--expire=now"@, "--all"@]
}

pub open spec fn gc_args() -> Seq<Seq<char>> {
    seq!["gc"@, "--prune=now"@, "--quiet"@]
}

/// Makes the unreachable objects really go: expires the reflog, then (when
/// that succeeded) collects garbage; succeeds when both did.
pub fn expire_and_gc<G: Git>(g: &mut GitLog<G>, repo: &str) -> (r: Result<(), ToolError>)
    ensures
        extends(old(g).calls(), final(g).calls()),
        added(old(g).calls(), final(g).calls()).len() >= 1,
        captured(added(old(g).calls(), final(g).calls())[0], repo@, expire_args(), None),
        added(old(g).calls(), final(g).calls())[0].out is None ==> added(old(g).calls(), final(g).calls()).len() == 1
            && r is Err,
        added(old(g).calls(), final(g).calls())[0].out is Some ==> added(old(g).calls(), final(g).calls()).len() == 2
            && captured(added(old(g).calls(), final(g).calls())[1], repo@, gc_args(), None) && (r is Ok <==> added(
            old(g).calls(),
            final(g).calls(),
        )[1].out is Some),
{
    let ghost c0 = g.calls();
    let expire = ["reflog", "expire", "--expire=now", "--all"];
    assert(str_views(expire@) =~= expire_args());
    let first = g.run(Some(repo), expire.as_slice(), None);
    let ghost c1 = g.calls();
    proof {
        assert(added(c0, c1) =~= seq![c1.last()]);
        assert(c1.take(c0.len() as int) =~= c0);
    }
    match first {
        Ok(_) => {},
        Err(e) => {
            return Err(e);
        },
    }
    let gc = ["gc", "--prune=now", "--quiet"];
    assert(str_views(gc@) =~= gc_args());
    let second = g.run(Some(repo), gc.as_slice(), None);
    proof {
        assert(added(c0, g.calls()) =~= seq![c1.last(), g.calls().last()]);
        assert(g.calls().take(c0.len() as int) =~= c0);
    }
    match second {
        Ok(_) => Ok(()),
        Err(e) => Err(e),
    }
}

} // verus!
