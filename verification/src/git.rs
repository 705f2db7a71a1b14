//! git as a subprocess: the two calls the rest is built on, and what is
//! read from their output.
use vstd::prelude::*;
use vstd::utf8::{decode_utf8, valid_utf8};
use crate::error::ToolError;
use crate::model::{ObjectRec, Oid};
use crate::size::{digits_value, is_digit, trim, trim_text};
use crate::strset::views;
use crate::text::{
    join_text, joined, lemma_split_nonempty, push_str, chars_of, find_byte, find_char, find_from, lemma_find_bounds, lossy, split_bytes, split_chars, split_seq,
    string_of, utf8_lossy, utf8_str, lemma_find_first,
};

verus! {

/// One call of git as the library sees it: whether the output went to the
/// terminal, the repository it ran in, its arguments, what it was fed on
/// standard input, and the output it gave (`None` when it failed; empty when
/// the output went to the terminal).
pub struct GitCall {
    pub through: bool,
    pub repo: Option<Seq<char>>,
    pub args: Seq<Seq<char>>,
    pub stdin: Option<Seq<u8>>,
    pub out: Option<Seq<u8>>,
}

pub open spec fn str_views(v: Seq<&str>) -> Seq<Seq<char>> {
    v.map_values(|a: &str| a@)
}

pub open spec fn opt_str(v: Option<&str>) -> Option<Seq<char>> {
    match v {
        Some(s) => Some(s@),
        None => None,
    }
}

/// The least a git runner offers: capture the output, or let it through to
/// the terminal. Everything else is built on these two.
pub trait Git {
    /// Runs git with `args` in the repository at `repo` (feeding `stdin`)
    /// and captures its output; fails when git exits with a non-zero status.
    fn run(&self, repo: Option<&str>, args: &[&str], stdin: Option<&[u8]>) -> Result<Vec<u8>, ToolError>;

    /// Runs git with its output going straight to the terminal (clone, push).
    fn run_inherit(&self, repo: Option<&str>, args: &[&str]) -> Result<(), ToolError>;
}

/// A git runner together with the record of the calls made through it.
pub struct GitLog<G: Git> {
    pub git: G,
    log: Ghost<Seq<GitCall>>,
}

impl<G: Git> GitLog<G> {
    /// The calls made so far, oldest first, each with its outcome.
    pub closed spec fn calls(&self) -> Seq<GitCall> {
        self.log@
    }

    /// `git` with an empty record.
    pub fn new(git: G) -> (r: GitLog<G>)
        ensures
            r.calls() == Seq::<GitCall>::empty(),
    {
        GitLog { git, log: Ghost(Seq::empty()) }
    }

    /// Runs git through the runner and records the call and its output
    /// (`None` when it failed).
    pub fn run(&mut self, repo: Option<&str>, args: &[&str], stdin: Option<&[u8]>) -> (r: Result<Vec<u8>, ToolError>)
        ensures
            final(self).calls() == old(self).calls().push(
                GitCall {
                    through: false,
                    repo: opt_str(repo),
                    args: str_views(args@),
                    stdin: match stdin {
                        Some(b) => Some(b@),
                        None => None,
                    },
                    out: match r {
                        Ok(o) => Some(o@),
                        Err(_) => None,
                    },
                },
            ),
    {
        let r = self.git.run(repo, args, stdin);
        proof {
            self.log@ = self.log@.push(
                GitCall {
                    through: false,
                    repo: opt_str(repo),
                    args: str_views(args@),
                    stdin: match stdin {
                        Some(b) => Some(b@),
                        None => None,
                    },
                    out: match &r {
                        Ok(o) => Some(o@),
                        Err(_) => None,
                    },
                },
            );
        }
        r
    }

    /// Runs git with its output going to the terminal, and records the call
    /// (an empty output when it succeeded, `None` when it failed).
    pub fn run_inherit(&mut self, repo: Option<&str>, args: &[&str]) -> (r: Result<(), ToolError>)
        ensures
            final(self).calls() == old(self).calls().push(
                GitCall {
                    through: true,
                    repo: opt_str(repo),
                    args: str_views(args@),
                    stdin: None,
                    out: if r is Ok {
                        Some(Seq::empty())
                    } else {
                        None
                    },
                },
            ),
    {
        let r = self.git.run_inherit(repo, args);
        proof {
            self.log@ = self.log@.push(
                GitCall {
                    through: true,
                    repo: opt_str(repo),
                    args: str_views(args@),
                    stdin: None,
                    out: if r is Ok {
                        Some(Seq::empty())
                    } else {
                        None
                    },
                },
            );
        }
        r
    }
}

/// `c` captured the output of `git <args>` run in `repo`, fed `stdin`.
pub open spec fn captured(c: GitCall, repo: Seq<char>, args: Seq<Seq<char>>, stdin: Option<Seq<u8>>) -> bool {
    !c.through && c.repo == Some(repo) && c.args == args && c.stdin == stdin
}

/// `args` only read the repository: `rev-parse`, `config --get`,
/// `for-each-ref`, `rev-list`, `cat-file` or `ls-tree`.
pub open spec fn is_read(args: Seq<Seq<char>>) -> bool {
    &&& args.len() > 0
    &&& {
        ||| args[0] == "rev-parse"@
        ||| args[0] == "for-each-ref"@
        ||| args[0] == "rev-list"@
        ||| args[0] == "cat-file"@
        ||| args[0] == "ls-tree"@
        ||| args[0] == "config"@ && args.len() > 1 && args[1] == "--get"@
    }
}

/// Every call of `t` captured the output of a command that only reads.
pub open spec fn reads_only(t: Seq<GitCall>) -> bool {
    forall|k: int| 0 <= k < t.len() ==> !(#[trigger] t[k]).through && is_read(t[k].args)
}

/// `after` is `before` and one more call.
pub open spec fn one_more(before: Seq<GitCall>, after: Seq<GitCall>) -> bool {
    after.len() > 0 && after == before.push(after.last())
}

/// git's output as text (invalid UTF-8 replaced).
pub fn text(bytes: Vec<u8>) -> (s: String)
    ensures
        s@ == utf8_lossy(bytes@),
{
    lossy(bytes.as_slice())
}

pub open spec fn blob_word() -> Seq<char> {
    seq!['b', 'l', 'o', 'b']
}

pub open spec fn head_suffix() -> Seq<char> {
    seq!['/', 'H', 'E', 'A', 'D']
}

pub open spec fn strip_cr(l: Seq<char>) -> Seq<char> {
    if l.len() > 0 && l.last() == '\r' {
        l.drop_last()
    } else {
        l
    }
}

pub open spec fn ends_with_head(l: Seq<char>) -> bool {
    l.len() >= 5 && l.skip(l.len() - 5) == head_suffix()
}

/// The pieces of `s` between newlines, each without a "\r" that ends it
/// before its newline: the lines of `str::lines`, with an empty last piece
/// where `s` ends in a newline.
pub open spec fn text_lines(s: Seq<char>) -> Seq<Seq<char>> {
    let ps = split_seq(s, '\n');
    Seq::new(ps.len(), |i: int| if i < ps.len() - 1 { strip_cr(ps[i]) } else { ps[i] })
}

/// The lines of `s` as `str::lines` yields them, without empty lines and
/// without those ending in "/HEAD".
pub open spec fn ref_lines(s: Seq<char>) -> Seq<Seq<char>> {
    text_lines(s).filter(|l: Seq<char>| l.len() > 0 && !ends_with_head(l))
}

pub(crate) fn is_ref_line(l: &Vec<char>) -> (b: bool)
    ensures
        b == (l@.len() > 0 && !ends_with_head(l@)),
{
    if l.len() == 0 {
        return false;
    }
    if l.len() < 5 {
        return true;
    }
    let k = l.len() - 5;
    let tail = &l.as_slice()[k..l.len()];
    let head = ['/', 'H', 'E', 'A', 'D'];
    let same = crate::text::chars_eq(tail, head.as_slice());
    assert(head@ =~= head_suffix());
    assert(tail@ =~= l@.skip(k as int));
    !same
}

/// The lines of `t` (see `text_lines`), as character vectors.
pub fn lines_of(t: &str) -> (r: Vec<Vec<char>>)
    ensures
        r@.map_values(|v: Vec<char>| v@) == text_lines(t@),
{
    let cs = chars_of(t);
    let ps = split_chars(cs.as_slice(), '\n');
    let ghost pv = ps@.map_values(|v: Vec<char>| v@);
    let ghost ls = text_lines(t@);
    let mut r: Vec<Vec<char>> = Vec::new();
    let mut i: usize = 0;
    while i < ps.len()
        invariant
            i <= ps.len(),
            pv == ps@.map_values(|v: Vec<char>| v@),
            ls == Seq::new(pv.len(), |i: int| if i < pv.len() - 1 { strip_cr(pv[i]) } else { pv[i] }),
            r@.map_values(|v: Vec<char>| v@) == ls.take(i as int),
        decreases ps.len() - i,
    {
        let p = &ps[i];
        let mut line: Vec<char> = vstd::slice::slice_to_vec(p.as_slice());
        if i + 1 < ps.len() && line.len() > 0 && line[line.len() - 1] == '\r' {
            line.pop();
        }
        assert(line@ == ls[i as int]) by {
            assert(pv[i as int] == p@);
        }
        let ghost before = r@;
        r.push(line);
        assert(r@.map_values(|v: Vec<char>| v@) =~= before.map_values(|v: Vec<char>| v@).push(ls[i as int]));
        assert(ls.take(i + 1) =~= ls.take(i as int).push(ls[i as int]));
        i = i + 1;
    }
    assert(ls.take(i as int) =~= ls);
    r
}

/// The ref names in the output of `for-each-ref --format=%(refname)`.
pub fn ref_names(out: Vec<u8>) -> (r: Vec<String>)
    ensures
        views(r@) == ref_lines(utf8_lossy(out@)),
{
    let t = text(out);
    let ls = lines_of(t.as_str());
    let ghost lv = ls@.map_values(|v: Vec<char>| v@);
    let ghost keep = |l: Seq<char>| l.len() > 0 && !ends_with_head(l);
    let mut r: Vec<String> = Vec::new();
    let mut i: usize = 0;
    while i < ls.len()
        invariant
            i <= ls.len(),
            lv == ls@.map_values(|v: Vec<char>| v@),
            keep == (|l: Seq<char>| l.len() > 0 && !ends_with_head(l)),
            views(r@) == lv.take(i as int).filter(keep),
        decreases ls.len() - i,
    {
        proof {
            assert(lv.take(i + 1).drop_last() =~= lv.take(i as int));
            assert(lv[i as int] == ls@[i as int]@);
            reveal_with_fuel(Seq::<_>::filter, 1);
        }
        if is_ref_line(&ls[i]) {
            let s = string_of(ls[i].as_slice());
            let ghost before = r@;
            r.push(s);
            assert(views(r@) =~= views(before).push(s@));
        }
        i = i + 1;
    }
    assert(lv.take(i as int) =~= lv);
    r
}

/// The arguments of `for-each-ref --format=%(refname) <patterns>`.
pub open spec fn ref_list_args(patterns: Seq<Seq<char>>) -> Seq<Seq<char>> {
    seq!["for-each-ref"@, "--format=%(refname)"@] + patterns
}

/// `for-each-ref --format=%(refname) <patterns>`, without `*/HEAD`: one call
/// of git; its output gives the refs, its failure the error.
pub fn for_each_ref<G: Git>(g: &mut GitLog<G>, repo: &str, patterns: &[&str]) -> (r: Result<Vec<String>, ToolError>)
    ensures
        one_more(old(g).calls(), final(g).calls()),
        captured(final(g).calls().last(), repo@, ref_list_args(str_views(patterns@)), None),
        match final(g).calls().last().out {
            Some(o) => r matches Ok(v) && views(v@) == ref_lines(utf8_lossy(o)),
            None => r is Err,
        },
{
    let mut args: Vec<&str> = Vec::new();
    args.push("for-each-ref");
    args.push("--format=%(refname)");
    let mut i: usize = 0;
    while i < patterns.len()
        invariant
            i <= patterns.len(),
            str_views(args@) == ref_list_args(str_views(patterns@.take(i as int))),
        decreases patterns.len() - i,
    {
        let ghost before = args@;
        args.push(patterns[i]);
        assert(str_views(args@) =~= str_views(before).push(patterns@[i as int]@));
        assert(str_views(patterns@.take(i + 1)) =~= str_views(patterns@.take(i as int)).push(patterns@[i as int]@));
        i = i + 1;
    }
    assert(patterns@.take(i as int) =~= patterns@);
    match g.run(Some(repo), args.as_slice(), None) {
        Ok(out) => Ok(ref_names(out)),
        Err(e) => Err(e),
    }
}

/// One record of `ls-tree -r -z`: "<mode> <type> <oid>\t<path>"; blobs only.
pub open spec fn ls_tree_record(rec: Seq<u8>) -> Option<(Seq<char>, Seq<char>)> {
    let tab = find_from(rec, 9u8, 0);
    if rec.len() == 0 || tab == rec.len() || !valid_utf8(rec.take(tab)) {
        None
    } else {
        let meta = decode_utf8(rec.take(tab));
        let a = find_from(meta, ' ', 0);
        let b = find_from(meta, ' ', a + 1);
        let c = find_from(meta, ' ', b + 1);
        if a == meta.len() || b == meta.len() || meta.subrange(a + 1, b) != blob_word() {
            None
        } else {
            Some((meta.subrange(b + 1, c), utf8_lossy(rec.skip(tab + 1))))
        }
    }
}

/// A tree record `<mode> blob <oid>\t<path>` gives the blob's whole object
/// name, whatever its length, and its path: the metadata before the tab is
/// `meta` (valid UTF-8 without a tab), reading as the mode, "blob" and the
/// object name, separated by single spaces.
pub proof fn lemma_tree_record_parts(meta: Seq<u8>, mode: Seq<char>, oid: Seq<char>, path: Seq<u8>)
    requires
        !meta.contains(9u8),
        valid_utf8(meta),
        decode_utf8(meta) == mode + seq![' ', 'b', 'l', 'o', 'b', ' '] + oid,
        !mode.contains(' '),
        !oid.contains(' '),
    ensures
        ls_tree_record(meta + seq![9u8] + path) == Some((oid, utf8_lossy(path))),
{
    let rec = meta + seq![9u8] + path;
    assert forall|k: int| 0 <= k < meta.len() implies rec[k] != 9u8 by {
        assert(rec[k] == meta[k]);
    }
    lemma_find_first(rec, 9u8, 0, meta.len() as int);
    assert(rec.take(meta.len() as int) =~= meta);
    assert(rec.skip(meta.len() as int + 1) =~= path);
    let t = decode_utf8(meta);
    let a = mode.len() as int;
    let b = a + 5;
    assert forall|k: int| 0 <= k < a implies t[k] != ' ' by {
        assert(t[k] == mode[k]);
    }
    lemma_find_first(t, ' ', 0, a);
    assert forall|k: int| a + 1 <= k < b implies t[k] != ' ' by {}
    lemma_find_first(t, ' ', a + 1, b);
    assert forall|k: int| b + 1 <= k < t.len() implies t[k] != ' ' by {
        assert(t[k] == oid[k - b - 1]);
    }
    lemma_find_first(t, ' ', b + 1, t.len() as int);
    assert(t.subrange(a + 1, b) =~= blob_word());
    assert(t.subrange(b + 1, t.len() as int) =~= oid);
}

pub open spec fn ls_tree_entries(recs: Seq<Seq<u8>>) -> Seq<(Seq<char>, Seq<char>)>
    decreases recs.len(),
{
    if recs.len() == 0 {
        Seq::empty()
    } else {
        let rest = ls_tree_entries(recs.drop_last());
        match ls_tree_record(recs.last()) {
            Some(e) => rest.push(e),
            None => rest,
        }
    }
}

pub open spec fn oid_path_view(v: Seq<(Oid, String)>) -> Seq<(Seq<char>, Seq<char>)> {
    v.map_values(|e: (Oid, String)| (e.0@, e.1@))
}

fn ls_tree_record_exec(rec: &Vec<u8>) -> (r: Option<(Oid, String)>)
    ensures
        match r {
            Some(e) => ls_tree_record(rec@) == Some((e.0@, e.1@)),
            None => ls_tree_record(rec@) is None,
        },
{
    if rec.len() == 0 {
        return None;
    }
    proof {
        lemma_find_bounds(rec@, 9u8, 0);
    }
    let tab = find_byte(rec.as_slice(), 9u8, 0);
    if tab == rec.len() {
        return None;
    }
    let head = &rec.as_slice()[0..tab];
    assert(head@ =~= rec@.take(tab as int));
    let meta_str = match utf8_str(head) {
        Some(m) => m,
        None => {
            return None;
        },
    };
    let meta = chars_of(meta_str);
    proof {
        lemma_find_bounds(meta@, ' ', 0);
    }
    let a = find_char(meta.as_slice(), ' ', 0);
    if a == meta.len() {
        return None;
    }
    proof {
        lemma_find_bounds(meta@, ' ', a + 1);
    }
    let b = find_char(meta.as_slice(), ' ', a + 1);
    if b == meta.len() {
        return None;
    }
    proof {
        lemma_find_bounds(meta@, ' ', b + 1);
    }
    let c = find_char(meta.as_slice(), ' ', b + 1);
    let ty = &meta.as_slice()[a + 1..b];
    let blob = ['b', 'l', 'o', 'b'];
    assert(blob@ =~= blob_word());
    if !crate::text::chars_eq(ty, blob.as_slice()) {
        return None;
    }
    let oid = string_of(&meta.as_slice()[b + 1..c]);
    let tail = &rec.as_slice()[tab + 1..rec.len()];
    assert(tail@ =~= rec@.skip(tab + 1));
    let path = lossy(tail);
    Some((Oid::new(oid.as_str()), path))
}

/// Reads `ls-tree -r -z` output, keeping the blobs.
pub fn parse_ls_tree_z(bytes: &[u8]) -> (r: Vec<(Oid, String)>)
    ensures
        oid_path_view(r@) == ls_tree_entries(split_seq(bytes@, 0u8)),
{
    let recs = split_bytes(bytes, 0u8);
    let ghost rv = recs@.map_values(|v: Vec<u8>| v@);
    let mut r: Vec<(Oid, String)> = Vec::new();
    let mut i: usize = 0;
    while i < recs.len()
        invariant
            i <= recs.len(),
            rv == recs@.map_values(|v: Vec<u8>| v@),
            oid_path_view(r@) == ls_tree_entries(rv.take(i as int)),
        decreases recs.len() - i,
    {
        proof {
            assert(rv.take(i + 1).drop_last() =~= rv.take(i as int));
            assert(rv.take(i + 1).last() == recs@[i as int]@);
        }
        match ls_tree_record_exec(&recs[i]) {
            Some(e) => {
                let ghost before = r@;
                let ghost ev = (e.0@, e.1@);
                r.push(e);
                assert(oid_path_view(r@) =~= oid_path_view(before).push(ev));
            },
            None => {},
        }
        i = i + 1;
    }
    assert(rv.take(i as int) =~= rv);
    r
}

/// The arguments of `ls-tree -r -z <rev>`.
pub open spec fn tree_list_args(rev: Seq<char>) -> Seq<Seq<char>> {
    seq!["ls-tree"@, "-r"@, "-z"@, rev]
}

/// The blobs (name, path) in the tree of `rev`: one call of git.
pub fn ls_tree_blobs<G: Git>(g: &mut GitLog<G>, repo: &str, rev: &str) -> (r: Result<Vec<(Oid, String)>, ToolError>)
    ensures
        one_more(old(g).calls(), final(g).calls()),
        captured(final(g).calls().last(), repo@, tree_list_args(rev@), None),
        match final(g).calls().last().out {
            Some(o) => r matches Ok(v) && oid_path_view(v@) == ls_tree_entries(split_seq(o, 0u8)),
            None => r is Err,
        },
{
    let args = ["ls-tree", "-r", "-z", rev];
    assert(str_views(args@) =~= tree_list_args(rev@));
    match g.run(Some(repo), args.as_slice(), None) {
        Ok(out) => Ok(parse_ls_tree_z(out.as_slice())),
        Err(e) => Err(e),
    }
}

/// `s` without one leading '+'.
pub open spec fn unsigned_part(s: Seq<char>) -> Seq<char> {
    if s.len() > 0 && s[0] == '+' {
        s.drop_first()
    } else {
        s
    }
}

pub open spec fn all_digits(d: Seq<char>) -> bool {
    forall|k: int| 0 <= k < d.len() ==> is_digit(#[trigger] d[k])
}

/// What `u64::from_str` accepts: an optional '+' and decimal digits, in range.
pub open spec fn u64_text(s: Seq<char>) -> Option<u64> {
    let d = unsigned_part(s);
    if d.len() == 0 || !all_digits(d) {
        None
    } else if digits_value(d) > u64::MAX {
        None
    } else {
        Some(digits_value(d) as u64)
    }
}

/// `u64::from_str` on characters.
pub fn parse_u64(s: &[char]) -> (r: Option<u64>)
    ensures
        r == u64_text(s@),
{
    let start: usize = if s.len() > 0 && s[0] == '+' {
        1
    } else {
        0
    };
    let ghost d = unsigned_part(s@);
    assert(d =~= s@.skip(start as int));
    if start == s.len() {
        return None;
    }
    let mut v: u64 = 0;
    let mut i: usize = start;
    let mut overflow = false;
    while i < s.len()
        invariant
            start <= i <= s.len(),
            d == s@.skip(start as int),
            d == unsigned_part(s@),
            d.len() > 0,
            forall|k: int| 0 <= k < i - start ==> is_digit(#[trigger] d[k]),
            !overflow ==> v == digits_value(d.take(i - start)),
            overflow ==> i > start && digits_value(d.take(i - start)) > u64::MAX,
        decreases s.len() - i,
    {
        let c = s[i];
        assert(d[i - start] == c);
        if c < '0' || c > '9' {
            proof {
                let k = i - start;
                assert(d[k] == c);
                assert(!is_digit(d[k]));
            }
            return None;
        }
        proof {
            assert(d.take(i - start + 1).drop_last() =~= d.take(i - start));
            if overflow {
                lemma_digits_grow(d.take(i - start + 1));
            }
        }
        if !overflow {
            let dv = (c as u32 - 48) as u64;
            match v.checked_mul(10) {
                Some(v10) => match v10.checked_add(dv) {
                    Some(w) => {
                        v = w;
                    },
                    None => {
                        overflow = true;
                    },
                },
                None => {
                    overflow = true;
                },
            }
        }
        i = i + 1;
    }
    assert(d.take(i - start) =~= d);
    if overflow {
        return None;
    }
    Some(v)
}

proof fn lemma_digits_grow(d: Seq<char>)
    requires
        d.len() > 0,
        is_digit(d.last()),
    ensures
        digits_value(d.drop_last()) <= digits_value(d),
{
}

/// One line of `cat-file --batch-check='%(objecttype) %(objectname) %(objectsize) %(rest)'`;
/// blobs that carry a path only.
pub open spec fn batch_record(line: Seq<u8>) -> Option<(Seq<char>, u64, Seq<char>)> {
    let s = utf8_lossy(line);
    let a = find_from(s, ' ', 0);
    let b = find_from(s, ' ', a + 1);
    let c = find_from(s, ' ', b + 1);
    let path = if c < s.len() {
        s.skip(c + 1)
    } else {
        Seq::empty()
    };
    if a == s.len() || b == s.len() || s.take(a) != blob_word() || path.len() == 0 {
        None
    } else {
        match u64_text(s.subrange(b + 1, c)) {
            Some(size) => Some((s.subrange(a + 1, b), size, path)),
            None => None,
        }
    }
}

/// A history record `blob <oid> <size> <path>` gives the object name, the
/// size and the path, which is all the text after the third space, unchanged
/// (it may hold spaces and '/'), for a non-empty path.
pub proof fn lemma_history_record_parts(line: Seq<u8>, oid: Seq<char>, size_text: Seq<char>, path: Seq<char>, size: u64)
    requires
        utf8_lossy(line) == seq!['b', 'l', 'o', 'b', ' '] + oid + seq![' '] + size_text + seq![' '] + path,
        !oid.contains(' '),
        !size_text.contains(' '),
        path.len() > 0,
        u64_text(size_text) == Some(size),
    ensures
        batch_record(line) == Some((oid, size, path)),
{
    let s = utf8_lossy(line);
    let a = 4int;
    let b = a + 1 + oid.len();
    let c = b + 1 + size_text.len();
    assert forall|k: int| 0 <= k < a implies s[k] != ' ' by {}
    lemma_find_first(s, ' ', 0, a);
    assert forall|k: int| a + 1 <= k < b implies s[k] != ' ' by {
        assert(s[k] == oid[k - a - 1]);
    }
    lemma_find_first(s, ' ', a + 1, b);
    assert forall|k: int| b + 1 <= k < c implies s[k] != ' ' by {
        assert(s[k] == size_text[k - b - 1]);
    }
    assert(s[c] == ' ');
    lemma_find_first(s, ' ', b + 1, c);
    assert(s.take(a) =~= blob_word());
    assert(s.subrange(a + 1, b) =~= oid);
    assert(s.subrange(b + 1, c) =~= size_text);
    assert(s.skip(c + 1) =~= path);
}

pub open spec fn batch_entries(lines: Seq<Seq<u8>>) -> Seq<(Seq<char>, u64, Seq<char>)>
    decreases lines.len(),
{
    if lines.len() == 0 {
        Seq::empty()
    } else {
        let rest = batch_entries(lines.drop_last());
        match batch_record(lines.last()) {
            Some(e) => rest.push(e),
            None => rest,
        }
    }
}

pub open spec fn object_view(v: Seq<ObjectRec>) -> Seq<(Seq<char>, u64, Seq<char>)> {
    v.map_values(|o: ObjectRec| (o.oid@, o.size, o.path@))
}

fn batch_record_exec(line: &Vec<u8>) -> (r: Option<ObjectRec>)
    ensures
        match r {
            Some(o) => batch_record(line@) == Some((o.oid@, o.size, o.path@)),
            None => batch_record(line@) is None,
        },
{
    let t = lossy(line.as_slice());
    let s = chars_of(t.as_str());
    proof {
        lemma_find_bounds(s@, ' ', 0);
    }
    let a = find_char(s.as_slice(), ' ', 0);
    if a == s.len() {
        return None;
    }
    proof {
        lemma_find_bounds(s@, ' ', a + 1);
    }
    let b = find_char(s.as_slice(), ' ', a + 1);
    if b == s.len() {
        return None;
    }
    proof {
        lemma_find_bounds(s@, ' ', b + 1);
    }
    let c = find_char(s.as_slice(), ' ', b + 1);
    let ty = &s.as_slice()[0..a];
    let blob = ['b', 'l', 'o', 'b'];
    assert(blob@ =~= blob_word());
    assert(ty@ =~= s@.take(a as int));
    if !crate::text::chars_eq(ty, blob.as_slice()) {
        return None;
    }
    if c >= s.len() || c + 1 == s.len() {
        assert(c + 1 == s.len() ==> s@.skip(c + 1) =~= Seq::<char>::empty());
        return None;
    }
    let size = match parse_u64(&s.as_slice()[b + 1..c]) {
        Some(n) => n,
        None => {
            return None;
        },
    };
    let oid = string_of(&s.as_slice()[a + 1..b]);
    let path = string_of(&s.as_slice()[c + 1..s.len()]);
    assert(path@ =~= s@.skip(c + 1));
    Some(ObjectRec { oid: Oid::new(oid.as_str()), size, path })
}

/// Reads the batch-check listing, keeping the blobs that carry a path.
pub fn parse_batch_check(bytes: &[u8]) -> (r: Vec<ObjectRec>)
    ensures
        object_view(r@) == batch_entries(split_seq(bytes@, 10u8)),
{
    let lines = split_bytes(bytes, 10u8);
    let ghost lv = lines@.map_values(|v: Vec<u8>| v@);
    let mut r: Vec<ObjectRec> = Vec::new();
    let mut i: usize = 0;
    while i < lines.len()
        invariant
            i <= lines.len(),
            lv == lines@.map_values(|v: Vec<u8>| v@),
            object_view(r@) == batch_entries(lv.take(i as int)),
        decreases lines.len() - i,
    {
        proof {
            assert(lv.take(i + 1).drop_last() =~= lv.take(i as int));
            assert(lv.take(i + 1).last() == lines@[i as int]@);
        }
        match batch_record_exec(&lines[i]) {
            Some(o) => {
                let ghost before = r@;
                let ghost ov = (o.oid@, o.size, o.path@);
                r.push(o);
                assert(object_view(r@) =~= object_view(before).push(ov));
            },
            None => {},
        }
        i = i + 1;
    }
    assert(lv.take(i as int) =~= lv);
    r
}

pub open spec fn rev_list_args() -> Seq<Seq<char>> {
    seq!["rev-list"@, "--objects"@, "--all"@]
}

pub open spec fn batch_check_args() -> Seq<Seq<char>> {
    seq!["cat-file"@, "--batch-check=%(objecttype) %(objectname) %(objectsize) %(rest)"@]
}

/// The calls `t` that `history_objects` makes in `repo` and what it returns:
/// `rev-list`, then (when it succeeded) `cat-file` fed its output.
pub open spec fn history_calls(t: Seq<GitCall>, repo: Seq<char>, r: Result<Vec<ObjectRec>, ToolError>) -> bool {
    &&& t.len() >= 1
    &&& captured(t[0], repo, rev_list_args(), None)
    &&& match t[0].out {
        None => t.len() == 1 && r is Err,
        Some(listing) => {
            &&& t.len() == 2
            &&& captured(t[1], repo, batch_check_args(), Some(listing))
            &&& match t[1].out {
                Some(o) => r matches Ok(v) && object_view(v@) == batch_entries(split_seq(o, 10u8)),
                None => r is Err,
            }
        },
    }
}

/// `b` is `a` followed by more calls.
pub open spec fn extends(a: Seq<GitCall>, b: Seq<GitCall>) -> bool {
    a.len() <= b.len() && b.take(a.len() as int) == a
}

/// The calls added to `a` to give `b`.
pub open spec fn added(a: Seq<GitCall>, b: Seq<GitCall>) -> Seq<GitCall> {
    b.skip(a.len() as int)
}

/// Calls made one after another add up.
pub(crate) proof fn lemma_added_concat(a: Seq<GitCall>, b: Seq<GitCall>, c: Seq<GitCall>)
    requires
        extends(a, b),
        extends(b, c),
    ensures
        extends(a, c),
        added(a, c) == added(a, b) + added(b, c),
{
    assert(c.take(a.len() as int) =~= b.take(a.len() as int));
    assert(added(a, c) =~= added(a, b) + added(b, c));
}

/// `t` ran, in `repo`, the first `t.len()` commands of `plan` in order,
/// capturing their output; every one but the last succeeded.
pub open spec fn ran_prefix(t: Seq<GitCall>, repo: Seq<char>, plan: Seq<Seq<Seq<char>>>) -> bool {
    &&& t.len() <= plan.len()
    &&& forall|k: int| 0 <= k < t.len() ==> captured(#[trigger] t[k], repo, plan[k], None)
    &&& forall|k: int| 0 <= k < t.len() - 1 ==> (#[trigger] t[k]).out is Some
}

/// `t` ran the commands of `plan` in `repo` in order until one failed:
/// `ok` when all of them ran and succeeded, else the last one failed.
pub open spec fn ran_plan(t: Seq<GitCall>, repo: Seq<char>, plan: Seq<Seq<Seq<char>>>, ok: bool) -> bool {
    &&& ran_prefix(t, repo, plan)
    &&& ok ==> t.len() == plan.len() && (t.len() > 0 ==> t.last().out is Some)
    &&& !ok ==> t.len() > 0 && t.last().out is None
}

/// Running one plan fully and then another runs the two in turn.
pub(crate) proof fn lemma_ran_concat(
    t1: Seq<GitCall>,
    t2: Seq<GitCall>,
    repo: Seq<char>,
    p1: Seq<Seq<Seq<char>>>,
    p2: Seq<Seq<Seq<char>>>,
    ok: bool,
)
    requires
        ran_plan(t1, repo, p1, true),
        ran_plan(t2, repo, p2, ok),
    ensures
        ran_plan(t1 + t2, repo, p1 + p2, ok),
{
    let t = t1 + t2;
    let p = p1 + p2;
    assert forall|k: int| 0 <= k < t.len() implies captured(#[trigger] t[k], repo, p[k], None) by {
        if k < t1.len() {
            assert(t[k] == t1[k] && p[k] == p1[k]);
        } else {
            assert(t[k] == t2[k - t1.len()] && p[k] == p2[k - p1.len()]);
        }
    }
    assert forall|k: int| 0 <= k < t.len() - 1 implies (#[trigger] t[k]).out is Some by {
        if k < t1.len() {
            assert(t[k] == t1[k]);
            if k == t1.len() - 1 {
                assert(t1[k] == t1.last());
            }
        } else {
            assert(t[k] == t2[k - t1.len()]);
        }
    }
    if t2.len() > 0 {
        assert(t.last() == t2.last());
    } else {
        assert(t =~= t1);
    }
}

/// A run of the start of a plan is one of any longer plan.
pub(crate) proof fn lemma_prefix_grow(t: Seq<GitCall>, repo: Seq<char>, p: Seq<Seq<Seq<char>>>, q: Seq<Seq<Seq<char>>>)
    requires
        ran_prefix(t, repo, p),
    ensures
        ran_prefix(t, repo, p + q),
{
    assert forall|k: int| 0 <= k < t.len() implies captured(#[trigger] t[k], repo, (p + q)[k], None) by {
        assert((p + q)[k] == p[k]);
    }
}

/// A run that stopped on a failure is a run of any longer plan.
pub(crate) proof fn lemma_ran_failed(t: Seq<GitCall>, repo: Seq<char>, p: Seq<Seq<Seq<char>>>, q: Seq<Seq<Seq<char>>>)
    requires
        ran_plan(t, repo, p, false),
    ensures
        ran_plan(t, repo, p + q, false),
{
    lemma_prefix_grow(t, repo, p, q);
}

/// One more call, the next command of `plan`, after a run of its start.
pub(crate) proof fn lemma_plan_step(c0: Seq<GitCall>, before: Seq<GitCall>, after: Seq<GitCall>, repo: Seq<char>, plan: Seq<Seq<Seq<char>>>)
    requires
        extends(c0, before),
        ran_prefix(added(c0, before), repo, plan),
        added(c0, before).len() > 0 ==> added(c0, before).last().out is Some,
        added(c0, before).len() < plan.len(),
        one_more(before, after),
        captured(after.last(), repo, plan[added(c0, before).len() as int], None),
    ensures
        extends(c0, after),
        added(c0, after) == added(c0, before).push(after.last()),
        ran_prefix(added(c0, after), repo, plan),
        after.last().out is None ==> ran_plan(added(c0, after), repo, plan, false),
{
    let t0 = added(c0, before);
    assert(after.take(c0.len() as int) =~= before.take(c0.len() as int));
    assert(added(c0, after) =~= t0.push(after.last()));
    let t1 = t0.push(after.last());
    assert forall|k: int| 0 <= k < t1.len() implies captured(#[trigger] t1[k], repo, plan[k], None) by {
        if k < t0.len() {
            assert(t1[k] == t0[k]);
        }
    }
    assert forall|k: int| 0 <= k < t1.len() - 1 implies (#[trigger] t1[k]).out is Some by {
        assert(t1[k] == t0[k]);
        if k == t0.len() - 1 {
            assert(t0[k] == t0.last());
        }
    }
}

/// A single captured call.
pub(crate) proof fn lemma_single(before: Seq<GitCall>, after: Seq<GitCall>, repo: Seq<char>, args: Seq<Seq<char>>)
    requires
        one_more(before, after),
        captured(after.last(), repo, args, None),
    ensures
        extends(before, after),
        added(before, after) == seq![after.last()],
        ran_plan(added(before, after), repo, seq![args], after.last().out is Some),
{
    assert(after.take(before.len() as int) =~= before);
    assert(added(before, after) =~= seq![after.last()]);
    lemma_ran_one(after.last(), repo, args);
}

/// One captured call runs the plan made of its command.
pub(crate) proof fn lemma_ran_one(c: GitCall, repo: Seq<char>, args: Seq<Seq<char>>)
    requires
        captured(c, repo, args, None),
    ensures
        ran_plan(seq![c], repo, seq![args], c.out is Some),
{
    assert(seq![c].last() == c);
}

/// Every blob of the history: `rev-list --objects --all | cat-file --batch-check`.
pub fn history_objects<G: Git>(g: &mut GitLog<G>, repo: &str) -> (r: Result<Vec<ObjectRec>, ToolError>)
    ensures
        extends(old(g).calls(), final(g).calls()),
        history_calls(added(old(g).calls(), final(g).calls()), repo@, r),
{
    let ghost c0 = g.calls();
    let list_args = ["rev-list", "--objects", "--all"];
    assert(str_views(list_args@) =~= rev_list_args());
    let listing = match g.run(Some(repo), list_args.as_slice(), None) {
        Ok(l) => l,
        Err(e) => {
            assert(added(c0, g.calls()) =~= seq![g.calls().last()]);
            assert(g.calls().take(c0.len() as int) =~= c0);
            return Err(e);
        },
    };
    let ghost c1 = g.calls();
    let check_args = ["cat-file", "--batch-check=%(objecttype) %(objectname) %(objectsize) %(rest)"];
    assert(str_views(check_args@) =~= batch_check_args());
    let res = g.run(Some(repo), check_args.as_slice(), Some(listing.as_slice()));
    proof {
        assert(added(c0, g.calls()) =~= seq![c1.last(), g.calls().last()]);
        assert(g.calls().take(c0.len() as int) =~= c0);
    }
    match res {
        Ok(checked) => Ok(parse_batch_check(checked.as_slice())),
        Err(e) => Err(e),
    }
}

pub open spec fn rev_parse_args(rev: Seq<char>) -> Seq<Seq<char>> {
    seq!["rev-parse"@, "--verify"@, "-q"@, rev]
}

/// `rev-parse --verify -q <rev>`, trimmed: one call of git.
pub fn rev_parse<G: Git>(g: &mut GitLog<G>, repo: &str, rev: &str) -> (r: Result<String, ToolError>)
    ensures
        one_more(old(g).calls(), final(g).calls()),
        captured(final(g).calls().last(), repo@, rev_parse_args(rev@), None),
        match final(g).calls().last().out {
            Some(o) => r matches Ok(s) && s@ == trim(utf8_lossy(o)),
            None => r is Err,
        },
{
    let args = ["rev-parse", "--verify", "-q", rev];
    assert(str_views(args@) =~= rev_parse_args(rev@));
    match g.run(Some(repo), args.as_slice(), None) {
        Ok(out) => {
            let t = text(out);
            Ok(trim_text(t.as_str()))
        },
        Err(e) => Err(e),
    }
}

/// The tree object of `rev` (`<rev>^{tree}`): one call of git.
pub fn tree_of<G: Git>(g: &mut GitLog<G>, repo: &str, rev: &str) -> (r: Result<String, ToolError>)
    ensures
        one_more(old(g).calls(), final(g).calls()),
        captured(final(g).calls().last(), repo@, rev_parse_args(rev@ + "^{tree}"@), None),
        match final(g).calls().last().out {
            Some(o) => r matches Ok(s) && s@ == trim(utf8_lossy(o)),
            None => r is Err,
        },
{
    let mut spec = rev.to_owned();
    crate::text::push_str(&mut spec, "^{tree}");
    rev_parse(g, repo, spec.as_str())
}

pub open spec fn exists_args(oid: Seq<char>) -> Seq<Seq<char>> {
    seq!["cat-file"@, "-e"@, oid]
}

/// Whether the object exists (`cat-file -e` succeeds): one call of git.
pub fn object_exists<G: Git>(g: &mut GitLog<G>, repo: &str, oid: &Oid) -> (b: bool)
    ensures
        one_more(old(g).calls(), final(g).calls()),
        captured(final(g).calls().last(), repo@, exists_args(oid@), None),
        b == final(g).calls().last().out is Some,
{
    let args = ["cat-file", "-e", oid.as_str()];
    assert(str_views(args@) =~= exists_args(oid@));
    g.run(Some(repo), args.as_slice(), None).is_ok()
}

pub open spec fn config_args(key: Seq<char>) -> Seq<Seq<char>> {
    seq!["config"@, "--get"@, key]
}

/// The value a `config --get` call gives: `None` when git failed (the key is
/// unset) or printed only white space, else its trimmed output.
pub open spec fn config_value(out: Option<Seq<u8>>) -> Option<Seq<char>> {
    match out {
        Some(o) => if trim(utf8_lossy(o)).len() > 0 {
            Some(trim(utf8_lossy(o)))
        } else {
            None
        },
        None => None,
    }
}

/// A configuration value: one call of git; `None` when unset or empty.
pub fn config_get<G: Git>(g: &mut GitLog<G>, repo: &str, key: &str) -> (r: Result<Option<String>, ToolError>)
    ensures
        one_more(old(g).calls(), final(g).calls()),
        captured(final(g).calls().last(), repo@, config_args(key@), None),
        r matches Ok(v) && match v {
            Some(s) => config_value(final(g).calls().last().out) == Some(s@),
            None => config_value(final(g).calls().last().out) is None,
        },
{
    let args = ["config", "--get", key];
    assert(str_views(args@) =~= config_args(key@));
    match g.run(Some(repo), args.as_slice(), None) {
        Ok(b) => {
            let t = text(b);
            let v = trim_text(t.as_str());
            if v.as_str().is_empty() {
                Ok(None)
            } else {
                Ok(Some(v))
            }
        },
        Err(_) => Ok(None),
    }
}

pub open spec fn git_dir_args() -> Seq<Seq<char>> {
    seq!["rev-parse"@, "--git-dir"@]
}

/// Whether `path` is a git repository: an existing directory (`is_dir`)
/// in which `rev-parse --git-dir` succeeds. Without a directory git is not
/// called.
pub fn is_repo<G: Git>(g: &mut GitLog<G>, path: &str, is_dir: bool) -> (b: bool)
    ensures
        !is_dir ==> !b && final(g).calls() == old(g).calls(),
        is_dir ==> one_more(old(g).calls(), final(g).calls()) && captured(
            final(g).calls().last(),
            path@,
            git_dir_args(),
            None,
        ) && b == final(g).calls().last().out is Some,
{
    if !is_dir {
        return false;
    }
    let args = ["rev-parse", "--git-dir"];
    assert(str_views(args@) =~= git_dir_args());
    g.run(Some(path), args.as_slice(), None).is_ok()
}

/// How a git command is shown: "git" and its arguments.
pub open spec fn command_text(args: Seq<Seq<char>>) -> Seq<char> {
    "git "@ + joined(args, " "@)
}

/// The command line `git <args>` as text, for messages.
pub fn describe(args: &[&str]) -> (r: String)
    ensures
        r@ == command_text(args@.map_values(|a: &str| a@)),
{
    let ghost av = args@.map_values(|a: &str| a@);
    let mut r = String::new();
    push_str(&mut r, "git ");
    let ghost head = r@;
    let mut i: usize = 0;
    while i < args.len()
        invariant
            i <= args.len(),
            av == args@.map_values(|a: &str| a@),
            head == "git "@,
            r@ == head + joined(av.take(i as int), " "@),
        decreases args.len() - i,
    {
        let ghost before = r@;
        if i > 0 {
            push_str(&mut r, " ");
        }
        push_str(&mut r, args[i]);
        proof {
            let t = av.take(i + 1);
            assert(t.drop_last() =~= av.take(i as int));
            assert(t.last() == args@[i as int]@);
            if i == 0 {
                assert(joined(av.take(i as int), " "@) =~= Seq::<char>::empty());
                assert(r@ =~= head + t[0]);
            } else {
                assert(r@ =~= head + (joined(av.take(i as int), " "@) + " "@ + t.last()));
            }
        }
        i = i + 1;
    }
    assert(av.take(i as int) =~= av);
    r
}

/// The lines of `s` as `str::lines` yields them: `text_lines` without the
/// empty piece after a final newline.
pub open spec fn std_lines(s: Seq<char>) -> Seq<Seq<char>> {
    let t = text_lines(s);
    if t.len() > 0 && t.last().len() == 0 {
        t.drop_last()
    } else {
        t
    }
}

/// The last (at most five) lines of what git wrote to its error output,
/// joined and trimmed: what a failure message quotes.
pub open spec fn error_tail(err: Seq<char>) -> Seq<char> {
    let ls = std_lines(err);
    let k = if ls.len() > 5 {
        ls.len() - 5
    } else {
        0
    };
    trim(joined(ls.skip(k), seq!['\n']))
}

/// The tail of git's error output quoted in failure messages.
pub fn stderr_tail(err: &[u8]) -> (r: String)
    ensures
        r@ == error_tail(utf8_lossy(err@)),
{
    let t = lossy(err);
    let ls = lines_of(t.as_str());
    let ghost lv = ls@.map_values(|v: Vec<char>| v@);
    proof {
        lemma_split_nonempty(t@, '\n');
    }
    let mut n = ls.len();
    if n > 0 && ls[n - 1].len() == 0 {
        n = n - 1;
    }
    let ghost sl = std_lines(t@);
    assert(sl =~= lv.take(n as int));
    let k: usize = if n > 5 {
        n - 5
    } else {
        0
    };
    let mut kept: Vec<String> = Vec::new();
    let mut i: usize = k;
    while i < n
        invariant
            k <= i <= n <= ls.len(),
            lv == ls@.map_values(|v: Vec<char>| v@),
            kept@.map_values(|s: String| s@) == lv.subrange(k as int, i as int),
        decreases n - i,
    {
        let s = string_of(ls[i].as_slice());
        let ghost before = kept@;
        kept.push(s);
        assert(kept@.map_values(|s: String| s@) =~= before.map_values(|s: String| s@).push(lv[i as int]));
        assert(lv.subrange(k as int, i + 1) =~= lv.subrange(k as int, i as int).push(lv[i as int]));
        i = i + 1;
    }
    assert(lv.subrange(k as int, n as int) =~= sl.skip(k as int));
    let joined_text = join_text(&kept, "\n");
    assert(seq!['\n'] =~= "\n"@) by {
        reveal_strlit("\n");
    }
    trim_text(joined_text.as_str())
}

} // verus!
