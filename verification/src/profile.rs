//! What counts as a package and what as source: a size threshold and two
//! lists of suffixes.
use vstd::prelude::*;
use crate::size::{parse_size, size_of_text, SizeError};
use crate::strset::views;
use crate::text::chars_of;

verus! {

/// Built-in archive / package / disk-image suffixes (no images, PDFs,
/// databases or shared libraries).
pub open spec fn default_archive_suffixes() -> Seq<Seq<char>> {
    seq![
        ".tar"@,
        ".tar.gz"@,
        ".tgz"@,
        ".tar.bz2"@,
        ".tbz2"@,
        ".tar.xz"@,
        ".txz"@,
        ".tar.zst"@,
        ".tzst"@,
        ".tar.lz4"@,
        ".zip"@,
        ".jar"@,
        ".war"@,
        ".ear"@,
        ".7z"@,
        ".rar"@,
        ".gz"@,
        ".bz2"@,
        ".xz"@,
        ".zst"@,
        ".lz4"@,
        ".iso"@,
        ".img"@,
        ".qcow2"@,
        ".ova"@,
        ".vmdk"@,
        ".squashfs"@,
        ".rpm"@,
        ".deb"@,
        ".whl"@,
        ".apk"@,
        ".msi"@,
        ".pkg"@,
        ".dmg"@,
        ".nupkg"@,
        ".gem"@,
    ]
}

/// Built-in source suffixes and file names.
pub open spec fn default_source_suffixes() -> Seq<Seq<char>> {
    seq![
        ".go"@,
        ".mod"@,
        ".sum"@,
        ".proto"@,
        ".py"@,
        ".pyx"@,
        ".rs"@,
        ".java"@,
        ".sql"@,
        ".yaml"@,
        ".yml"@,
        ".json"@,
        ".toml"@,
        ".md"@,
        ".txt"@,
        ".sh"@,
        ".cfg"@,
        ".ini"@,
        ".tmpl"@,
        ".tpl"@,
        "Makefile"@,
        "Dockerfile"@,
    ]
}

/// The built-in archive suffixes, as strings.
pub fn archive_suffix_list() -> (v: Vec<String>)
    ensures
        views(v@) == default_archive_suffixes(),
{
    let mut v: Vec<String> = Vec::new();
    v.push(".tar".to_owned());
    v.push(".tar.gz".to_owned());
    v.push(".tgz".to_owned());
    v.push(".tar.bz2".to_owned());
    v.push(".tbz2".to_owned());
    v.push(".tar.xz".to_owned());
    v.push(".txz".to_owned());
    v.push(".tar.zst".to_owned());
    v.push(".tzst".to_owned());
    v.push(".tar.lz4".to_owned());
    v.push(".zip".to_owned());
    v.push(".jar".to_owned());
    v.push(".war".to_owned());
    v.push(".ear".to_owned());
    v.push(".7z".to_owned());
    v.push(".rar".to_owned());
    v.push(".gz".to_owned());
    v.push(".bz2".to_owned());
    v.push(".xz".to_owned());
    v.push(".zst".to_owned());
    v.push(".lz4".to_owned());
    v.push(".iso".to_owned());
    v.push(".img".to_owned());
    v.push(".qcow2".to_owned());
    v.push(".ova".to_owned());
    v.push(".vmdk".to_owned());
    v.push(".squashfs".to_owned());
    v.push(".rpm".to_owned());
    v.push(".deb".to_owned());
    v.push(".whl".to_owned());
    v.push(".apk".to_owned());
    v.push(".msi".to_owned());
    v.push(".pkg".to_owned());
    v.push(".dmg".to_owned());
    v.push(".nupkg".to_owned());
    v.push(".gem".to_owned());
    assert(views(v@) =~= default_archive_suffixes());
    v
}

/// The built-in source suffixes, as strings.
pub fn source_suffix_list() -> (v: Vec<String>)
    ensures
        views(v@) == default_source_suffixes(),
{
    let mut v: Vec<String> = Vec::new();
    v.push(".go".to_owned());
    v.push(".mod".to_owned());
    v.push(".sum".to_owned());
    v.push(".proto".to_owned());
    v.push(".py".to_owned());
    v.push(".pyx".to_owned());
    v.push(".rs".to_owned());
    v.push(".java".to_owned());
    v.push(".sql".to_owned());
    v.push(".yaml".to_owned());
    v.push(".yml".to_owned());
    v.push(".json".to_owned());
    v.push(".toml".to_owned());
    v.push(".md".to_owned());
    v.push(".txt".to_owned());
    v.push(".sh".to_owned());
    v.push(".cfg".to_owned());
    v.push(".ini".to_owned());
    v.push(".tmpl".to_owned());
    v.push(".tpl".to_owned());
    v.push("Makefile".to_owned());
    v.push("Dockerfile".to_owned());
    assert(views(v@) =~= default_source_suffixes());
    v
}

/// The rules that recognise packages: a size threshold and two suffix lists.
/// What is particular to a site goes in a configuration file, not in code.
#[derive(Debug, PartialEq, Eq)]
pub struct Profile {
    pub min_size: String,
    pub archive_suffixes: Vec<String>,
    pub source_suffixes: Vec<String>,
}

/// The fields a configuration file may set; those it leaves out keep
/// their value.
pub struct Overlay {
    pub min_size: Option<String>,
    pub archive_suffixes: Option<Vec<String>>,
    pub source_suffixes: Option<Vec<String>>,
}

pub open spec fn lower_char(c: char) -> char {
    if 'A' <= c <= 'Z' {
        ((c as u32) + 32) as char
    } else {
        c
    }
}

/// `str::to_ascii_lowercase`.
pub open spec fn ascii_lower(s: Seq<char>) -> Seq<char> {
    s.map_values(|c: char| lower_char(c))
}

/// What follows the last '/' (all of `s` when there is none).
pub open spec fn base_name(s: Seq<char>) -> Seq<char>
    decreases s.len(),
{
    if s.len() == 0 {
        s
    } else if s.last() == '/' {
        Seq::empty()
    } else {
        base_name(s.drop_last()).push(s.last())
    }
}

pub open spec fn ends_with(s: Seq<char>, t: Seq<char>) -> bool {
    t.len() <= s.len() && s.skip(s.len() - t.len()) == t
}

/// A pattern starting with '.' matches a suffix of the path; any other
/// pattern matches the file name whole. Case is ignored.
pub open spec fn pattern_matches(pat: Seq<char>, path: Seq<char>) -> bool {
    let p = ascii_lower(pat);
    let l = ascii_lower(path);
    if p.len() > 0 && p[0] == '.' {
        ends_with(l, p)
    } else {
        base_name(l) == p
    }
}

pub open spec fn suffix_hit(list: Seq<Seq<char>>, path: Seq<char>) -> bool {
    exists|i: int| 0 <= i < list.len() && pattern_matches(#[trigger] list[i], path)
}

pub open spec fn default_min_size() -> Seq<char> {
    "50M"@
}

pub(crate) fn lower_chars(s: &str) -> (r: Vec<char>)
    ensures
        r@ == ascii_lower(s@),
{
    let cs = chars_of(s);
    let mut r: Vec<char> = Vec::new();
    let mut i: usize = 0;
    while i < cs.len()
        invariant
            i <= cs.len(),
            cs@ == s@,
            r@ =~= ascii_lower(s@).take(i as int),
        decreases cs.len() - i,
    {
        let c = cs[i];
        let l = if 'A' <= c && c <= 'Z' {
            ((c as u32) + 32) as u8 as char
        } else {
            c
        };
        assert(l == lower_char(c));
        r.push(l);
        i = i + 1;
    }
    r
}

/// Start of the file name: one past the last '/'.
fn base_start(l: &Vec<char>) -> (k: usize)
    ensures
        k <= l.len(),
        l@.skip(k as int) == base_name(l@),
{
    let mut k: usize = l.len();
    assert(l@.take(k as int) =~= l@);
    assert(l@.skip(k as int) =~= Seq::<char>::empty());
    assert(base_name(l@) =~= base_name(l@.take(k as int)) + l@.skip(k as int));
    while k > 0 && l[k - 1] != '/'
        invariant
            k <= l.len(),
            base_name(l@) == base_name(l@.take(k as int)) + l@.skip(k as int),
        decreases k,
    {
        let ghost t = l@.take(k as int);
        assert(t.drop_last() =~= l@.take(k - 1));
        assert(base_name(t) == base_name(t.drop_last()).push(t.last()));
        assert(l@.skip(k - 1) =~= seq![l@[k - 1]] + l@.skip(k as int));
        assert(base_name(l@.take(k - 1)) + l@.skip(k - 1) =~= base_name(t.drop_last()).push(t.last()) + l@.skip(
            k as int,
        ));
        k = k - 1;
    }
    proof {
        let t = l@.take(k as int);
        if k == 0 {
            assert(base_name(t) =~= Seq::<char>::empty());
        } else {
            assert(t.last() == '/');
            assert(base_name(t) =~= Seq::<char>::empty());
        }
        assert(base_name(l@) =~= l@.skip(k as int));
    }
    k
}

/// Whether `pat` matches the lower-cased path `l` whose file name starts at `b`.
fn pattern_hits(pat: &str, l: &Vec<char>, b: usize, Ghost(path): Ghost<Seq<char>>) -> (hit: bool)
    requires
        l@ == ascii_lower(path),
        b <= l.len(),
        l@.skip(b as int) == base_name(l@),
    ensures
        hit == pattern_matches(pat@, path),
{
    let p = lower_chars(pat);
    if p.len() > 0 && p[0] == '.' {
        if p.len() > l.len() {
            return false;
        }
        let off = l.len() - p.len();
        let mut j: usize = 0;
        while j < p.len()
            invariant
                j <= p.len(),
                off + p.len() == l.len(),
                p@ == ascii_lower(pat@),
                l@ == ascii_lower(path),
                p.len() > 0 && p@[0] == '.',
                forall|k: int| 0 <= k < j ==> l@[off + k] == p@[k],
            decreases p.len() - j,
        {
            if l[off + j] != p[j] {
                assert(l@.skip(off as int)[j as int] != p@[j as int]);
                assert(l@.skip(off as int) != p@);
                assert(!ends_with(l@, p@));
                return false;
            }
            j = j + 1;
        }
        assert(l@.skip(off as int) =~= p@);
        true
    } else {
        if p.len() != l.len() - b {
            assert(l@.skip(b as int).len() != p@.len());
            return false;
        }
        let mut j: usize = 0;
        while j < p.len()
            invariant
                j <= p.len(),
                b + p.len() == l.len(),
                p@ == ascii_lower(pat@),
                l@ == ascii_lower(path),
                !(p.len() > 0 && p@[0] == '.'),
                l@.skip(b as int) == base_name(l@),
                forall|k: int| 0 <= k < j ==> l@[b + k] == p@[k],
            decreases p.len() - j,
        {
            if l[b + j] != p[j] {
                assert(l@.skip(b as int)[j as int] != p@[j as int]);
                assert(l@.skip(b as int) != p@);
                return false;
            }
            j = j + 1;
        }
        assert(l@.skip(b as int) =~= p@);
        true
    }
}

/// Whether any pattern of `list` matches `path`.
fn suffix_hit_exec(list: &Vec<String>, path: &str) -> (hit: bool)
    ensures
        hit == suffix_hit(views(list@), path@),
{
    let l = lower_chars(path);
    let b = base_start(&l);
    let mut i: usize = 0;
    while i < list.len()
        invariant
            i <= list.len(),
            l@ == ascii_lower(path@),
            b <= l.len(),
            l@.skip(b as int) == base_name(l@),
            forall|k: int| 0 <= k < i ==> !pattern_matches(#[trigger] views(list@)[k], path@),
        decreases list.len() - i,
    {
        if pattern_hits(list[i].as_str(), &l, b, Ghost(path@)) {
            assert(pattern_matches(views(list@)[i as int], path@));
            return true;
        }
        i = i + 1;
    }
    false
}

fn copy_list(v: &Vec<String>) -> (r: Vec<String>)
    ensures
        views(r@) == views(v@),
{
    let mut r: Vec<String> = Vec::new();
    let mut i: usize = 0;
    while i < v.len()
        invariant
            i <= v.len(),
            views(r@) =~= views(v@).take(i as int),
        decreases v.len() - i,
    {
        let c = v[i].clone();
        let ghost before = r@;
        r.push(c);
        assert(views(r@) =~= views(before).push(c@));
        i = i + 1;
    }
    r
}

impl Profile {
    /// The built-in profile: 50M, the built-in archive and source lists.
    pub fn default() -> (p: Profile)
        ensures
            p.min_size@ == default_min_size(),
            views(p.archive_suffixes@) == default_archive_suffixes(),
            views(p.source_suffixes@) == default_source_suffixes(),
    {
        Profile {
            min_size: "50M".to_owned(),
            archive_suffixes: archive_suffix_list(),
            source_suffixes: source_suffix_list(),
        }
    }

    /// The built-in profile with `o` laid over it.
    pub fn parse(o: Overlay) -> (r: Result<Profile, SizeError>)
        ensures
            r is Ok <==> (o.min_size is None || size_of_text(o.min_size->0@) is Ok),
            r matches Ok(p) ==> {
                &&& p.min_size@ == (match o.min_size {
                    Some(m) => m@,
                    None => default_min_size(),
                })
                &&& views(p.archive_suffixes@) == (match o.archive_suffixes {
                    Some(v) => views(v@),
                    None => default_archive_suffixes(),
                })
                &&& views(p.source_suffixes@) == (match o.source_suffixes {
                    Some(v) => views(v@),
                    None => default_source_suffixes(),
                })
            },
            match o.min_size {
                Some(m) => size_of_text(m@) is Err ==> r == Err::<Profile, SizeError>(size_of_text(m@)->Err_0),
                None => true,
            },
    {
        Profile::default().apply_overlay(o)
    }

    /// Overrides only the fields the overlay sets; a threshold that is not
    /// a size is refused.
    pub fn apply_overlay(self, o: Overlay) -> (r: Result<Profile, SizeError>)
        ensures
            match o.min_size {
                Some(m) => size_of_text(m@) is Err ==> r == Err::<Profile, SizeError>(
                    size_of_text(m@)->Err_0,
                ),
                None => true,
            },
            r is Ok <==> (o.min_size is None || size_of_text(o.min_size->0@) is Ok),
            r matches Ok(p) ==> {
                &&& p.min_size@ == (match o.min_size {
                    Some(m) => m@,
                    None => self.min_size@,
                })
                &&& views(p.archive_suffixes@) == (match o.archive_suffixes {
                    Some(v) => views(v@),
                    None => views(self.archive_suffixes@),
                })
                &&& views(p.source_suffixes@) == (match o.source_suffixes {
                    Some(v) => views(v@),
                    None => views(self.source_suffixes@),
                })
            },
    {
        let mut p = self;
        if let Some(v) = o.min_size {
            match parse_size(v.as_str()) {
                Ok(_) => {},
                Err(e) => {
                    return Err(e);
                },
            }
            p.min_size = v;
        }
        if let Some(v) = o.archive_suffixes {
            p.archive_suffixes = v;
        }
        if let Some(v) = o.source_suffixes {
            p.source_suffixes = v;
        }
        Ok(p)
    }

    pub fn min_size_bytes(&self) -> (r: Result<u64, SizeError>)
        ensures
            r == size_of_text(self.min_size@),
    {
        parse_size(self.min_size.as_str())
    }

    pub fn is_archive(&self, path: &str) -> (b: bool)
        ensures
            b == suffix_hit(views(self.archive_suffixes@), path@),
    {
        suffix_hit_exec(&self.archive_suffixes, path)
    }

    pub fn is_source(&self, path: &str) -> (b: bool)
        ensures
            b == suffix_hit(views(self.source_suffixes@), path@),
    {
        suffix_hit_exec(&self.source_suffixes, path)
    }
}

impl Clone for Profile {
    fn clone(&self) -> (p: Profile)
        ensures
            p.min_size@ == self.min_size@,
            views(p.archive_suffixes@) == views(self.archive_suffixes@),
            views(p.source_suffixes@) == views(self.source_suffixes@),
    {
        Profile {
            min_size: self.min_size.clone(),
            archive_suffixes: copy_list(&self.archive_suffixes),
            source_suffixes: copy_list(&self.source_suffixes),
        }
    }
}

} // verus!
