//! Filtering a `git fast-export --no-data` stream: file changes that bring
//! back a removed blob become deletions, everything else passes unchanged.
use vstd::prelude::*;
use vstd::utf8::{decode_utf8, encode_utf8, valid_utf8};
use crate::git::{parse_u64, u64_text};
use crate::model::{Oid, OidSet};
use crate::size::{drop_space_back, is_space_exec};
use crate::text::{chars_of, find_byte, find_from, has_prefix, lemma_find_bounds, lemma_find_first, string_of, utf8_str};

verus! {

/// Why a stream could not be filtered.
#[derive(Clone, Copy, Debug, PartialEq, Eq)]
pub enum StreamError {
    /// The length after `data` is not UTF-8.
    DataNotUtf8,
    /// The length after `data` is not a number.
    BadLength,
    /// The stream ends inside a data block.
    Truncated,
}

/// "data "
pub open spec fn data_prefix() -> Seq<u8> {
    seq![100u8, 97u8, 116u8, 97u8, 32u8]
}

/// "M "
pub open spec fn modify_prefix() -> Seq<u8> {
    seq![77u8, 32u8]
}

/// "D "
pub open spec fn delete_prefix() -> Seq<u8> {
    seq![68u8, 32u8]
}

/// End of the line that starts at `i`: just past its newline, or the end of
/// the stream.
pub open spec fn line_end(s: Seq<u8>, i: int) -> int {
    let e = find_from(s, 10u8, i);
    if e < s.len() {
        e + 1
    } else {
        s.len() as int
    }
}

/// `c` without trailing white space (`str::trim_end`).
pub open spec fn trim_end(c: Seq<char>) -> Seq<char> {
    c.take(drop_space_back(c, 0, c.len() as int))
}

/// `line` without one trailing newline.
pub open spec fn without_newline(line: Seq<u8>) -> Seq<u8> {
    if line.len() > 0 && line.last() == 10u8 {
        line.drop_last()
    } else {
        line
    }
}

/// Where a block delimited by `delim` that starts at `j` ends: just past the
/// line that is `delim`; `None` when the stream ends first.
pub open spec fn delimited_end(s: Seq<u8>, j: int, delim: Seq<u8>) -> Option<int>
    decreases s.len() - j,
{
    if j < 0 || j >= s.len() {
        None
    } else {
        let k = line_end(s, j);
        proof {
            lemma_find_bounds(s, 10u8, j);
        }
        if without_newline(s.subrange(j, k)) == delim {
            Some(k)
        } else {
            delimited_end(s, k, delim)
        }
    }
}

/// The data reference and the path (with its newline) of a file change
/// `M <mode> <dataref> <path>`; `None` when the line has fewer parts.
pub open spec fn modify_parts(line: Seq<u8>) -> Option<(Seq<u8>, Seq<u8>)> {
    let rest = line.skip(2);
    let a = find_from(rest, 32u8, 0);
    let b = find_from(rest, 32u8, a + 1);
    if a == rest.len() || b == rest.len() {
        None
    } else {
        Some((rest.subrange(a + 1, b), rest.skip(b + 1)))
    }
}

/// The data reference as text (empty when it is not UTF-8).
pub open spec fn dataref_text(d: Seq<u8>) -> Seq<char> {
    if valid_utf8(d) {
        decode_utf8(d)
    } else {
        Seq::empty()
    }
}

/// The path of a file change that brings back a removed blob, if `line` is one
/// (a mark, `:<n>`, is never one).
pub open spec fn removed_change(line: Seq<u8>, remove: Set<Seq<char>>) -> Option<Seq<u8>> {
    if has_prefix(line, modify_prefix()) {
        match modify_parts(line) {
            Some((d, path)) => {
                let t = dataref_text(d);
                if !(t.len() > 0 && t[0] == ':') && remove.contains(t) {
                    Some(path)
                } else {
                    None
                }
            },
            None => None,
        }
    } else {
        None
    }
}

/// A file change `M <mode> <dataref> <path>` brings back a removed blob
/// exactly when its data reference (not a mark) names a blob to remove,
/// whatever its mode; the path is what follows the data reference.
pub proof fn lemma_change_by_dataref(m: Seq<u8>, d: Seq<u8>, p: Seq<u8>, remove: Set<Seq<char>>)
    requires
        !m.contains(32u8),
        !d.contains(32u8),
        valid_utf8(d),
        !(decode_utf8(d).len() > 0 && decode_utf8(d)[0] == ':'),
    ensures
        removed_change(seq![77u8, 32u8] + m + seq![32u8] + d + seq![32u8] + p, remove) == if remove.contains(
            decode_utf8(d),
        ) {
            Some(p)
        } else {
            None
        },
{
    let line = seq![77u8, 32u8] + m + seq![32u8] + d + seq![32u8] + p;
    let rest = line.skip(2);
    assert(rest =~= m + seq![32u8] + d + seq![32u8] + p);
    assert(line.take(2) =~= seq![77u8, 32u8]);
    let a = m.len() as int;
    let b = a + 1 + d.len();
    assert forall|k: int| 0 <= k < a implies rest[k] != 32u8 by {
        assert(rest[k] == m[k]);
    }
    assert(rest[a] == 32u8);
    lemma_find_first(rest, 32u8, 0, a);
    assert forall|k: int| a + 1 <= k < b implies rest[k] != 32u8 by {
        assert(rest[k] == d[k - a - 1]);
    }
    assert(rest[b] == 32u8);
    lemma_find_first(rest, 32u8, a + 1, b);
    assert(rest.subrange(a + 1, b) =~= d);
    assert(rest.skip(b + 1) =~= p);
}

/// Only file changes are turned into deletions: a line that does not begin
/// with "M " is never one, and neither is a change whose data reference is a
/// mark (`:<n>`).
pub proof fn lemma_only_blob_changes(line: Seq<u8>, m: Seq<u8>, d: Seq<u8>, p: Seq<u8>, remove: Set<Seq<char>>)
    requires
        !m.contains(32u8),
        !d.contains(32u8),
        valid_utf8(d),
        decode_utf8(d).len() > 0 && decode_utf8(d)[0] == ':',
    ensures
        !(line.len() >= 2 && line[0] == 77u8 && line[1] == 32u8) ==> removed_change(line, remove) is None,
        removed_change(seq![77u8, 32u8] + m + seq![32u8] + d + seq![32u8] + p, remove) is None,
{
    if has_prefix(line, modify_prefix()) {
        assert(line[0] == line.take(2)[0] && line[1] == line.take(2)[1]);
    }
    let l2 = seq![77u8, 32u8] + m + seq![32u8] + d + seq![32u8] + p;
    let rest = l2.skip(2);
    assert(rest =~= m + seq![32u8] + d + seq![32u8] + p);
    let a = m.len() as int;
    let b = a + 1 + d.len();
    assert forall|k: int| 0 <= k < a implies rest[k] != 32u8 by {
        assert(rest[k] == m[k]);
    }
    lemma_find_first(rest, 32u8, 0, a);
    assert forall|k: int| a + 1 <= k < b implies rest[k] != 32u8 by {
        assert(rest[k] == d[k - a - 1]);
    }
    lemma_find_first(rest, 32u8, a + 1, b);
    assert(rest.subrange(a + 1, b) =~= d);
}

/// The filtered stream from position `i` on: what is written, how many file
/// changes became deletions, and the error that stops it, if any. Data blocks
/// (counted, or delimited by `<<delim`) are copied byte for byte.
pub open spec fn filter_from(s: Seq<u8>, i: int, remove: Set<Seq<char>>) -> (Seq<u8>, nat, Option<StreamError>)
    decreases s.len() - i,
{
    if i < 0 || i >= s.len() {
        (Seq::empty(), 0, None)
    } else {
        let j = line_end(s, i);
        proof {
            lemma_find_bounds(s, 10u8, i);
        }
        let line = s.subrange(i, j);
        if has_prefix(line, data_prefix()) {
            let rest = line.skip(5);
            if !valid_utf8(rest) {
                (line, 0, Some(StreamError::DataNotUtf8))
            } else {
                let len_text = trim_end(decode_utf8(rest));
                if has_prefix(len_text, seq!['<', '<']) {
                    match delimited_end(s, j, encode_utf8(len_text.skip(2))) {
                        Some(k) => {
                            proof {
                                lemma_delimited_end_bounds(s, j, encode_utf8(len_text.skip(2)));
                            }
                            let r = filter_from(s, k, remove);
                            (s.subrange(i, k) + r.0, r.1, r.2)
                        },
                        None => (s.skip(i), 0, Some(StreamError::Truncated)),
                    }
                } else {
                    match u64_text(len_text) {
                        Some(n) => if j + n > s.len() {
                            (s.skip(i), 0, Some(StreamError::Truncated))
                        } else {
                            let r = filter_from(s, j + n, remove);
                            (s.subrange(i, j + n) + r.0, r.1, r.2)
                        },
                        None => (line, 0, Some(StreamError::BadLength)),
                    }
                }
            }
        } else {
            let r = filter_from(s, j, remove);
            match removed_change(line, remove) {
                Some(path) => (delete_prefix() + path + r.0, r.1 + 1, r.2),
                None => (line + r.0, r.1, r.2),
            }
        }
    }
}

pub proof fn lemma_delimited_end_bounds(s: Seq<u8>, j: int, delim: Seq<u8>)
    ensures
        delimited_end(s, j, delim) matches Some(k) ==> j < k <= s.len(),
    decreases s.len() - j,
{
    if 0 <= j < s.len() {
        lemma_find_bounds(s, 10u8, j);
        let k = line_end(s, j);
        if without_newline(s.subrange(j, k)) != delim {
            lemma_delimited_end_bounds(s, k, delim);
        }
    }
}

/// At most one deletion per byte of the stream.
pub proof fn lemma_rewrites_bounded(s: Seq<u8>, i: int, remove: Set<Seq<char>>)
    requires
        0 <= i,
    ensures
        filter_from(s, i, remove).1 <= if i < s.len() {
            s.len() - i
        } else {
            0
        },
    decreases s.len() - i,
{
    if i < s.len() {
        lemma_find_bounds(s, 10u8, i);
        let j = line_end(s, i);
        let line = s.subrange(i, j);
        if has_prefix(line, data_prefix()) {
            let rest = line.skip(5);
            if valid_utf8(rest) {
                let len_text = trim_end(decode_utf8(rest));
                if has_prefix(len_text, seq!['<', '<']) {
                    lemma_delimited_end_bounds(s, j, encode_utf8(len_text.skip(2)));
                    match delimited_end(s, j, encode_utf8(len_text.skip(2))) {
                        Some(k) => lemma_rewrites_bounded(s, k, remove),
                        None => {},
                    }
                } else {
                    match u64_text(len_text) {
                        Some(n) => if j + n <= s.len() {
                            lemma_rewrites_bounded(s, j + n, remove);
                        },
                        None => {},
                    }
                }
            }
        } else {
            lemma_rewrites_bounded(s, j, remove);
        }
    }
}

/// With nothing to remove the filter changes nothing: it rewrites no line,
/// and what it writes is the stream itself when no error stops it (up to
/// the error otherwise, a prefix of the stream).
pub proof fn lemma_filter_without_removals(s: Seq<u8>, i: int)
    requires
        0 <= i <= s.len(),
    ensures
        filter_from(s, i, Set::empty()).1 == 0,
        filter_from(s, i, Set::empty()).2 is None ==> filter_from(s, i, Set::empty()).0 == s.skip(i),
        filter_from(s, i, Set::empty()).0.len() <= s.len() - i,
        filter_from(s, i, Set::empty()).0 == s.skip(i).take(filter_from(s, i, Set::empty()).0.len() as int),
    decreases s.len() - i,
{
    let rm = Set::<Seq<char>>::empty();
    if i == s.len() {
        assert(s.skip(i) =~= Seq::<u8>::empty());
        assert(filter_from(s, i, rm).0 =~= s.skip(i).take(0));
    } else {
        lemma_find_bounds(s, 10u8, i);
        let j = line_end(s, i);
        let line = s.subrange(i, j);
        if has_prefix(line, data_prefix()) {
            let rest = line.skip(5);
            if !valid_utf8(rest) {
                assert(line =~= s.skip(i).take(line.len() as int));
            } else {
                let len_text = trim_end(decode_utf8(rest));
                if has_prefix(len_text, seq!['<', '<']) {
                    lemma_delimited_end_bounds(s, j, encode_utf8(len_text.skip(2)));
                    match delimited_end(s, j, encode_utf8(len_text.skip(2))) {
                        Some(k) => {
                            lemma_filter_without_removals(s, k);
                            let r = filter_from(s, k, rm);
                            assert(s.subrange(i, k) + s.skip(k) =~= s.skip(i));
                            assert(s.subrange(i, k) + r.0 =~= s.skip(i).take((k - i) + r.0.len()));
                        },
                        None => {
                            assert(s.skip(i) =~= s.skip(i).take(s.skip(i).len() as int));
                        },
                    }
                } else {
                    match u64_text(len_text) {
                        Some(n) => if j + n > s.len() {
                            assert(s.skip(i) =~= s.skip(i).take(s.skip(i).len() as int));
                        } else {
                            lemma_filter_without_removals(s, j + n);
                            let r = filter_from(s, j + n, rm);
                            assert(s.subrange(i, j + n) + s.skip(j + n) =~= s.skip(i));
                            assert(s.subrange(i, j + n) + r.0 =~= s.skip(i).take((j + n - i) + r.0.len()));
                        },
                        None => {
                            assert(line =~= s.skip(i).take(line.len() as int));
                        },
                    }
                }
            }
        } else {
            lemma_filter_without_removals(s, j);
            let r = filter_from(s, j, rm);
            assert(removed_change(line, rm) is None);
            assert(line + s.skip(j) =~= s.skip(i));
            assert(line + r.0 =~= s.skip(i).take((j - i) + r.0.len()));
        }
    }
}

/// Appends `b`.
fn push_bytes(out: &mut Vec<u8>, b: &[u8])
    ensures
        final(out)@ == old(out)@ + b@,
{
    let mut i: usize = 0;
    while i < b.len()
        invariant
            i <= b.len(),
            out@ == old(out)@ + b@.take(i as int),
        decreases b.len() - i,
    {
        out.push(b[i]);
        assert(b@.take(i + 1) =~= b@.take(i as int).push(b@[i as int]));
        assert(old(out)@ + b@.take(i + 1) =~= (old(out)@ + b@.take(i as int)).push(b@[i as int]));
        i = i + 1;
    }
    assert(b@.take(i as int) =~= b@);
}

fn bytes_eq(a: &[u8], b: &[u8]) -> (r: bool)
    ensures
        r == (a@ == b@),
{
    if a.len() != b.len() {
        return false;
    }
    let mut i: usize = 0;
    while i < a.len()
        invariant
            i <= a.len() == b.len(),
            a@.take(i as int) =~= b@.take(i as int),
        decreases a.len() - i,
    {
        if a[i] != b[i] {
            return false;
        }
        assert(a@.take(i + 1) =~= a@.take(i as int).push(a@[i as int]));
        assert(b@.take(i + 1) =~= b@.take(i as int).push(b@[i as int]));
        i = i + 1;
    }
    assert(a@ =~= a@.take(i as int));
    assert(b@ =~= b@.take(i as int));
    true
}

fn next_line_end(s: &[u8], i: usize) -> (j: usize)
    requires
        i < s.len(),
    ensures
        j == line_end(s@, i as int),
        i < j <= s.len(),
{
    proof {
        lemma_find_bounds(s@, 10u8, i as int);
    }
    let e = find_byte(s, 10u8, i);
    if e < s.len() {
        e + 1
    } else {
        s.len()
    }
}

/// `trim_end` on the characters of `t`.
fn trim_end_chars(t: &str) -> (r: Vec<char>)
    ensures
        r@ == trim_end(t@),
{
    let cs = chars_of(t);
    let mut b: usize = cs.len();
    while b > 0 && is_space_exec(cs[b - 1])
        invariant
            b <= cs.len(),
            cs@ == t@,
            drop_space_back(cs@, 0, b as int) == drop_space_back(cs@, 0, cs@.len() as int),
        decreases b,
    {
        b = b - 1;
    }
    let r = vstd::slice::slice_to_vec(&cs.as_slice()[0..b]);
    assert(r@ =~= cs@.take(b as int));
    r
}

/// Where the delimited block that starts at `j` ends (see `delimited_end`).
fn find_delimited_end(s: &[u8], j: usize, delim: &[u8]) -> (r: Option<usize>)
    requires
        j <= s.len(),
    ensures
        match r {
            Some(k) => delimited_end(s@, j as int, delim@) == Some(k as int),
            None => delimited_end(s@, j as int, delim@) is None,
        },
{
    let mut k = j;
    while k < s.len()
        invariant
            j <= k <= s.len(),
            delimited_end(s@, k as int, delim@) == delimited_end(s@, j as int, delim@),
        decreases s.len() - k,
    {
        let e = next_line_end(s, k);
        let line = &s[k..e];
        let content = if e > k && s[e - 1] == 10u8 {
            &s[k..e - 1]
        } else {
            line
        };
        assert(line@ =~= s@.subrange(k as int, e as int));
        assert(content@ =~= without_newline(s@.subrange(k as int, e as int)));
        if bytes_eq(content, delim) {
            return Some(e);
        }
        k = e;
    }
    None
}

/// The removed-blob check of one line (see `removed_change`): the start of its
/// path within the line when it is to become a deletion.
fn removed_change_at(line: &[u8], remove: &OidSet) -> (r: Option<usize>)
    ensures
        match r {
            Some(p) => p <= line@.len() && removed_change(line@, remove@) == Some(line@.skip(p as int)),
            None => removed_change(line@, remove@) is None,
        },
{
    if line.len() < 2 || line[0] != 77u8 || line[1] != 32u8 {
        assert(!has_prefix(line@, modify_prefix())) by {
            if line@.len() >= 2 {
                assert(line@.take(2)[0] == line@[0]);
                assert(line@.take(2)[1] == line@[1]);
            }
        }
        return None;
    }
    assert(line@.take(2) =~= modify_prefix());
    let rest = &line[2..line.len()];
    assert(rest@ =~= line@.skip(2));
    proof {
        lemma_find_bounds(rest@, 32u8, 0);
    }
    let a = find_byte(rest, 32u8, 0);
    if a == rest.len() {
        return None;
    }
    proof {
        lemma_find_bounds(rest@, 32u8, a + 1);
    }
    let b = find_byte(rest, 32u8, a + 1);
    if b == rest.len() {
        return None;
    }
    let d = &rest[a + 1..b];
    assert(d@ =~= rest@.subrange(a + 1, b as int));
    let t: Vec<char> = match utf8_str(d) {
        Some(x) => chars_of(x),
        None => Vec::new(),
    };
    assert(t@ =~= dataref_text(d@));
    if t.len() > 0 && t[0] == ':' {
        return None;
    }
    let name = string_of(t.as_slice());
    if remove.contains(&Oid::new(name.as_str())) {
        assert(line@.skip(2 + b + 1) =~= rest@.skip(b + 1));
        Some(2 + b + 1)
    } else {
        None
    }
}

/// Filters a `fast-export` stream, appending the result to `out`: each file
/// change `M <mode> <sha> <path>` whose blob is in `remove` becomes
/// `D <path>` (a quoted path passes as it is), data blocks are copied byte for
/// byte even where they look like commands. Returns the number of changes
/// rewritten; on an error, what was written up to it stays in `out`.
pub fn filter_stream(input: &[u8], remove: &OidSet, out: &mut Vec<u8>) -> (r: Result<usize, StreamError>)
    ensures
        final(out)@ == old(out)@ + filter_from(input@, 0, remove@).0,
        match filter_from(input@, 0, remove@).2 {
            None => r == Ok::<usize, StreamError>(filter_from(input@, 0, remove@).1 as usize),
            Some(e) => r == Err::<usize, StreamError>(e),
        },
{
    let ghost s = input@;
    let ghost rm = remove@;
    let ghost total = filter_from(s, 0, rm);
    let ghost out0 = out@;
    proof {
        lemma_rewrites_bounded(s, 0, rm);
    }
    let mut i: usize = 0;
    let mut count: usize = 0;
    assert(out@ + total.0 =~= out0 + total.0);
    while i < input.len()
        invariant
            s == input@,
            rm == remove@,
            out0 == old(out)@,
            total == filter_from(s, 0, rm),
            total.1 <= s.len(),
            i <= input.len(),
            out@ + filter_from(s, i as int, rm).0 == out0 + total.0,
            count + filter_from(s, i as int, rm).1 == total.1,
            filter_from(s, i as int, rm).2 == total.2,
        decreases input.len() - i,
    {
        let j = next_line_end(input, i);
        let line = &input[i..j];
        assert(line@ =~= s.subrange(i as int, j as int));
        let ghost here = filter_from(s, i as int, rm);
        let is_data = line.len() >= 5 && line[0] == 100u8 && line[1] == 97u8 && line[2] == 116u8 && line[3] == 97u8
            && line[4] == 32u8;
        proof {
            if is_data {
                assert(line@.take(5) =~= data_prefix());
            } else if line@.len() >= 5 {
                assert(line@.take(5)[0] == line@[0]);
                assert(line@.take(5)[1] == line@[1]);
                assert(line@.take(5)[2] == line@[2]);
                assert(line@.take(5)[3] == line@[3]);
                assert(line@.take(5)[4] == line@[4]);
            }
        }
        if is_data {
            push_bytes(out, line);
            let rest = &line[5..line.len()];
            assert(rest@ =~= line@.skip(5));
            let text = match utf8_str(rest) {
                Some(t) => t,
                None => {
                    assert(here == (line@, 0nat, Some(StreamError::DataNotUtf8)));
                    return Err(StreamError::DataNotUtf8);
                },
            };
            let len_text = trim_end_chars(text);
            if len_text.len() >= 2 && len_text[0] == '<' && len_text[1] == '<' {
                assert(len_text@.take(2) =~= seq!['<', '<']);
                let delim_chars = &len_text.as_slice()[2..len_text.len()];
                let delim = string_of(delim_chars);
                assert(delim@ =~= len_text@.skip(2));
                let delim_bytes = delim.as_str().as_bytes();
                match find_delimited_end(input, j, delim_bytes) {
                    Some(k) => {
                        proof {
                            lemma_delimited_end_bounds(s, j as int, encode_utf8(len_text@.skip(2)));
                        }
                        let block = &input[j..k];
                        assert(block@ =~= s.subrange(j as int, k as int));
                        push_bytes(out, block);
                        assert(line@ + block@ =~= s.subrange(i as int, k as int));
                        i = k;
                    },
                    None => {
                        let tail = &input[j..input.len()];
                        push_bytes(out, tail);
                        assert(line@ + tail@ =~= s.skip(i as int));
                        return Err(StreamError::Truncated);
                    },
                }
            } else {
                proof {
                    if len_text@.len() >= 2 {
                        assert(len_text@.take(2)[0] == len_text@[0]);
                        assert(len_text@.take(2)[1] == len_text@[1]);
                    }
                }
                let n = match parse_u64(len_text.as_slice()) {
                    Some(n) => n,
                    None => {
                        return Err(StreamError::BadLength);
                    },
                };
                if n as u128 > (input.len() - j) as u128 {
                    let tail = &input[j..input.len()];
                    push_bytes(out, tail);
                    assert(line@ + tail@ =~= s.skip(i as int));
                    return Err(StreamError::Truncated);
                }
                let k = j + n as usize;
                let block = &input[j..k];
                assert(block@ =~= s.subrange(j as int, k as int));
                push_bytes(out, block);
                assert(line@ + block@ =~= s.subrange(i as int, k as int));
                i = k;
            }
        } else {
            match removed_change_at(line, remove) {
                Some(p) => {
                    let del = [68u8, 32u8];
                    assert(del@ =~= delete_prefix());
                    push_bytes(out, del.as_slice());
                    let path = &line[p..line.len()];
                    assert(path@ =~= line@.skip(p as int));
                    push_bytes(out, path);
                    count = count + 1;
                },
                None => {
                    push_bytes(out, line);
                },
            }
            i = j;
        }
        proof {
            assert(out@ + filter_from(s, i as int, rm).0 =~= out0 + total.0);
        }
    }
    assert(filter_from(s, i as int, rm).0 =~= Seq::<u8>::empty());
    assert(out@ =~= out0 + total.0);
    Ok(count)
}

} // verus!
