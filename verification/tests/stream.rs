use pomona::model::{Oid, OidSet};
use pomona::rewrite::stream::{filter_stream, StreamError};

fn run(input: &[u8], remove: &[&str]) -> (Vec<u8>, usize) {
    let mut set = OidSet::new();
    for s in remove {
        set.insert(Oid::new(s));
    }
    let mut out = Vec::new();
    let n = filter_stream(input, &set, &mut out).unwrap();
    (out, n)
}

#[test]
fn rewrites_matching_m_lines_to_d() {
    let input = b"commit refs/heads/main\nmark :1\ncommitter t <t@t.io> 1 +0000\ndata 3\nmsg\nM 100644 aaaa app.tar.gz\nM 100644 bbbb \"pkg dir/app.tar.gz\"\nM 100644 cccc keep.go\n\n";
    let (out, n) = run(input, &["aaaa", "bbbb"]);
    assert_eq!(n, 2);
    let s = String::from_utf8(out).unwrap();
    assert!(s.contains("\nD app.tar.gz\n"));
    assert!(s.contains("\nD \"pkg dir/app.tar.gz\"\n"));
    assert!(s.contains("\nM 100644 cccc keep.go\n"));
}

#[test]
fn data_block_is_copied_verbatim_even_if_it_looks_like_commands() {
    let body = b"M 100644 aaaa app.tar.gz\nD nope\n";
    let mut input = Vec::new();
    input.extend_from_slice(format!("commit refs/heads/x\ndata {}\n", body.len()).as_bytes());
    input.extend_from_slice(body);
    input.extend_from_slice(b"\nM 100644 aaaa app.tar.gz\n");
    let (out, n) = run(&input, &["aaaa"]);
    assert_eq!(n, 1);
    let s = String::from_utf8(out).unwrap();
    let expected = format!(
        "data {}\nM 100644 aaaa app.tar.gz\nD nope\n\nD app.tar.gz\n",
        body.len()
    );
    assert!(s.contains(&expected), "{s}");
}

#[test]
fn truncated_data_block_is_an_error() {
    let set = OidSet::new();
    let mut out = Vec::new();
    assert!(filter_stream(b"data 10\nshort", &set, &mut out).is_err());
}

#[test]
fn marks_and_gitlinks_untouched() {
    let input = b"M 100644 :7 x\nM 160000 aaaa sub\nreset refs/heads/y\nfrom :3\ndone\n";
    let (out, n) = run(input, &["aaaa"]);
    assert_eq!(n, 1);
    let s = String::from_utf8(out).unwrap();
    assert!(s.contains("M 100644 :7 x\n"));
    assert!(s.contains("D sub\n"));
    assert!(s.ends_with("done\n"));
}

#[test]
fn delimited_data_block() {
    let input = b"data <<EOT\nM 100644 aaaa fake\nEOT\n\nM 100644 aaaa real\n";
    let (out, n) = run(input, &["aaaa"]);
    assert_eq!(n, 1);
    assert!(
        String::from_utf8(out)
            .unwrap()
            .contains("M 100644 aaaa fake\nEOT\n\nD real\n")
    );
}

#[test]
fn nothing_to_remove_gives_the_stream_back() {
    let input = b"commit refs/heads/main\ndata 4\nab\ncM 100644 aaaa x\nM 100644 bbbb y\ndone\n";
    let (out, n) = run(input, &[]);
    assert_eq!(n, 0);
    assert_eq!(out, input.to_vec());
}

#[test]
fn each_stream_error() {
    let set = OidSet::new();
    let mut out = Vec::new();
    assert_eq!(filter_stream(b"data x1\nabc", &set, &mut out), Err(StreamError::BadLength));
    assert_eq!(out, b"data x1\n".to_vec());
    let mut out = Vec::new();
    assert_eq!(filter_stream(b"data \xff\n", &set, &mut out), Err(StreamError::DataNotUtf8));
    let mut out = Vec::new();
    assert_eq!(filter_stream(b"data <<END\nline\n", &set, &mut out), Err(StreamError::Truncated));
    assert_eq!(out, b"data <<END\nline\n".to_vec());
    let mut out = Vec::new();
    assert_eq!(filter_stream(b"data 10\nshort", &set, &mut out), Err(StreamError::Truncated));
    assert_eq!(out, b"data 10\nshort".to_vec());
}

#[test]
fn output_is_appended() {
    let set = OidSet::new();
    let mut out = b"head:".to_vec();
    assert_eq!(filter_stream(b"done\n", &set, &mut out), Ok(0));
    assert_eq!(out, b"head:done\n".to_vec());
}

#[test]
fn last_line_without_newline_is_rewritten_too() {
    let (out, n) = run(b"M 100644 aaaa last", &["aaaa"]);
    assert_eq!(n, 1);
    assert_eq!(out, b"D last".to_vec());
}
