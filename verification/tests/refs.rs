use minigit::error::Error;
use minigit::refs::{
    build_fetch_request, head_file, pack_url, parse_refs_response, ref_file, refs_url,
};
use minigit::text::split_fields;

const MAIN: &str = "8f3d1c2b4a5968778695a4b3c2d1e0f9a8b7c6d5";
const DEV: &str = "0123456789abcdef0123456789abcdef01234567";

fn words(list: &[&str]) -> Vec<Vec<u8>> {
    list.iter().map(|w| w.as_bytes().to_vec()).collect()
}

#[test]
fn advertisement_with_symref() {
    let body = format!(
        "001e# service=git-upload-pack\n000000a0{MAIN} HEAD\0multi_ack symref=HEAD:refs/heads/main agent=git/2.0\n003f{MAIN} refs/heads/main\n0000"
    );
    let (refs, (head_ref, head_sha)) = parse_refs_response(body.as_bytes()).unwrap();
    assert_eq!(head_ref, b"refs/heads/main".to_vec());
    assert_eq!(head_sha, MAIN.as_bytes().to_vec());
    assert_eq!(refs, vec![(b"refs/heads/main".to_vec(), MAIN.as_bytes().to_vec())]);
}

#[test]
fn advertisement_as_two_lines_after_the_service_line() {
    let body = format!(
        "001e# service=git-upload-pack\n00a0{MAIN} HEAD\0multi_ack symref=HEAD:refs/heads/main agent=git/2.0\n003f{MAIN} refs/heads/main\n0000"
    );
    let (_, head) = parse_refs_response(body.as_bytes()).unwrap();
    assert_eq!(head, (b"refs/heads/main".to_vec(), MAIN.as_bytes().to_vec()));
}

#[test]
fn head_is_found_among_several_refs() {
    let body = format!(
        "0000{DEV} HEAD\0thin-pack symref=HEAD:refs/heads/dev ofs-delta\n003f{MAIN} refs/heads/main\r\n003e{DEV} refs/heads/dev\n003f{MAIN} refs/tags/v1\n0000"
    );
    let (refs, head) = parse_refs_response(body.as_bytes()).unwrap();
    assert_eq!(head, (b"refs/heads/dev".to_vec(), DEV.as_bytes().to_vec()));
    assert_eq!(refs.len(), 3);
    assert_eq!(refs[0], (b"refs/heads/main".to_vec(), MAIN.as_bytes().to_vec()));
    assert_eq!(refs[2], (b"refs/tags/v1".to_vec(), MAIN.as_bytes().to_vec()));
}

#[test]
fn ref_listed_before_the_capabilities_counts() {
    let body = format!("003f{MAIN} refs/heads/main\n0000{MAIN} HEAD\0a symref=HEAD:refs/heads/main\n");
    let (_, head) = parse_refs_response(body.as_bytes()).unwrap();
    assert_eq!(head, (b"refs/heads/main".to_vec(), MAIN.as_bytes().to_vec()));
}

#[test]
fn no_symref_is_no_head() {
    let body = format!("0000{MAIN} HEAD\0multi_ack agent=git/2.0\n003f{MAIN} refs/heads/main\n0000");
    assert_eq!(parse_refs_response(body.as_bytes()), Err(Error::NoHead));
}

#[test]
fn target_that_is_not_listed_is_no_head() {
    let body = format!("0000{MAIN} HEAD\0x symref=HEAD:refs/heads/gone y\n003f{MAIN} refs/heads/main\n0000");
    assert_eq!(parse_refs_response(body.as_bytes()), Err(Error::NoHead));
    assert_eq!(parse_refs_response(b""), Err(Error::NoHead));
    assert_eq!(parse_refs_response(b"0000"), Err(Error::NoHead));
}

#[test]
fn identity_of_wrong_length_is_not_listed() {
    let body = "0000abc HEAD\0x symref=HEAD:refs/heads/main y\n0010abc refs/heads/main\n0000";
    assert_eq!(parse_refs_response(body.as_bytes()), Err(Error::NoHead));
}

#[test]
fn symref_needs_its_colon() {
    let body = format!("0000{MAIN} HEAD\0x symref=HEADER:refs/heads/main y\n003f{MAIN} refs/heads/main\n");
    assert_eq!(parse_refs_response(body.as_bytes()), Err(Error::NoHead));
}

#[test]
fn fields_are_split_at_white_space() {
    assert_eq!(split_fields(b"  a\tbc \r\n d"), words(&["a", "bc", "d"]));
    assert_eq!(split_fields(b""), words(&[]));
    assert_eq!(split_fields(b" \x0b\x0c "), words(&[]));
    assert_eq!(split_fields(b"one"), words(&["one"]));
    assert_eq!(split_fields(b"HEAD\0caps x"), words(&["HEAD\0caps", "x"]));
}

#[test]
fn urls_get_the_git_suffix_once() {
    assert_eq!(
        refs_url(b"https://example.com/a/b"),
        b"https://example.com/a/b.git/info/refs?service=git-upload-pack".to_vec()
    );
    assert_eq!(
        refs_url(b"https://example.com/a/b.git"),
        b"https://example.com/a/b.git/info/refs?service=git-upload-pack".to_vec()
    );
    assert_eq!(pack_url(b"x"), b"x.git/git-upload-pack".to_vec());
    assert_eq!(pack_url(b".git"), b".git/git-upload-pack".to_vec());
    assert_eq!(pack_url(b"git"), b"git.git/git-upload-pack".to_vec());
}

#[test]
fn fetch_request_wants_head_and_is_done() {
    let body = build_fetch_request(MAIN.as_bytes());
    let expected = format!(
        "0067want {MAIN} multi_ack_detailed side-band-64k thin-pack ofs-delta\n00000009done\n"
    );
    assert_eq!(body, expected.into_bytes());
}

#[test]
fn files_of_head_and_of_a_ref() {
    assert_eq!(head_file(b"refs/heads/main"), b"ref: refs/heads/main\n".to_vec());
    assert_eq!(ref_file(MAIN.as_bytes()), format!("{MAIN}\n").into_bytes());
}
