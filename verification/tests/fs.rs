use talon_sandbox::fs::{clean_path, percent_encode_segment, fs_list_path, fs_path, text_from_bytes};
use talon_sandbox::Error;

#[test]
fn clean_path_drops_one_leading_slash_and_escapes() {
    assert_eq!(clean_path("/home/user/a b.txt"), "home/user/a%20b.txt");
    assert_eq!(clean_path("///x"), "//x");
    assert_eq!(clean_path("//tmp/x"), "/tmp/x");
    assert_eq!(clean_path("a//b/"), "a//b/");
    assert_eq!(clean_path(""), "");
    assert_eq!(clean_path("/"), "");
    assert_eq!(clean_path("dir/caf\u{e9}"), "dir/caf%C3%A9");
    assert_eq!(clean_path("q?x=1#f"), "q%3Fx%3D1%23f");
    assert_eq!(clean_path("keep-._~AZaz09"), "keep-._~AZaz09");
}

#[test]
fn clean_path_leading_slash_law() {
    for p in ["a/b", "x y", "", "z/"] {
        let with = format!("/{}", p);
        assert_eq!(clean_path(&with), clean_path(p));
    }
}

#[test]
fn escape_segment_bytes() {
    assert_eq!(percent_encode_segment("%"), "%25");
    assert_eq!(percent_encode_segment("/"), "%2F");
    assert_eq!(percent_encode_segment("\u{1F600}"), "%F0%9F%98%80");
}

#[test]
fn fs_paths() {
    assert_eq!(fs_path("sb1", "/etc/hosts"), "/v1/sandboxes/sb1/fs/etc/hosts");
    assert_eq!(fs_list_path("sb1", "/tmp dir"), "/v1/sandboxes/sb1/fs-list/tmp%20dir");
}

#[test]
fn text_from_bytes_requires_utf8() {
    assert_eq!(text_from_bytes("h\u{e9}llo".as_bytes().to_vec()).unwrap(), "h\u{e9}llo");
    match text_from_bytes(vec![0x66, 0xff]) {
        Err(Error::Parse(m)) => {
            assert!(m.starts_with("文件内容不是合法 UTF-8: "));
            assert!(m.len() > "文件内容不是合法 UTF-8: ".len());
        }
        other => panic!("unexpected {:?}", other),
    }
}
