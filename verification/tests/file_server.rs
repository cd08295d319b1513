use azurepath::file_server::{url_encode, FileServerHandle};

#[test]
fn download_url_format() {
    let srv = FileServerHandle::new(8123);
    assert_eq!(
        srv.download_url("id-1", "my report (v2).pdf"),
        "http://127.0.0.1:8123/download/id-1/my%20report%20%28v2%29.pdf"
    );
}

#[test]
fn url_encoding_is_bytewise() {
    assert_eq!(url_encode("a-b_c.d~"), "a-b_c.d~");
    assert_eq!(url_encode("é"), "%C3%A9");
    assert_eq!(url_encode("x y"), format!("{}{}{}", url_encode("x"), url_encode(" "), url_encode("y")));
}

#[test]
fn registered_path_is_served() {
    let mut srv = FileServerHandle::new(1);
    srv.register_file("a", "/tmp/a");
    srv.register_file("b", "/tmp/b");
    srv.register_file("a", "/tmp/a2");
    assert_eq!(srv.get_path("a"), Some("/tmp/a2".to_string()));
    assert_eq!(srv.get_path("b"), Some("/tmp/b".to_string()));
    assert_eq!(srv.get_path("c"), None);
}
