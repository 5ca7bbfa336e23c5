use mimeclip::ipc::{data_dir, db_path, frame_line, socket_path};

#[test]
fn socket_lies_in_the_runtime_directory() {
    assert_eq!(
        socket_path(Some("/run/user/1000")),
        "/run/user/1000/mimeclipd.sock"
    );
    assert_eq!(socket_path(Some("/run/")), "/run/mimeclipd.sock");
    assert_eq!(socket_path(Some("")), "mimeclipd.sock");
    assert_eq!(socket_path(None), "/tmp/mimeclipd.sock");
}

#[test]
fn history_lies_in_the_data_directory() {
    assert_eq!(data_dir(Some("/data"), Some("/home/me")), "/data/mimeclip");
    assert_eq!(
        db_path(Some("/data"), Some("/home/me")),
        "/data/mimeclip/history.db"
    );
    assert_eq!(
        db_path(None, Some("/home/me")),
        "/home/me/.local/share/mimeclip/history.db"
    );
    assert_eq!(db_path(None, None), "/tmp/.local/share/mimeclip/history.db");
    assert_eq!(db_path(Some(""), None), "mimeclip/history.db");
}

#[test]
fn paths_are_joined_as_std_joins_them() {
    for base in ["", "/", "a", "a/", "a//", "/a/b", "ü"] {
        let joined = std::path::Path::new(base).join("mimeclipd.sock");
        assert_eq!(socket_path(Some(base)), joined.to_str().unwrap());
    }
}

#[test]
fn messages_go_on_lines_of_their_own() {
    assert_eq!(frame_line("{}".to_string()), "{}\n");
    assert_eq!(frame_line(String::new()), "\n");
}
