use dirinfo::pp_path;
use dirinfo::pp_path_with_home;
use dirinfo::pp_size;
use dirinfo::utils::extension_of;

#[test]
fn pp_size_zero() {
    assert_eq!(pp_size(0), "0B");
}

#[test]
fn pp_size_just_below_one_kb() {
    assert_eq!(pp_size(1023), "1023B");
}

#[test]
fn pp_size_one_kb() {
    assert_eq!(pp_size(1024), "1KB");
}

#[test]
fn pp_size_one_mb() {
    assert_eq!(pp_size(1_048_576), "1MB");
}

#[test]
fn pp_size_truncates_instead_of_rounding() {
    assert_eq!(pp_size(1_500_000), "1MB");
}

#[test]
fn pp_size_one_gb() {
    assert_eq!(pp_size(1_073_741_824), "1GB");
}

#[test]
fn pp_size_small_values() {
    assert_eq!(pp_size(1), "1B");
    assert_eq!(pp_size(2064), "2KB");
    assert_eq!(pp_size(1536), "1KB");
}

#[test]
fn pp_path_under_home() {
    assert_eq!(
        pp_path_with_home("/home/alice/projects/x", Some("/home/alice")),
        "~/projects/x"
    );
}

#[test]
fn pp_path_home_itself() {
    assert_eq!(pp_path_with_home("/home/alice", Some("/home/alice")), "~/");
}

#[test]
fn pp_path_relative_dot_slash() {
    assert_eq!(pp_path_with_home("./sub/file", None), "sub/file");
}

#[test]
fn pp_path_unrelated_absolute_unchanged() {
    assert_eq!(
        pp_path_with_home("/etc/passwd", Some("/home/alice")),
        "/etc/passwd"
    );
}

#[test]
fn pp_path_prefix_must_end_at_separator() {
    assert_eq!(
        pp_path_with_home("/home/alicex/y", Some("/home/alice")),
        "/home/alicex/y"
    );
}

#[test]
fn pp_path_plain_relative_unchanged() {
    assert_eq!(pp_path_with_home("sub/file", None), "sub/file");
}

#[test]
fn pp_path_without_home_argument() {
    // whatever home the environment reports, a plain `./` path is stripped
    assert_eq!(pp_path("./x"), "x");
}

#[test]
fn extension_simple() {
    assert_eq!(extension_of("a/b.rs"), Some("rs".to_string()));
}

#[test]
fn extension_none_without_dot() {
    assert_eq!(extension_of("noext"), None);
    assert_eq!(extension_of("dir/noext"), None);
}

#[test]
fn extension_none_for_dotfile() {
    assert_eq!(extension_of(".bashrc"), None);
    assert_eq!(extension_of("x/.hidden"), None);
}

#[test]
fn extension_dot_in_directory_not_counted() {
    assert_eq!(extension_of("dir.d/file"), None);
}

#[test]
fn extension_last_dot_wins() {
    assert_eq!(extension_of("a.tar.gz"), Some("gz".to_string()));
}
