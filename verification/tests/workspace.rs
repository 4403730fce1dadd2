use tapir_code::path::{components_of, normalize_lexically, parent_of, starts_with_path, tail_after};
use tapir_code::tools::workspace::{
    confine, lexical_target, resolve_existing_prefix, temp_sibling, PrefixStep, WorkspaceError,
};
use tapir_code::tools::write::{write_summary, WriteArgs};

#[test]
fn a_relative_request_lands_under_the_root() {
    let target = lexical_target("/ws", "src/main.rs");
    assert_eq!(target, "/ws/src/main.rs");
    assert_eq!(confine("/ws", &target, &target), Ok("/ws/src/main.rs".to_string()));
}

#[test]
fn a_parent_dir_escape_is_refused() {
    let target = lexical_target("/ws", "../secret");
    assert_eq!(target, "/secret");
    let err = confine("/ws", &target, &target).unwrap_err();
    assert_eq!(err, WorkspaceError::Escapes);
    assert_eq!(err.message("../secret"), "path `../secret` escapes the workspace root");
}

#[test]
fn an_absolute_request_outside_is_refused() {
    let target = lexical_target("/ws", "/etc/passwd");
    assert_eq!(target, "/etc/passwd");
    assert!(confine("/ws", &target, &target).is_err());
    let inside = lexical_target("/ws", "/ws/a/./b/../c");
    assert_eq!(inside, "/ws/a/c");
    assert!(confine("/ws", &inside, &inside).is_ok());
}

#[test]
fn a_symlink_out_of_the_root_is_refused() {
    let target = lexical_target("/ws", "link/secret.txt");
    assert_eq!(confine("/ws", &target, "/elsewhere/secret.txt"), Err(WorkspaceError::Escapes));
}

#[test]
fn a_sibling_with_a_shared_prefix_is_outside() {
    let target = lexical_target("/ws", "../wsx/f");
    assert_eq!(target, "/wsx/f");
    assert!(confine("/ws", &target, &target).is_err());
}

#[test]
fn normalizes_dots_lexically() {
    assert_eq!(normalize_lexically("/a/./b/../../.."), "/");
    assert_eq!(normalize_lexically("a//b/"), "a/b");
    assert_eq!(normalize_lexically("../a"), "a");
    assert_eq!(normalize_lexically(""), "");
}

#[test]
fn components_follow_std_path() {
    let c: Vec<String> = components_of("/a//b/./c/..").into_iter().map(|v| v.into_iter().collect()).collect();
    assert_eq!(c, ["/", "a", "b", "c", ".."]);
    let c: Vec<String> = components_of("./x").into_iter().map(|v| v.into_iter().collect()).collect();
    assert_eq!(c, [".", "x"]);
    assert!(starts_with_path("/ws/a", "/ws"));
    assert!(starts_with_path("/ws/", "/ws"));
    assert!(!starts_with_path("/wsx", "/ws"));
}

#[test]
fn parents_and_tails() {
    assert_eq!(parent_of("/a/b").as_deref(), Some("/a"));
    assert_eq!(parent_of("/a").as_deref(), Some("/"));
    assert_eq!(parent_of("/"), None);
    assert_eq!(parent_of("f.txt").as_deref(), Some(""));
    assert_eq!(tail_after("/a/b/c", "/a"), "b/c");
    assert_eq!(tail_after("/a/b/c", "/a/b/c"), "");
    assert_eq!(tail_after("/a/b", "/x"), "");
}

#[test]
fn temp_siblings_sit_beside_the_target() {
    assert_eq!(temp_sibling("/ws/a/c.txt", 42, 7), "/ws/a/.c.txt.tp-42-7.tmp");
    assert_eq!(temp_sibling("c.txt", 1, 0), ".c.txt.tp-1-0.tmp");
    assert_eq!(temp_sibling("/", 1, 0), ".tmp.tp-1-0.tmp");
}

#[test]
fn write_reports_the_byte_count() {
    let args = WriteArgs {
        path: "hello.txt".to_string(),
        content: "hi".to_string(),
    };
    assert_eq!(write_summary(&args), "wrote 2 bytes to `hello.txt`");
    let args = WriteArgs {
        path: "u.txt".to_string(),
        content: "é€".to_string(),
    };
    assert_eq!(write_summary(&args), "wrote 5 bytes to `u.txt`");
}

#[test]
fn a_canonical_ancestor_takes_the_rest_of_the_path() {
    assert_eq!(
        resolve_existing_prefix("/ws/link/secret.txt", "/ws/link", Some("/elsewhere")),
        PrefixStep::Resolved("/elsewhere/secret.txt".to_string())
    );
    assert_eq!(
        resolve_existing_prefix("/ws/a", "/ws/a", Some("/real/ws/a")),
        PrefixStep::Resolved("/real/ws/a/".to_string())
    );
}

#[test]
fn a_missing_ancestor_climbs_to_its_parent() {
    assert_eq!(
        resolve_existing_prefix("/ws/new/file.txt", "/ws/new/file.txt", None),
        PrefixStep::Climb("/ws/new".to_string())
    );
    assert_eq!(
        resolve_existing_prefix("/ws/new", "/", None),
        PrefixStep::Resolved("/ws/new".to_string())
    );
}

#[test]
fn a_symlinked_prefix_out_of_the_root_is_refused() {
    let target = lexical_target("/ws", "link/secret.txt");
    let resolved = match resolve_existing_prefix(&target, "/ws/link", Some("/outside")) {
        PrefixStep::Resolved(r) => r,
        PrefixStep::Climb(_) => panic!("a canonical ancestor resolves"),
    };
    assert_eq!(resolved, "/outside/secret.txt");
    assert_eq!(confine("/ws", &target, &resolved), Err(WorkspaceError::Escapes));
}

#[test]
fn a_request_without_parent_steps_stays_inside() {
    let target = lexical_target("/ws", "./a//b/./c.txt");
    assert_eq!(target, "/ws/a/b/c.txt");
    assert_eq!(confine("/ws", &target, &target), Ok("/ws/a/b/c.txt".to_string()));
    let root_target = lexical_target("/", "etc/x");
    assert_eq!(confine("/", &root_target, &root_target), Ok("/etc/x".to_string()));
}

#[test]
fn normalizing_twice_changes_nothing() {
    let once = normalize_lexically("/a/./b/../c//d/..");
    assert_eq!(once, "/a/c");
    assert_eq!(normalize_lexically(&once), once);
    assert_eq!(normalize_lexically("/../.."), "/");
    assert_eq!(normalize_lexically(&normalize_lexically("/../..")), "/");
}
