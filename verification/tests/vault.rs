use notal::vault::{
    check_write, finish_resolve, read_failure, relative_path, resolve_path, shellexpand, OnDisk,
    VaultError,
};

#[test]
fn resolve_path_refuses_dot_dot() {
    match resolve_path("/vault", "../secret") {
        Err(VaultError::PathTraversal(p)) => assert_eq!(p, "../secret"),
        other => panic!("unexpected {:?}", other),
    }
    assert!(matches!(resolve_path("/vault", "a..b"), Err(VaultError::PathTraversal(_))));
}

#[test]
fn resolve_path_appends_md() {
    assert_eq!(resolve_path("/vault", "notes/a").unwrap(), "/vault/notes/a.md");
    assert_eq!(resolve_path("/vault", "a.md").unwrap(), "/vault/a.md");
    assert_eq!(resolve_path("/vault", "a.txt").unwrap(), "/vault/a.txt.md");
    assert_eq!(resolve_path("/vault", "notes/v1.2").unwrap(), "/vault/notes/v1.2.md");
    assert_eq!(resolve_path("/vault", "a.MD").unwrap(), "/vault/a.MD.md");
    assert_eq!(resolve_path("/vault", "dir/").unwrap(), "/vault/dir.md");
    assert_eq!(resolve_path("/vault", "").unwrap(), "/vault/");
    assert_eq!(resolve_path("/vault", "n.md.txt").unwrap(), "/vault/n.md.txt.md");
    assert_eq!(resolve_path("/vault/", "b").unwrap(), "/vault/b.md");
}

fn missing(ancestor: &str, canonical: &str) -> OnDisk {
    OnDisk::Missing { ancestor: ancestor.to_string(), canonical_ancestor: canonical.to_string() }
}

#[test]
fn finish_resolve_confines_to_vault() {
    let full = resolve_path("/vault", "/etc/passwd").unwrap();
    assert_eq!(full, "/etc/passwd.md");
    match finish_resolve("/vault", "/etc/passwd", full, missing("/etc", "/etc")) {
        Err(VaultError::PathTraversal(p)) => assert_eq!(p, "/etc/passwd"),
        other => panic!("unexpected {:?}", other),
    }
    let ok = finish_resolve("/vault", "x", "/vault/x.md".to_string(), missing("/vault", "/vault")).unwrap();
    assert_eq!(ok, "/vault/x.md");
    let deep = finish_resolve("/vault", "a/b/c", "/vault/a/b/c.md".to_string(), missing("/vault/a", "/vault/a"))
        .unwrap();
    assert_eq!(deep, "/vault/a/b/c.md");
    let canon = finish_resolve(
        "/vault",
        "link",
        "/vault/link.md".to_string(),
        OnDisk::Exists("/elsewhere/t.md".to_string()),
    );
    assert!(matches!(canon, Err(VaultError::PathTraversal(_))));
    let inside = finish_resolve(
        "/vault",
        "/tmp/l",
        "/tmp/l.md".to_string(),
        OnDisk::Exists("/vault/real.md".to_string()),
    )
    .unwrap();
    assert_eq!(inside, "/vault/real.md");
    assert!(finish_resolve("/vault", "x", "/vaultx/a.md".to_string(), missing("/", "/")).is_err());
}

#[test]
fn finish_resolve_follows_links_of_new_notes() {
    // /vault/link is a link to /outside: a new note under it would land outside.
    match finish_resolve("/vault", "link/new", "/vault/link/new.md".to_string(), missing("/vault/link", "/outside")) {
        Err(VaultError::PathTraversal(p)) => assert_eq!(p, "link/new"),
        other => panic!("unexpected {:?}", other),
    }
    // a link that stays inside the vault is fine, and the note keeps its name.
    let ok = finish_resolve("/vault", "alias/new", "/vault/alias/new.md".to_string(), missing("/vault/alias", "/vault/real"))
        .unwrap();
    assert_eq!(ok, "/vault/alias/new.md");
    // an ancestor that is not one is refused.
    assert!(finish_resolve("/vault", "x", "/vault/x.md".to_string(), missing("/other", "/vault")).is_err());
}

#[test]
fn relative_path_strips_root() {
    assert_eq!(relative_path("/vault", "/vault/a/b.md"), "a/b.md");
    assert_eq!(relative_path("/vault", "/other/c.md"), "/other/c.md");
    assert_eq!(relative_path("/vault", "/vaultx/c.md"), "/vaultx/c.md");
}

#[test]
fn shellexpand_home() {
    assert_eq!(shellexpand("~/notes", Some("/home/u")), "/home/u/notes");
    assert_eq!(shellexpand("~notes", Some("/home/u")), "~notes");
    assert_eq!(shellexpand("~/notes", None), "~/notes");
    assert_eq!(shellexpand("/abs", Some("/home/u")), "/abs");
}

#[test]
fn error_messages() {
    assert_eq!(VaultError::PathTraversal("x".into()).message(), "path traversal rejected: x");
    assert_eq!(VaultError::NotFound("y".into()).message(), "not found: y");
    assert_eq!(VaultError::AlreadyExists("z".into()).message(), "already exists: z");
    let io = VaultError::Io(std::io::Error::new(std::io::ErrorKind::Other, "boom"));
    assert_eq!(io.message(), "I/O error: boom");
    let from: VaultError = std::io::Error::new(std::io::ErrorKind::Other, "e").into();
    assert!(matches!(from, VaultError::Io(_)));
}

#[test]
fn write_and_read_failures() {
    assert!(check_write("/v/a.md", false, false).is_ok());
    assert!(check_write("/v/a.md", true, true).is_ok());
    match check_write("/v/a.md", true, false) {
        Err(VaultError::AlreadyExists(p)) => assert_eq!(p, "/v/a.md"),
        other => panic!("unexpected {:?}", other),
    }
    let e = std::io::Error::new(std::io::ErrorKind::NotFound, "nf");
    match read_failure("/v/b.md", true, e) {
        VaultError::NotFound(p) => assert_eq!(p, "/v/b.md"),
        other => panic!("unexpected {:?}", other),
    }
    let e = std::io::Error::new(std::io::ErrorKind::Other, "io");
    assert!(matches!(read_failure("/v/b.md", false, e), VaultError::Io(_)));
}
