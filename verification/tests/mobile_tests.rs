use ubercollec::mobile::{snapshot_check, snapshot_error, snapshot_token, snapshot_url};

#[test]
fn snapshot_request() {
    assert_eq!(snapshot_url("me/biblio"), "https://api.github.com/repos/me/biblio/tarball/HEAD");
    assert_eq!(snapshot_token("  ghp_x \n"), "ghp_x");
}

#[test]
fn snapshot_errors_by_status() {
    assert!(snapshot_error(404, false, "").unwrap().starts_with("dépôt introuvable"));
    assert!(snapshot_error(401, false, "").unwrap().starts_with("token refusé"));
    assert_eq!(snapshot_error(500, false, "boom").unwrap(), "GitHub : boom");
    assert!(snapshot_error(200, true, "").is_none());
}

#[test]
fn rejects_non_library_archive() {
    let err = snapshot_check(true, false).unwrap_err();
    assert!(err.contains("collections"), "{err}");
    assert_eq!(snapshot_check(false, false).unwrap_err(), "archive GitHub vide");
    assert!(snapshot_check(true, true).is_ok());
}
