use ubercollec::sync::{
    ahead_behind, api_key_setting, auto_push, commit_command, gh_login, init_commands, noreply_email,
    pull, push, set_remote, status, ApiProvider,
};

fn line(c: &ubercollec::sync::GitCommand) -> String {
    let mut s = c.bin.to_string();
    for a in &c.args {
        s.push(' ');
        s.push_str(a);
    }
    s
}

#[test]
fn status_reads_the_answers_of_git() {
    let st = status(
        true,
        Some("2\t1\n".into()),
        Some("git@github.com:me/biblio.git".into()),
        Some(" M a.yaml\n".into()),
        Some("abc Bibliothèque initiale".into()),
    );
    assert!(st.is_repo && st.dirty);
    assert_eq!((st.ahead, st.behind), (2, 1));
    assert_eq!(st.remote.as_deref(), Some("git@github.com:me/biblio.git"));
    let clean = status(true, None, None, Some(String::new()), None);
    assert!(!clean.dirty);
    assert_eq!((clean.ahead, clean.behind), (0, 0));
    assert!(!status(false, Some("1 1".into()), None, None, None).is_repo);
}

#[test]
fn ahead_behind_needs_two_numbers() {
    assert_eq!(ahead_behind(Some("3 4")), (3, 4));
    assert_eq!(ahead_behind(Some("3")), (0, 0));
    assert_eq!(ahead_behind(Some("x 4")), (0, 0));
    assert_eq!(ahead_behind(None), (0, 0));
}

#[test]
fn init_and_identity() {
    assert_eq!(noreply_email("octo"), "octo@users.noreply.github.com");
    let cmds = init_commands(false, Some("octo"));
    let lines: Vec<String> = cmds.iter().map(line).collect();
    assert!(lines[0].starts_with("git init"), "{lines:?}");
    assert!(lines.iter().any(|l| l.contains("octo@users.noreply.github.com")), "{lines:?}");
    assert_eq!(gh_login(Some("octo".into())).as_deref(), Some("octo"));
    assert_eq!(gh_login(Some(String::new())), None);
    assert_eq!(gh_login(None), None);
}

#[test]
fn remote_push_pull_plans() {
    let add = set_remote(false, "u");
    assert_eq!(line(&add[0]), "git remote add origin u");
    let set = set_remote(true, "u");
    assert_eq!(line(&set[0]), "git remote set-url origin u");
    assert!(!push().is_empty());
    assert!(pull(false, true).is_empty());
    assert!(pull(true, false).is_empty());
    assert!(!pull(true, true).is_empty());
}

#[test]
fn commit_only_when_something_is_staged() {
    assert!(commit_command(true, "m").is_none());
    assert_eq!(line(&commit_command(false, "Modification a.yaml").unwrap()), "git commit -m Modification a.yaml");
    assert!(auto_push(true, true));
    assert!(!auto_push(true, false));
    assert!(!auto_push(false, true));
}

#[test]
fn api_keys_are_trimmed_and_checked() {
    let (p, v) = api_key_setting("tmdb", "  abc ").unwrap();
    assert_eq!(p, ApiProvider::Tmdb);
    assert_eq!(v.as_deref(), Some("abc"));
    let (p, v) = api_key_setting("discogs", "   ").unwrap();
    assert_eq!(p, ApiProvider::Discogs);
    assert!(v.is_none());
    assert_eq!(api_key_setting("imdb", "k").unwrap_err(), "fournisseur inconnu : imdb");
}
