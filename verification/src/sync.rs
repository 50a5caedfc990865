//! Git backup of the data repository. The system's `git` (and `gh`) do the
//! work with the user's own credentials; this module decides which commands
//! run, in which order, and what their answers mean. The caller runs them
//! one after the other, stopping at the first failure.
use vstd::prelude::*;
use crate::text::{chars_of, is_blank, is_whitespace, join, owned, parse_u64_spec, str_eq, trim, trim_spec, views};
use crate::index::{words, words_acc};
use crate::hydrate::{concat3, opt_view};

verus! {

/// A command to run in the repository: a program and its arguments.
#[derive(Debug)]
pub struct GitCommand {
    pub bin: &'static str,
    pub args: Vec<String>,
}

pub open spec fn cmd_is(c: GitCommand, bin: Seq<char>, args: Seq<Seq<char>>) -> bool {
    c.bin@ == bin && views(c.args@) == args
}

fn strings(parts: &[&str]) -> (r: Vec<String>)
    ensures
        views(r@) == crate::hydrate::strs(parts@),
{
    let mut out: Vec<String> = Vec::new();
    let mut i: usize = 0;
    while i < parts.len()
        invariant
            i <= parts@.len(),
            views(out@) == crate::hydrate::strs(parts@.take(i as int)),
        decreases parts@.len() - i,
    {
        let s = owned(parts[i]);
        let ghost before = out@;
        out.push(s);
        assert(views(out@) =~= views(before).push(s@));
        assert(crate::hydrate::strs(parts@.take(i + 1)) =~= crate::hydrate::strs(parts@.take(i as int)).push(parts@[i as int]@));
        i = i + 1;
    }
    assert(parts@.take(parts@.len() as int) =~= parts@);
    out
}

fn git(parts: &[&str]) -> (r: GitCommand)
    ensures
        cmd_is(r, "git"@, crate::hydrate::strs(parts@)),
{
    GitCommand { bin: "git", args: strings(parts) }
}

/// The `PATH` given to the commands: the usual Homebrew and system
/// directories before the inherited one (a packaged application does not
/// see Homebrew otherwise).
pub fn augmented_path(base: &str) -> (r: String)
    ensures
        r@ == "/opt/homebrew/bin:/usr/local/bin:/usr/bin:/bin:"@ + base@,
{
    let mut out = owned("/opt/homebrew/bin:/usr/local/bin:/usr/bin:/bin:");
    out.append(base);
    out
}

/// The message of a command that could not start.
pub fn spawn_error(bin: &str, detail: &str) -> (r: String)
    ensures
        r@ == bin@ + " : "@ + detail@,
{
    concat3(bin, " : ", detail)
}

/// The message of a command that failed: the program, its first argument
/// and what it wrote on its error output, trimmed.
pub fn run_error(bin: &str, args: &Vec<String>, stderr: &str) -> (r: String)
    ensures
        r@ == bin@ + seq![' '] + (if args@.len() > 0 { args@[0]@ } else { Seq::empty() }) + " : "@ + trim_spec(stderr@),
{
    let mut out = owned(bin);
    out.append(" ");
    if args.len() > 0 {
        out.append(args[0].as_str());
    }
    out.append(" : ");
    out.append(trim(stderr));
    proof {
        reveal_strlit(" ");
    }
    out
}

// ---------------------------------------------------------------------------
// Status
// ---------------------------------------------------------------------------

/// The state of the data repository.
#[derive(Debug)]
pub struct SyncStatus {
    pub is_repo: bool,
    pub remote: Option<String>,
    pub dirty: bool,
    /// Local commits not pushed.
    pub ahead: u32,
    /// Remote commits not fetched.
    pub behind: u32,
    pub last_commit: Option<String>,
}

impl Default for SyncStatus {
    fn default() -> (r: SyncStatus)
        ensures
            !r.is_repo && r.remote is None && !r.dirty && r.ahead == 0 && r.behind == 0 && r.last_commit is None,
    {
        SyncStatus { is_repo: false, remote: None, dirty: false, ahead: 0, behind: 0, last_commit: None }
    }
}

/// The commands whose answers make the status, in order: counts of
/// commits ahead and behind the upstream, the remote's URL, the changed
/// files, the last commit.
pub fn status_commands() -> (r: Vec<GitCommand>)
    ensures
        r@.len() == 4,
        cmd_is(r@[0], "git"@, seq!["rev-list"@, "--count"@, "--left-right"@, "HEAD...@{u}"@]),
        cmd_is(r@[1], "git"@, seq!["remote"@, "get-url"@, "origin"@]),
        cmd_is(r@[2], "git"@, seq!["status"@, "--porcelain"@]),
        cmd_is(r@[3], "git"@, seq!["log"@, "-1"@, "--format=%s · %cr"@]),
{
    let a: &[&str] = &["rev-list", "--count", "--left-right", "HEAD...@{u}"];
    let b: &[&str] = &["remote", "get-url", "origin"];
    let c: &[&str] = &["status", "--porcelain"];
    let d: &[&str] = &["log", "-1", "--format=%s · %cr"];
    assert(crate::hydrate::strs(a@) =~= seq!["rev-list"@, "--count"@, "--left-right"@, "HEAD...@{u}"@]);
    assert(crate::hydrate::strs(b@) =~= seq!["remote"@, "get-url"@, "origin"@]);
    assert(crate::hydrate::strs(c@) =~= seq!["status"@, "--porcelain"@]);
    assert(crate::hydrate::strs(d@) =~= seq!["log"@, "-1"@, "--format=%s · %cr"@]);
    let mut v: Vec<GitCommand> = Vec::new();
    v.push(git(a));
    v.push(git(b));
    v.push(git(c));
    v.push(git(d));
    v
}

/// `u32::from_str`.
pub open spec fn parse_u32_spec(s: Seq<char>) -> Option<u32> {
    match parse_u64_spec(s) {
        Some(v) => if v <= u32::MAX { Some(v as u32) } else { None },
        None => None,
    }
}

/// Ahead and behind counts from `rev-list --count --left-right`: its first
/// two words as numbers, else none.
pub open spec fn counts_spec(out: Option<Seq<char>>) -> (u32, u32) {
    match out {
        Some(s) => {
            let ws = words(s);
            if ws.len() >= 2 && parse_u32_spec(ws[0]) is Some && parse_u32_spec(ws[1]) is Some {
                (parse_u32_spec(ws[0]).unwrap(), parse_u32_spec(ws[1]).unwrap())
            } else {
                (0, 0)
            }
        },
        None => (0, 0),
    }
}

/// The first two words of a text.
fn first_two_words(s: &str) -> (r: (Option<String>, Option<String>))
    ensures
        opt_view(r.0) == (if words(s@).len() >= 1 { Some(words(s@)[0]) } else { None }),
        opt_view(r.1) == (if words(s@).len() >= 2 { Some(words(s@)[1]) } else { None }),
{
    let cs = chars_of(s);
    let mut ws: Vec<Vec<char>> = Vec::new();
    let mut inside = false;
    let mut i: usize = 0;
    while i < cs.len()
        invariant
            i <= cs@.len(),
            cs@ == s@,
            (ws@.map_values(|w: Vec<char>| w@), inside) == words_acc(cs@.take(i as int)),
        decreases cs@.len() - i,
    {
        assert(cs@.take(i + 1).drop_last() =~= cs@.take(i as int));
        proof {
            crate::index::lemma_words_acc(cs@.take(i as int));
        }
        let c = cs[i];
        let ghost before = ws@.map_values(|w: Vec<char>| w@);
        assert(cs@.take(i + 1).last() == c);
        if is_whitespace(c) {
            inside = false;
        } else if inside {
            let last = ws.len() - 1;
            let mut w = ws.remove(last);
            assert(w@ == before.last());
            w.push(c);
            ws.push(w);
            assert(ws@.map_values(|w: Vec<char>| w@) =~= before.update(before.len() - 1, before.last().push(c)));
        } else {
            let mut w: Vec<char> = Vec::new();
            w.push(c);
            assert(w@ =~= seq![c]);
            ws.push(w);
            inside = true;
            assert(ws@.map_values(|w: Vec<char>| w@) =~= before.push(seq![c]));
        }
        i = i + 1;
    }
    assert(cs@.take(cs@.len() as int) =~= cs@);
    let a = if ws.len() >= 1 { Some(crate::text::string_of(&ws[0])) } else { None };
    let b = if ws.len() >= 2 { Some(crate::text::string_of(&ws[1])) } else { None };
    (a, b)
}

fn parse_u32(s: &str) -> (r: Option<u32>)
    ensures
        r == parse_u32_spec(s@),
{
    match crate::text::parse_u64(s) {
        Some(v) => if v <= 0xffff_ffffu64 { Some(v as u32) } else { None },
        None => None,
    }
}

/// Ahead and behind counts of the upstream branch.
pub fn ahead_behind(out: Option<&str>) -> (r: (u32, u32))
    ensures
        r == counts_spec(crate::index::opt_str_view(out)),
{
    match out {
        Some(s) => {
            let (a, b) = first_two_words(s);
            match (a, b) {
                (Some(x), Some(y)) => match (parse_u32(x.as_str()), parse_u32(y.as_str())) {
                    (Some(p), Some(q)) => (p, q),
                    _ => (0, 0),
                },
                _ => (0, 0),
            }
        },
        None => (0, 0),
    }
}

/// The status of the repository from the answers of `status_commands`
/// (`None` for a command that failed). Outside a repository nothing is
/// asked and everything is empty.
pub fn status(
    is_repo: bool,
    rev_list: Option<String>,
    remote: Option<String>,
    porcelain: Option<String>,
    last_log: Option<String>,
) -> (r: SyncStatus)
    ensures
        !is_repo ==> !r.is_repo && r.remote is None && !r.dirty && r.ahead == 0 && r.behind == 0 && r.last_commit is None,
        is_repo ==> {
            &&& r.is_repo
            &&& opt_view(r.remote) == opt_view(remote)
            &&& r.dirty == (porcelain is Some && porcelain.unwrap()@.len() > 0)
            &&& (r.ahead, r.behind) == counts_spec(opt_view(rev_list))
            &&& opt_view(r.last_commit) == opt_view(last_log)
        },
{
    if !is_repo {
        return SyncStatus::default();
    }
    let (ahead, behind) = match &rev_list {
        Some(s) => ahead_behind(Some(s.as_str())),
        None => ahead_behind(None),
    };
    let dirty = match &porcelain {
        Some(s) => !s.as_str().is_empty(),
        None => false,
    };
    SyncStatus { is_repo: true, remote, dirty, ahead, behind, last_commit: last_log }
}

// ---------------------------------------------------------------------------
// Commands
// ---------------------------------------------------------------------------

/// The GitHub no-reply address of a login: no personal e-mail in history.
pub fn noreply_email(login: &str) -> (r: String)
    ensures
        r@ == login@ + "@users.noreply.github.com"@,
{
    let mut out = owned(login);
    out.append("@users.noreply.github.com");
    out
}

/// The commands that set the repository up: `git init` on the `main`
/// branch when it is not a repository yet, and the local identity of a
/// GitHub login.
pub fn init_commands(is_repo: bool, github_login: Option<&str>) -> (r: Vec<GitCommand>)
    ensures
        r@.len() == (if is_repo { 0int } else { 1int }) + (if github_login is Some { 2int } else { 0int }),
        !is_repo ==> cmd_is(r@[0], "git"@, seq!["init"@, "-b"@, "main"@]),
        github_login is Some ==> {
            let k = if is_repo { 0int } else { 1int };
            let login = github_login.unwrap()@;
            &&& cmd_is(r@[k], "git"@, seq!["config"@, "user.email"@, login + "@users.noreply.github.com"@])
            &&& cmd_is(r@[k + 1], "git"@, seq!["config"@, "user.name"@, login])
        },
{
    let mut v: Vec<GitCommand> = Vec::new();
    if !is_repo {
        let a: &[&str] = &["init", "-b", "main"];
        assert(crate::hydrate::strs(a@) =~= seq!["init"@, "-b"@, "main"@]);
        v.push(git(a));
    }
    if let Some(login) = github_login {
        let email = noreply_email(login);
        let mut a1: Vec<String> = Vec::new();
        a1.push(owned("config"));
        a1.push(owned("user.email"));
        a1.push(email);
        let mut a2: Vec<String> = Vec::new();
        a2.push(owned("config"));
        a2.push(owned("user.name"));
        a2.push(owned(login));
        let c1 = GitCommand { bin: "git", args: a1 };
        let c2 = GitCommand { bin: "git", args: a2 };
        assert(views(c1.args@) =~= seq!["config"@, "user.email"@, login@ + "@users.noreply.github.com"@]);
        assert(views(c2.args@) =~= seq!["config"@, "user.name"@, login@]);
        v.push(c1);
        v.push(c2);
    }
    v
}

/// The content of the repository's `.gitignore`, written when missing.
pub fn gitignore_text() -> (r: &'static str)
    ensures
        r@ == ".DS_Store\n*.tmp\n"@,
{
    ".DS_Store\n*.tmp\n"
}

/// The active `gh` login, from what `gh api user --jq .login` printed:
/// nothing when the command failed or printed nothing.
pub fn gh_login(output: Option<String>) -> (r: Option<String>)
    ensures
        opt_view(r) == match output {
            Some(s) => if s@.len() > 0 { Some(s@) } else { None },
            None => None,
        },
{
    match output {
        Some(s) => if s.as_str().is_empty() { None } else { Some(s) },
        None => None,
    }
}

/// The command asking `gh` for the active login.
pub fn gh_login_command() -> (r: GitCommand)
    ensures
        cmd_is(r, "gh"@, seq!["api"@, "user"@, "--jq"@, ".login"@]),
{
    let a: &[&str] = &["api", "user", "--jq", ".login"];
    assert(crate::hydrate::strs(a@) =~= seq!["api"@, "user"@, "--jq"@, ".login"@]);
    GitCommand { bin: "gh", args: strings(a) }
}

/// Creating the GitHub repository (private unless asked otherwise) and
/// pushing everything through `gh`, then reading the remote's URL, which
/// is the answer.
pub fn create_github_repo(name: &str, private: bool) -> (r: Vec<GitCommand>)
    ensures
        r@.len() == 2,
        cmd_is(r@[0], "gh"@, seq!["repo"@, "create"@, name@, if private { "--private"@ } else { "--public"@ },
            "--source"@, "."@, "--remote"@, "origin"@, "--push"@]),
        cmd_is(r@[1], "git"@, seq!["remote"@, "get-url"@, "origin"@]),
{
    let visibility = if private { "--private" } else { "--public" };
    let parts: &[&str] = &["repo", "create", name, visibility, "--source", ".", "--remote", "origin", "--push"];
    assert(crate::hydrate::strs(parts@) =~= seq!["repo"@, "create"@, name@, if private { "--private"@ } else { "--public"@ },
        "--source"@, "."@, "--remote"@, "origin"@, "--push"@]);
    let b: &[&str] = &["remote", "get-url", "origin"];
    assert(crate::hydrate::strs(b@) =~= seq!["remote"@, "get-url"@, "origin"@]);
    let mut v: Vec<GitCommand> = Vec::new();
    v.push(GitCommand { bin: "gh", args: strings(parts) });
    v.push(git(b));
    v
}

/// Linking an existing remote repository and pushing: the URL of `origin`
/// is replaced, or `origin` added, then `main` is pushed upstream.
pub fn set_remote(has_remote: bool, url: &str) -> (r: Vec<GitCommand>)
    ensures
        r@.len() == 2,
        cmd_is(r@[0], "git"@, seq!["remote"@, if has_remote { "set-url"@ } else { "add"@ }, "origin"@, url@]),
        cmd_is(r@[1], "git"@, seq!["push"@, "-u"@, "origin"@, "main"@]),
{
    let verb = if has_remote { "set-url" } else { "add" };
    let a: &[&str] = &["remote", verb, "origin", url];
    assert(crate::hydrate::strs(a@) =~= seq!["remote"@, if has_remote { "set-url"@ } else { "add"@ }, "origin"@, url@]);
    let b: &[&str] = &["push", "-u", "origin", "main"];
    assert(crate::hydrate::strs(b@) =~= seq!["push"@, "-u"@, "origin"@, "main"@]);
    let mut v: Vec<GitCommand> = Vec::new();
    v.push(git(a));
    v.push(git(b));
    v
}

/// Pushing the local commits.
pub fn push() -> (r: Vec<GitCommand>)
    ensures
        r@.len() == 1,
        cmd_is(r@[0], "git"@, seq!["push"@]),
{
    let a: &[&str] = &["push"];
    assert(crate::hydrate::strs(a@) =~= seq!["push"@]);
    let mut v: Vec<GitCommand> = Vec::new();
    v.push(git(a));
    v
}

/// Fetching remote changes, fast-forward only (a single writer, never a
/// merge): nothing to do outside a repository or without remote; else the
/// head before, the pull, the head after.
pub fn pull(is_repo: bool, has_remote: bool) -> (r: Vec<GitCommand>)
    ensures
        !(is_repo && has_remote) ==> r@.len() == 0,
        is_repo && has_remote ==> {
            &&& r@.len() == 3
            &&& cmd_is(r@[0], "git"@, seq!["rev-parse"@, "HEAD"@])
            &&& cmd_is(r@[1], "git"@, seq!["pull"@, "--ff-only"@])
            &&& cmd_is(r@[2], "git"@, seq!["rev-parse"@, "HEAD"@])
        },
{
    let mut v: Vec<GitCommand> = Vec::new();
    if !is_repo || !has_remote {
        return v;
    }
    let a: &[&str] = &["rev-parse", "HEAD"];
    let b: &[&str] = &["pull", "--ff-only"];
    assert(crate::hydrate::strs(a@) =~= seq!["rev-parse"@, "HEAD"@]);
    assert(crate::hydrate::strs(b@) =~= seq!["pull"@, "--ff-only"@]);
    v.push(git(a));
    v.push(git(b));
    v.push(git(a));
    v
}

/// Whether a pull moved the head (the index must then be rebuilt).
pub fn head_moved(before: &str, after: &str) -> (r: bool)
    ensures
        r == (before@ != after@),
{
    !str_eq(before, after)
}

/// Staging everything, then checking whether anything is staged
/// (`diff --cached --quiet` fails when something is).
pub fn stage_commands() -> (r: Vec<GitCommand>)
    ensures
        r@.len() == 2,
        cmd_is(r@[0], "git"@, seq!["add"@, "-A"@]),
        cmd_is(r@[1], "git"@, seq!["diff"@, "--cached"@, "--quiet"@]),
{
    let a: &[&str] = &["add", "-A"];
    let b: &[&str] = &["diff", "--cached", "--quiet"];
    assert(crate::hydrate::strs(a@) =~= seq!["add"@, "-A"@]);
    assert(crate::hydrate::strs(b@) =~= seq!["diff"@, "--cached"@, "--quiet"@]);
    let mut v: Vec<GitCommand> = Vec::new();
    v.push(git(a));
    v.push(git(b));
    v
}

/// The commit of the staged changes, when the quiet diff failed (there is
/// something staged); no empty commit otherwise.
pub fn commit_command(diff_was_quiet: bool, message: &str) -> (r: Option<GitCommand>)
    ensures
        diff_was_quiet ==> r is None,
        !diff_was_quiet ==> r is Some && cmd_is(r.unwrap(), "git"@, seq!["commit"@, "-m"@, message@]),
{
    if diff_was_quiet {
        return None;
    }
    let a: &[&str] = &["commit", "-m", message];
    assert(crate::hydrate::strs(a@) =~= seq!["commit"@, "-m"@, message@]);
    Some(git(a))
}

/// After an automatic commit: push silently when something was committed
/// and a remote exists (a failed push shows in the status's counter).
pub fn auto_push(committed: bool, has_remote: bool) -> (r: bool)
    ensures
        r == (committed && has_remote),
{
    committed && has_remote
}

// ---------------------------------------------------------------------------
// Commit messages and settings
// ---------------------------------------------------------------------------

/// The label of an item in commit messages: `ID — title`, or the ID alone.
pub fn item_label(schema: &crate::model::Schema, item: &crate::model::Item) -> (r: String)
    requires
        item.fields.wf(),
    ensures
        r@ == match crate::model::title_field_spec(schema.fields@) {
            Some(f) => match crate::import::fval(item.fields, f.key@) {
                Some(v) => match crate::value::str_of(v) {
                    Some(t) => item.id@ + " — "@ + t,
                    None => item.id@,
                },
                None => item.id@,
            },
            None => item.id@,
        },
{
    match schema.title_field() {
        Some(f) => match item.fields.get(f.key.as_str()) {
            Some(v) => match v.as_str() {
                Some(t) => concat3(item.id.as_str(), " — ", t.as_str()),
                None => item.id.clone(),
            },
            None => item.id.clone(),
        },
        None => item.id.clone(),
    }
}

/// The services whose key can be set.
#[derive(Debug, Clone, Copy, PartialEq, Eq, Structural)]
pub enum ApiProvider {
    Tmdb,
    Discogs,
}

/// Reads a key setting: the provider by name, the key trimmed (an empty key
/// removes it).
pub fn api_key_setting(provider: &str, key: &str) -> (r: Result<(ApiProvider, Option<String>), String>)
    ensures
        match r {
            Ok((p, v)) => {
                &&& (provider@ == "tmdb"@ ==> p == ApiProvider::Tmdb)
                &&& (provider@ == "discogs"@ ==> p == ApiProvider::Discogs)
                &&& (provider@ == "tmdb"@ || provider@ == "discogs"@)
                &&& opt_view(v) == if trim_spec(key@).len() > 0 { Some(trim_spec(key@)) } else { None }
            },
            Err(e) => provider@ != "tmdb"@ && provider@ != "discogs"@ && e@ == "fournisseur inconnu : "@ + provider@,
        },
{
    let t = trim(key);
    let value = if is_blank(key) { None } else { Some(owned(t)) };
    proof {
        reveal_strlit("tmdb");
        reveal_strlit("discogs");
    }
    assert(opt_view(value) == if trim_spec(key@).len() > 0 { Some(trim_spec(key@)) } else { None });
    if str_eq(provider, "tmdb") {
        assert("tmdb"@.len() != "discogs"@.len());
        Ok((ApiProvider::Tmdb, value))
    } else if str_eq(provider, "discogs") {
        Ok((ApiProvider::Discogs, value))
    } else {
        let mut e = owned("fournisseur inconnu : ");
        e.append(provider);
        Err(e)
    }
}

} // verus!
