//! Feeding the mobile application (read only): the library arrives as a
//! snapshot of the GitHub repository (tarball API), unpacked and swapped in
//! by the caller. This module decides what is asked and how answers read.
use vstd::prelude::*;
use crate::text::{owned, trim, trim_spec};
use crate::hydrate::concat3;

verus! {

/// The tarball address of the default branch of `owner/repo`.
pub fn snapshot_url(repo: &str) -> (r: String)
    ensures
        r@ == "https://api.github.com/repos/"@ + repo@ + "/tarball/HEAD"@,
{
    concat3("https://api.github.com/repos/", repo, "/tarball/HEAD")
}

/// The bearer token sent to GitHub (trimmed).
pub fn snapshot_token(token: &str) -> (r: &str)
    ensures
        r@ == trim_spec(token@),
{
    trim(token)
}

/// The error of a snapshot request by HTTP status: an unknown repository
/// and a refused token are explained; any other failure is reported with
/// the detail of the response.
pub fn snapshot_error(status: u16, success: bool, detail: &str) -> (r: Option<String>)
    ensures
        status == 404 ==> r is Some && r.unwrap()@ == "dépôt introuvable — vérifiez « propriétaire/nom » et les droits du token"@,
        status == 401 ==> r is Some && r.unwrap()@ == "token refusé par GitHub — vérifiez qu'il a l'accès en lecture au dépôt"@,
        status != 404 && status != 401 ==> (success ==> r is None) && (!success ==> r is Some && r.unwrap()@ == "GitHub : "@ + detail@),
{
    if status == 404 {
        Some(owned("dépôt introuvable — vérifiez « propriétaire/nom » et les droits du token"))
    } else if status == 401 {
        Some(owned("token refusé par GitHub — vérifiez qu'il a l'accès en lecture au dépôt"))
    } else if success {
        None
    } else {
        let mut e = owned("GitHub : ");
        e.append(detail);
        Some(e)
    }
}

/// What an unpacked snapshot holds: a single top-level folder (GitHub's
/// `owner-repo-sha`) that must contain `collections/`.
pub fn snapshot_check(has_inner_dir: bool, inner_has_collections: bool) -> (r: Result<(), String>)
    ensures
        !has_inner_dir ==> (r matches Err(e) && e@ == "archive GitHub vide"@),
        has_inner_dir && !inner_has_collections ==> (r matches Err(e)
            && e@ == "ce dépôt ne contient pas une bibliothèque (dossier collections/ absent)"@),
        has_inner_dir && inner_has_collections ==> r is Ok,
{
    if !has_inner_dir {
        Err(owned("archive GitHub vide"))
    } else if !inner_has_collections {
        Err(owned("ce dépôt ne contient pas une bibliothèque (dossier collections/ absent)"))
    } else {
        Ok(())
    }
}

} // verus!
