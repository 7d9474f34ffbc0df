//! Where a repository's index lives: `<cache>/mdpeek/repos/<hash>/`, with
//! the sqlite file and the full-text index directory inside.

use crate::id::{hex_prefix_spec, repo_hash};
use crate::paths::{dot, dot_dot, file_name_spec, join, join_spec, lemma_file_name_of_join};
use crate::text::{chars_of, string_from_chars};
use vstd::prelude::*;
use vstd::utf8::encode_utf8;

verus! {

/// Paths for a single repo's on-disk state.
#[derive(Debug, Clone)]
pub struct RepoPaths {
    /// The per-repo root dir: `<cache base>/repos/<hash>/`.
    pub root: String,
    /// Sqlite file inside `root`.
    pub db: String,
    /// Full-text index directory inside `root`.
    pub tantivy: String,
}

/// The per-repo directory under a cache base.
pub open spec fn repo_dir_spec(canonical_root: Seq<char>, cache_base: Seq<char>) -> Seq<char> {
    join_spec(
        join_spec(cache_base, "repos"@),
        hex_prefix_spec(encode_utf8(canonical_root), 16),
    )
}

/// Resolves the per-repo cache paths for the (canonical) repo root under an
/// explicit cache base. The directories themselves are created by the
/// caller.
pub fn paths_for_in(canonical_root: &str, cache_base: &str) -> (res: RepoPaths)
    ensures
        res.root@ == repo_dir_spec(canonical_root@, cache_base@),
        res.db@ == join_spec(repo_dir_spec(canonical_root@, cache_base@), "mdpeek.db"@),
        res.tantivy@ == join_spec(repo_dir_spec(canonical_root@, cache_base@), "tantivy"@),
{
    let hash = repo_hash(canonical_root);
    let base = chars_of(cache_base);
    let repos = chars_of("repos");
    let under = join(&base, &repos);
    let h = chars_of(hash.as_str());
    let root = join(&under, &h);
    let dbname = chars_of("mdpeek.db");
    let db = join(&root, &dbname);
    let tname = chars_of("tantivy");
    let tantivy = join(&root, &tname);
    RepoPaths {
        root: string_from_chars(&root),
        db: string_from_chars(&db),
        tantivy: string_from_chars(&tantivy),
    }
}

/// The database file and the full-text index directory are named
/// `mdpeek.db` and `tantivy`, side by side in the per-repo directory.
pub proof fn lemma_cache_layout(canonical_root: Seq<char>, cache_base: Seq<char>)
    ensures
        file_name_spec(join_spec(repo_dir_spec(canonical_root, cache_base), "mdpeek.db"@))
            == "mdpeek.db"@,
        file_name_spec(join_spec(repo_dir_spec(canonical_root, cache_base), "tantivy"@))
            == "tantivy"@,
{
    reveal_strlit("mdpeek.db");
    reveal_strlit("tantivy");
    let d = repo_dir_spec(canonical_root, cache_base);
    assert("mdpeek.db"@.len() == 9);
    assert(dot().len() == 1);
    assert("mdpeek.db"@ != dot());
    assert("mdpeek.db"@ != dot_dot());
    assert("tantivy"@.len() == 7);
    assert("tantivy"@ != dot());
    assert("tantivy"@ != dot_dot());
    lemma_file_name_of_join(d, "mdpeek.db"@);
    lemma_file_name_of_join(d, "tantivy"@);
}

/// Trusted: `dirs::cache_dir`, the user's cache directory as the platform
/// defines it (on Linux `$XDG_CACHE_HOME` or `$HOME/.cache`), as text. It
/// depends on the environment, so nothing is stated of it; a path that is
/// not UTF-8 is read as absent.
#[verifier::external_body]
fn cache_dir() -> (res: Option<String>) {
    dirs::cache_dir().and_then(|p| p.to_str().map(String::from))
}

/// Resolves the per-repo cache paths for the (canonical) repo root under the
/// user's cache directory, in its `mdpeek` subdirectory; `None` when there
/// is no cache directory.
pub fn paths_for(canonical_root: &str) -> (res: Option<RepoPaths>)
    ensures
        res matches Some(p) ==> exists|base: Seq<char>|
            {
                let b = #[trigger] join_spec(base, "mdpeek"@);
                &&& p.root@ == repo_dir_spec(canonical_root@, b)
                &&& p.db@ == join_spec(repo_dir_spec(canonical_root@, b), "mdpeek.db"@)
                &&& p.tantivy@ == join_spec(repo_dir_spec(canonical_root@, b), "tantivy"@)
            },
{
    let dir = cache_dir();
    match &dir {
        Some(d) => paths_under_cache(canonical_root, Some(d.as_str())),
        None => paths_under_cache(canonical_root, None),
    }
}

/// The cache paths for a (canonical) repo root given what the user's cache
/// directory lookup returned: `None` when there is none, else the paths
/// under its `mdpeek` subdirectory.
pub fn paths_under_cache(canonical_root: &str, cache_dir: Option<&str>) -> (res: Option<RepoPaths>)
    ensures
        res is None <==> cache_dir is None,
        match (res, cache_dir) {
            (Some(p), Some(dir)) => {
                let b = join_spec(dir@, "mdpeek"@);
                &&& p.root@ == repo_dir_spec(canonical_root@, b)
                &&& p.db@ == join_spec(repo_dir_spec(canonical_root@, b), "mdpeek.db"@)
                &&& p.tantivy@ == join_spec(repo_dir_spec(canonical_root@, b), "tantivy"@)
            },
            _ => true,
        },
{
    match cache_dir {
        Some(dir) => {
            let d = chars_of(dir);
            let name = chars_of("mdpeek");
            let base = join(&d, &name);
            let base_s = string_from_chars(&base);
            let p = paths_for_in(canonical_root, base_s.as_str());
            Some(p)
        },
        None => None,
    }
}

} // verus!
