use vstd::prelude::*;
use vstd::string::*;

verus! {

/// What became of a student's repository when it was brought up to date.
#[derive(Debug, Clone, Copy, PartialEq, Eq, Structural)]
pub enum RepoState {
    /// The repository is new here, or new commits came in.
    Updated,
    /// The repository was here already and nothing changed.
    Old,
}

/// A commit of a repository, as the list of commits names it.
#[derive(Debug, Clone)]
pub struct Commit {
    pub sha: String,
    pub message: String,
}

/// The directory that holds the repository `repo` of `owner`.
pub open spec fn repo_path(owner: Seq<char>, repo: Seq<char>) -> Seq<char> {
    "students/"@ + owner + "/"@ + repo
}

/// The address of the list of commits of the repository `repo` of `owner`.
pub open spec fn commits_address(owner: Seq<char>, repo: Seq<char>) -> Seq<char> {
    "https://api.github.com/repos/"@ + owner + "/"@ + repo + "/commits"@
}

/// The address at which comments on the commit `commit` are written.
pub open spec fn comments_address(owner: Seq<char>, repo: Seq<char>, commit: Seq<char>) -> Seq<
    char,
> {
    "https://api.github.com/repos/"@ + owner + "/"@ + repo + "/commits/"@ + commit + "/comments"@
}

/// The address from which the repository `repo` of `owner` is cloned.
pub open spec fn clone_address(owner: Seq<char>, repo: Seq<char>) -> Seq<char> {
    "https://github.com/"@ + owner + "/"@ + repo
}

/// Builds the directory that holds the repository `repo` of `owner`.
pub fn repo_dir(owner: &str, repo: &str) -> (r: String)
    ensures
        r@ == repo_path(owner@, repo@),
{
    let mut r = String::from_str("students/");
    r.append(owner);
    r.append("/");
    r.append(repo);
    r
}

/// Builds the address of the list of commits of the repository.
pub fn commits_url(owner: &str, repo: &str) -> (r: String)
    ensures
        r@ == commits_address(owner@, repo@),
{
    let mut r = String::from_str("https://api.github.com/repos/");
    r.append(owner);
    r.append("/");
    r.append(repo);
    r.append("/commits");
    r
}

/// Builds the address at which comments on a commit are written.
pub fn comments_url(owner: &str, repo: &str, commit: &str) -> (r: String)
    ensures
        r@ == comments_address(owner@, repo@, commit@),
{
    let mut r = String::from_str("https://api.github.com/repos/");
    r.append(owner);
    r.append("/");
    r.append(repo);
    r.append("/commits/");
    r.append(commit);
    r.append("/comments");
    r
}

/// Builds the address from which the repository is cloned.
pub fn clone_url(owner: &str, repo: &str) -> (r: String)
    ensures
        r@ == clone_address(owner@, repo@),
{
    let mut r = String::from_str("https://github.com/");
    r.append(owner);
    r.append("/");
    r.append(repo);
    r
}

/// Builds the value of the authorization header for the access token `token`.
pub fn auth_header(token: &str) -> (r: String)
    ensures
        r@ == "token "@ + token@,
{
    let mut r = String::from_str("token ");
    r.append(token);
    r
}

/// The sha of the latest commit: the last one that the list names, as the
/// list of commits is ordered.
pub fn latest_commit(commits: &Vec<Commit>) -> (r: Option<String>)
    ensures
        commits@.len() == 0 ==> r is None,
        commits@.len() > 0 ==> r == Some(commits@.last().sha),
{
    if commits.len() == 0 {
        None
    } else {
        Some(commits[commits.len() - 1].sha.clone())
    }
}

/// The text `"Already up to date"`, with which `git pull` says that no new
/// commits came in.
pub open spec fn up_to_date_marker() -> Seq<u8> {
    seq![65u8, 108u8, 114u8, 101u8, 97u8, 100u8, 121u8, 32u8, 117u8, 112u8, 32u8, 116u8, 111u8, 32u8, 100u8, 97u8, 116u8, 101u8]
}

/// Whether `pattern` occurs in `s`.
pub open spec fn occurs_in(pattern: Seq<u8>, s: Seq<u8>) -> bool {
    exists|i: int| 0 <= i && i + pattern.len() <= s.len() && #[trigger] s.subrange(i, i + pattern.len()) == pattern
}

/// Tells whether `pattern` occurs in `s`.
pub fn contains_bytes(s: &[u8], pattern: &[u8]) -> (r: bool)
    ensures
        r == occurs_in(pattern@, s@),
{
    let n = s.len();
    let m = pattern.len();
    if m > n {
        assert forall|i: int| 0 <= i && i + m <= n implies #[trigger] s@.subrange(i, i + m) != pattern@ by {}
        return false;
    }
    let mut i: usize = 0;
    while i <= n - m
        invariant
            m <= n,
            n == s@.len(),
            m == pattern@.len(),
            i <= n - m + 1,
            forall|j: int| 0 <= j < i ==> #[trigger] s@.subrange(j, j + m) != pattern@,
        decreases n - i,
    {
        let mut k: usize = 0;
        let mut same = true;
        while k < m
            invariant
                i + m <= n,
                n == s@.len(),
                m == pattern@.len(),
                k <= m,
                same == forall|j: int| 0 <= j < k ==> s@[i + j] == pattern@[j],
            decreases m - k,
        {
            if s[i + k] != pattern[k] {
                same = false;
            }
            k = k + 1;
        }
        if same {
            assert(s@.subrange(i as int, i + m) =~= pattern@);
            return true;
        }
        proof {
            let j0 = choose|j: int| 0 <= j < m && s@[i + j] != pattern@[j];
            assert(s@.subrange(i as int, i + m)[j0] != pattern@[j0]);
        }
        i = i + 1;
    }
    false
}

/// What a pull of the repository brought, judged by what `git pull` wrote
/// to its standard output: nothing new where it says that the repository is
/// already up to date.
pub open spec fn pull_result(stdout: Seq<u8>) -> RepoState {
    if occurs_in(up_to_date_marker(), stdout) {
        RepoState::Old
    } else {
        RepoState::Updated
    }
}

/// Judges what a pull of the repository brought from what `git pull` wrote.
pub fn pull_state(stdout: &[u8]) -> (r: RepoState)
    ensures
        r == pull_result(stdout@),
{
    let marker: [u8; 18] = [65u8, 108u8, 114u8, 101u8, 97u8, 100u8, 121u8, 32u8, 117u8, 112u8, 32u8, 116u8, 111u8, 32u8, 100u8, 97u8, 116u8, 101u8];
    assert(marker@ =~= up_to_date_marker());
    if contains_bytes(stdout, marker.as_slice()) {
        RepoState::Old
    } else {
        RepoState::Updated
    }
}

impl RepoState {
    /// Whether a repository in this state after cloning still has to be
    /// pulled: one that was here already.
    pub fn needs_pull(self) -> (r: bool)
        ensures
            r == (self == RepoState::Old),
    {
        match self {
            RepoState::Old => true,
            RepoState::Updated => false,
        }
    }
}

} // verus!
