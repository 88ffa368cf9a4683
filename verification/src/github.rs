//! What the hosting platform's tools are asked and what they answer: the
//! remote address of a repository, the request for a revision, and the
//! reply that names its author.

use vstd::prelude::*;
use vstd::string::StringExecFns;
use crate::text::{find_char, first_index, from_chars, starts_with_at, to_chars, trim, trim_bounds, trim_spec};

verus! {

/// `s` without the `.git` endings that it has, however many.
pub open spec fn strip_git_suffix(s: Seq<char>) -> Seq<char>
    decreases s.len(),
{
    if s.len() >= 4 && s.skip(s.len() - 4) == ".git"@ {
        strip_git_suffix(s.take(s.len() - 4))
    } else {
        s
    }
}

/// Owner and name of a repository from the path `owner/name` of its
/// address: the path is cut at its first slash, after its `.git` endings
/// have been dropped. A path without a slash names no repository.
pub open spec fn split_owner_repo(path: Seq<char>) -> Option<(Seq<char>, Seq<char>)> {
    let p = strip_git_suffix(path);
    let k = first_index(p, '/');
    if 0 <= k < p.len() {
        Some((p.take(k), p.skip(k + 1)))
    } else {
        None
    }
}

/// Owner and name of the repository that a remote address names, where the
/// address, white space around it aside, is one of the platform's two
/// forms.
pub open spec fn github_remote_spec(output: Seq<char>) -> Option<(Seq<char>, Seq<char>)> {
    let url = trim_spec(output);
    if "https://github.com/"@.is_prefix_of(url) {
        split_owner_repo(url.skip("https://github.com/"@.len() as int))
    } else if "git@github.com:"@.is_prefix_of(url) {
        split_owner_repo(url.skip("git@github.com:"@.len() as int))
    } else {
        None
    }
}

/// End of `chars[from..to]` once its `.git` endings are dropped.
fn strip_git_end(chars: &Vec<char>, from: usize, to: usize) -> (end: usize)
    requires
        from <= to <= chars.len(),
    ensures
        from <= end <= to,
        chars@.subrange(from as int, end as int) == strip_git_suffix(
            chars@.subrange(from as int, to as int),
        ),
{
    let mut end: usize = to;
    proof {
        reveal_strlit(".git");
    }
    while end - from >= 4 && chars[end - 4] == '.' && chars[end - 3] == 'g' && chars[end - 2] == 'i'
        && chars[end - 1] == 't'
        invariant
            from <= end <= to <= chars.len(),
            ".git"@ == seq!['.', 'g', 'i', 't'],
            strip_git_suffix(chars@.subrange(from as int, to as int)) == strip_git_suffix(
                chars@.subrange(from as int, end as int),
            ),
        decreases end,
    {
        let ghost s = chars@.subrange(from as int, end as int);
        assert(s.skip(s.len() - 4) =~= ".git"@);
        assert(s.take(s.len() - 4) == chars@.subrange(from as int, end - 4));
        end -= 4;
    }
    proof {
        let s = chars@.subrange(from as int, end as int);
        if s.len() >= 4 {
            let tail = s.skip(s.len() - 4);
            assert(tail[0] == chars@[end - 4] && tail[1] == chars@[end - 3] && tail[2] == chars@[end
                - 2] && tail[3] == chars@[end - 1]);
        }
    }
    end
}

fn owner_and_repo(chars: &Vec<char>, from: usize, to: usize) -> (r: Option<(String, String)>)
    requires
        from <= to <= chars.len(),
    ensures
        match r {
            Some((owner, repo)) => split_owner_repo(chars@.subrange(from as int, to as int))
                == Some((owner@, repo@)),
            None => split_owner_repo(chars@.subrange(from as int, to as int)) is None,
        },
{
    let end: usize = strip_git_end(chars, from, to);
    let slash: usize = find_char(chars, from, end, '/');
    let ghost p = chars@.subrange(from as int, end as int);
    if slash < end {
        let owner = from_chars(chars, from, slash);
        let repo = from_chars(chars, slash + 1, end);
        assert(owner@ == p.take(slash - from));
        assert(repo@ == p.skip(slash - from + 1));
        Some((owner, repo))
    } else {
        None
    }
}

/// Reads the address of a remote as the version control system prints it
/// and returns the owner and the name of the repository it names.
pub fn parse_github_remote(output: &str) -> (r: Option<(String, String)>)
    ensures
        match r {
            Some((owner, repo)) => github_remote_spec(output@) == Some((owner@, repo@)),
            None => github_remote_spec(output@) is None,
        },
{
    let chars = to_chars(output);
    let (from, to) = trim_bounds(&chars);
    let ghost url = chars@.subrange(from as int, to as int);
    proof {
        reveal_strlit("https://github.com/");
        reveal_strlit("git@github.com:");
    }
    if starts_with_at(&chars, from, to, "https://github.com/") {
        assert(url.skip(19) == chars@.subrange(from + 19, to as int));
        owner_and_repo(&chars, from + 19, to)
    } else if starts_with_at(&chars, from, to, "git@github.com:") {
        assert(url.skip(15) == chars@.subrange(from + 15, to as int));
        owner_and_repo(&chars, from + 15, to)
    } else {
        None
    }
}

/// The path under which the platform describes the revision `sha` of the
/// repository `owner/repo`.
pub open spec fn commit_api_path_spec(owner: Seq<char>, repo: Seq<char>, sha: Seq<char>) -> Seq<
    char,
> {
    "repos/"@ + owner + "/"@ + repo + "/commits/"@ + sha
}

/// The path to ask the platform for the revision `sha` of `owner/repo`.
pub fn commit_api_path(owner: &str, repo: &str, sha: &str) -> (path: String)
    ensures
        path@ == commit_api_path_spec(owner@, repo@, sha@),
{
    let mut path: String = "repos/".to_owned();
    path.append(owner);
    path.append("/");
    path.append(repo);
    path.append("/commits/");
    path.append(sha);
    path
}

/// The user name that the platform's reply gives: the reply without the
/// white space around it, unless that is empty or the word `null`.
pub open spec fn username_reply_spec(reply: Seq<char>) -> Option<Seq<char>> {
    let name = trim_spec(reply);
    if name.len() == 0 || name == "null"@ {
        None
    } else {
        Some(name)
    }
}

/// Reads the platform's reply to the request for a revision's author.
pub fn parse_username_reply(reply: &str) -> (r: Option<String>)
    ensures
        match r {
            Some(name) => username_reply_spec(reply@) == Some(name@),
            None => username_reply_spec(reply@) is None,
        },
{
    let name: String = trim(reply);
    let null: String = "null".to_owned();
    if name.as_str().is_empty() || name == null {
        None
    } else {
        Some(name)
    }
}

} // verus!
