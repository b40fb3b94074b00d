//! The owner and the repository that the URL of a git remote names.

use vstd::prelude::*;
use vstd::string::*;

verus! {

/// The prefix of a remote that is reached over SSH.
pub open spec fn ssh_prefix() -> Seq<char> {
    seq!['g', 'i', 't', '@']
}

/// The prefix of a remote that is reached over HTTPS.
pub open spec fn https_prefix() -> Seq<char> {
    seq!['h', 't', 't', 'p', 's', ':', '/', '/']
}

/// The suffix that the name of a repository may carry in a URL.
pub open spec fn git_suffix() -> Seq<char> {
    seq!['.', 'g', 'i', 't']
}

/// Whether `s` begins with `prefix`.
pub open spec fn starts_with(s: Seq<char>, prefix: Seq<char>) -> bool {
    prefix.len() <= s.len() && s.take(prefix.len() as int) == prefix
}

/// Whether `s` ends with `suffix`.
pub open spec fn ends_with(s: Seq<char>, suffix: Seq<char>) -> bool {
    suffix.len() <= s.len() && s.skip(s.len() - suffix.len()) == suffix
}

/// The first position at or after `from` and before `upto` at which `s` holds
/// `c`; `upto` if there is none.
pub open spec fn find_in(s: Seq<char>, c: char, from: int, upto: int) -> int
    decreases upto - from,
{
    if from >= upto {
        upto
    } else if s[from] == c {
        from
    } else {
        find_in(s, c, from + 1, upto)
    }
}

/// The position after the last `c` that `s` holds before `upto`; 0 if it holds
/// none there.
pub open spec fn after_last(s: Seq<char>, c: char, upto: int) -> int
    decreases upto,
{
    if upto <= 0 {
        0
    } else if s[upto - 1] == c {
        upto
    } else {
        after_last(s, c, upto - 1)
    }
}

/// `s` without the suffix `.git`, as often as it carries it.
pub open spec fn trim_git(s: Seq<char>) -> Seq<char>
    decreases s.len(),
{
    if ends_with(s, git_suffix()) {
        trim_git(s.take(s.len() - 4))
    } else {
        s
    }
}

/// The owner and the repository that a remote URL names.
///
/// In `git@host:owner/repo.git` the owner is what stands between the first
/// colon and the first slash after it, the repository what follows that slash,
/// up to the next slash or colon. In `https://host/owner/repo.git` the
/// repository is what follows the last slash and the owner what stands between
/// the two last slashes. The repository loses the suffix `.git`. Any other URL
/// names nothing, nor does an SSH URL without a colon or without a slash in
/// what follows the colon.
pub open spec fn parse_remote(url: Seq<char>) -> Option<(Seq<char>, Seq<char>)> {
    let len = url.len() as int;
    if starts_with(url, ssh_prefix()) {
        let colon = find_in(url, ':', 0, len);
        if colon >= len {
            None
        } else {
            let end = find_in(url, ':', colon + 1, len);
            let slash = find_in(url, '/', colon + 1, end);
            if slash >= end {
                None
            } else {
                let stop = find_in(url, '/', slash + 1, end);
                Some((url.subrange(colon + 1, slash), trim_git(url.subrange(slash + 1, stop))))
            }
        }
    } else if starts_with(url, https_prefix()) {
        let repo = after_last(url, '/', len);
        let owner = after_last(url, '/', repo - 1);
        Some((url.subrange(owner, repo - 1), trim_git(url.subrange(repo, len))))
    } else {
        None
    }
}

/// What `after_last` finds lies between 0 and its bound, and follows a `c`
/// unless it is 0.
pub proof fn lemma_after_last_bounds(s: Seq<char>, c: char, upto: int)
    requires
        0 <= upto,
    ensures
        0 <= after_last(s, c, upto) <= upto,
        after_last(s, c, upto) > 0 ==> s[after_last(s, c, upto) - 1] == c,
    decreases upto,
{
    if upto > 0 && s[upto - 1] != c {
        lemma_after_last_bounds(s, c, upto - 1);
    }
}

/// A later bound finds a later position.
pub proof fn lemma_after_last_grows(s: Seq<char>, c: char, a: int, b: int)
    requires
        0 <= a <= b,
    ensures
        after_last(s, c, a) <= after_last(s, c, b),
    decreases b,
{
    lemma_after_last_bounds(s, c, a);
    if a < b {
        if s[b - 1] != c {
            lemma_after_last_grows(s, c, a, b - 1);
        }
    }
}

/// The characters of a string, one by one.
fn chars_of(s: &str) -> (r: Vec<char>)
    ensures
        r@ == s@,
{
    let n: usize = s.unicode_len();
    let mut out: Vec<char> = Vec::new();
    let mut i: usize = 0;
    while i < n
        invariant
            n == s@.len(),
            i <= n,
            out@ == s@.take(i as int),
        decreases n - i,
    {
        out.push(s.get_char(i));
        assert(s@.take(i + 1) =~= s@.take(i as int).push(s@[i as int]));
        i += 1;
    }
    assert(s@.take(n as int) =~= s@);
    out
}

/// The first position at or after `from` and before `upto` that holds `c`.
fn find_char(chars: &Vec<char>, c: char, from: usize, upto: usize) -> (r: usize)
    requires
        from <= upto <= chars.len(),
    ensures
        r == find_in(chars@, c, from as int, upto as int),
        from <= r <= upto,
{
    let mut i: usize = from;
    while i < upto
        invariant
            from <= i <= upto,
            upto <= chars.len(),
            find_in(chars@, c, from as int, upto as int) == find_in(chars@, c, i as int, upto as int),
        decreases upto - i,
    {
        if chars[i] == c {
            return i;
        }
        i += 1;
    }
    upto
}

/// The position after the last `c` before `upto`.
fn find_after_last(chars: &Vec<char>, c: char, upto: usize) -> (r: usize)
    requires
        upto <= chars.len(),
    ensures
        r == after_last(chars@, c, upto as int),
        r <= upto,
{
    let mut i: usize = upto;
    while i > 0
        invariant
            i <= upto,
            upto <= chars.len(),
            after_last(chars@, c, upto as int) == after_last(chars@, c, i as int),
        decreases i,
    {
        if chars[i - 1] == c {
            return i;
        }
        i -= 1;
    }
    0
}

/// Whether the characters from `from` on are those of `prefix`.
fn has_prefix(chars: &Vec<char>, prefix: &Vec<char>) -> (r: bool)
    ensures
        r == starts_with(chars@, prefix@),
{
    if prefix.len() > chars.len() {
        return false;
    }
    let mut i: usize = 0;
    while i < prefix.len()
        invariant
            i <= prefix.len() <= chars.len(),
            forall|j: int| 0 <= j < i ==> chars@[j] == prefix@[j],
        decreases prefix.len() - i,
    {
        if chars[i] != prefix[i] {
            assert(chars@.take(prefix.len() as int)[i as int] != prefix@[i as int]);
            return false;
        }
        i += 1;
    }
    assert(chars@.take(prefix.len() as int) =~= prefix@);
    true
}

/// The end of what is left of the characters from `from` to `upto` without the
/// suffix `.git`.
fn trimmed_end(chars: &Vec<char>, from: usize, upto: usize) -> (r: usize)
    requires
        from <= upto <= chars.len(),
    ensures
        from <= r <= upto,
        chars@.subrange(from as int, r as int) == trim_git(chars@.subrange(from as int, upto as int)),
{
    let mut end: usize = upto;
    loop
        invariant
            from <= end <= upto,
            upto <= chars.len(),
            trim_git(chars@.subrange(from as int, end as int)) == trim_git(
                chars@.subrange(from as int, upto as int),
            ),
        decreases end,
    {
        let ghost s = chars@.subrange(from as int, end as int);
        if end - from >= 4 && chars[end - 4] == '.' && chars[end - 3] == 'g' && chars[end - 2] == 'i'
            && chars[end - 1] == 't' {
            proof {
                assert(s.skip(s.len() - 4) =~= git_suffix());
                assert(s.take(s.len() - 4) =~= chars@.subrange(from as int, end - 4));
            }
            end -= 4;
        } else {
            proof {
                if ends_with(s, git_suffix()) {
                    let tail = s.skip(s.len() - 4);
                    assert(tail[0] == '.' && tail[1] == 'g' && tail[2] == 'i' && tail[3] == 't');
                }
            }
            return end;
        }
    }
}

/// The owner and the repository that the remote URL `url` names, or `None`
/// if the URL is neither an SSH nor an HTTPS remote of the expected form.
pub fn org_and_repository(url: &str) -> (r: Option<(String, String)>)
    ensures
        r is Some <==> parse_remote(url@) is Some,
        r matches Some((owner, repository)) ==> owner@ == parse_remote(url@).unwrap().0 && repository@
            == parse_remote(url@).unwrap().1,
{
    let chars = chars_of(url);
    let len: usize = chars.len();
    let mut ssh: Vec<char> = Vec::new();
    ssh.push('g');
    ssh.push('i');
    ssh.push('t');
    ssh.push('@');
    assert(ssh@ =~= ssh_prefix());
    let mut https: Vec<char> = Vec::new();
    https.push('h');
    https.push('t');
    https.push('t');
    https.push('p');
    https.push('s');
    https.push(':');
    https.push('/');
    https.push('/');
    assert(https@ =~= https_prefix());
    if has_prefix(&chars, &ssh) {
        let colon: usize = find_char(&chars, ':', 0, len);
        if colon >= len {
            return None;
        }
        let end: usize = find_char(&chars, ':', colon + 1, len);
        let slash: usize = find_char(&chars, '/', colon + 1, end);
        if slash >= end {
            return None;
        }
        let stop: usize = find_char(&chars, '/', slash + 1, end);
        let cut: usize = trimmed_end(&chars, slash + 1, stop);
        let owner = url.substring_char(colon + 1, slash).to_owned();
        let repository = url.substring_char(slash + 1, cut).to_owned();
        Some((owner, repository))
    } else if has_prefix(&chars, &https) {
        let repo: usize = find_after_last(&chars, '/', len);
        proof {
            assert(chars@.take(8)[7] == '/');
            lemma_after_last_bounds(chars@, '/', 8);
            lemma_after_last_grows(chars@, '/', 8, len as int);
            assert(after_last(chars@, '/', 8) == 8);
        }
        let owner: usize = find_after_last(&chars, '/', repo - 1);
        let cut: usize = trimmed_end(&chars, repo, len);
        let owner_name = url.substring_char(owner, repo - 1).to_owned();
        let repository = url.substring_char(repo, cut).to_owned();
        Some((owner_name, repository))
    } else {
        None
    }
}

} // verus!
