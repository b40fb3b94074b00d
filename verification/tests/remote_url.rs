use st::org_and_repository;

fn pair(owner: &str, repo: &str) -> Option<(String, String)> {
    Some((owner.to_string(), repo.to_string()))
}

#[test]
fn ssh_remote() {
    assert_eq!(org_and_repository("git@github.com:clabby/st.git"), pair("clabby", "st"));
    assert_eq!(org_and_repository("git@github.com:clabby/st"), pair("clabby", "st"));
    assert_eq!(org_and_repository("git@host:org/repo.git.git"), pair("org", "repo"));
    assert_eq!(org_and_repository("git@host:org/repo/more"), pair("org", "repo"));
    assert_eq!(org_and_repository("git@host:org/repo:x/y"), pair("org", "repo"));
    assert_eq!(org_and_repository("git@host:/repo"), pair("", "repo"));
    assert_eq!(org_and_repository("git@host:org/"), pair("org", ""));
    assert_eq!(org_and_repository("git@host:org/.git"), pair("org", ""));
}

#[test]
fn ssh_remote_without_colon_or_slash() {
    assert_eq!(org_and_repository("git@github.com"), None);
    assert_eq!(org_and_repository("git@github.com:clabby"), None);
    assert_eq!(org_and_repository("git@github.com:clabby:a/b"), None);
    assert_eq!(org_and_repository("git@"), None);
}

#[test]
fn https_remote() {
    assert_eq!(org_and_repository("https://github.com/clabby/st.git"), pair("clabby", "st"));
    assert_eq!(org_and_repository("https://github.com/clabby/st"), pair("clabby", "st"));
    assert_eq!(org_and_repository("https://host/a/b/c/d.git"), pair("c", "d"));
    assert_eq!(org_and_repository("https://host/org/"), pair("org", ""));
    assert_eq!(org_and_repository("https://host"), pair("", "host"));
    assert_eq!(org_and_repository("https://"), pair("", ""));
    assert_eq!(org_and_repository("https://höst/örg/répo.git"), pair("örg", "répo"));
}

#[test]
fn other_remotes_are_not_understood() {
    assert_eq!(org_and_repository(""), None);
    assert_eq!(org_and_repository("http://github.com/clabby/st.git"), None);
    assert_eq!(org_and_repository("ssh://git@github.com/clabby/st.git"), None);
    assert_eq!(org_and_repository("git"), None);
    assert_eq!(org_and_repository("https:/"), None);
}
