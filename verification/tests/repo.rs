use pur::error::UpdateError;
use pur::package::Package;
use pur::repo::{get_repositories, update_due, upgrade, upgrade_all, InstallData, Repo};
use pur::session::{DirEntry, EntryKind, Failure, FailureKind, Reply, Request, Session};

fn failed(kind: FailureKind, message: &str) -> Reply {
    Reply::Failed(Failure { kind, message: message.to_string() })
}

fn text(t: &str) -> Reply {
    Reply::Text(t.to_string())
}

fn dir(path: &str) -> DirEntry {
    DirEntry { path: path.to_string(), kind: EntryKind::Directory }
}

fn file(path: &str) -> DirEntry {
    DirEntry { path: path.to_string(), kind: EntryKind::File }
}

fn package(name: &str, version: &str) -> Package {
    let mut session = Session::new(vec![text(version), text("")]);
    Package::try_from(format!("/r/{}", name), &mut session).unwrap().unwrap()
}

fn installed_replies(name: &str, version: &str) -> Vec<Reply> {
    vec![
        Reply::Flag(true),
        Reply::Entries(vec![dir(&format!("/var/db/installed/{}", name))]),
        text(version),
        Reply::Entries(vec![file(&format!("/var/db/installed/{}/installed", name))]),
    ]
}

#[test]
fn get_repositories_defaults_to_the_three_standard_ones() {
    let repos = get_repositories(None);
    let dirs: Vec<&str> = repos.iter().map(|r| r.dir.as_str()).collect();
    assert_eq!(dirs, vec!["/usr/repo/pur", "/usr/repo/pur-community", "/usr/repo/unofficial"]);
}

#[test]
fn get_repositories_splits_the_list_at_colons() {
    let repos = get_repositories(Some("/a:/b/c".to_string()));
    assert_eq!(repos, vec![Repo::from("/a".to_string()), Repo::from("/b/c".to_string())]);
    let repos = get_repositories(Some("/only".to_string()));
    assert_eq!(repos, vec![Repo::from("/only".to_string())]);
    let repos = get_repositories(Some(String::new()));
    assert_eq!(repos, vec![Repo::from(String::new())]);
}

#[test]
fn get_packages_keeps_what_can_be_read() {
    let replies = vec![
        Reply::Entries(vec![dir("/r/alpha"), file("/r/update"), dir("/r/broken"), dir("/r/beta")]),
        text("1.0"),
        text("beta\n"),
        failed(FailureKind::Other, "not a directory"),
        text("2"),
        failed(FailureKind::NotFound, "gone"),
        text("0.3\n"),
        text(""),
    ];
    let mut session = Session::new(replies);
    let packages = Repo::from("/r".to_string()).get_packages(&mut session).unwrap().unwrap();
    let names: Vec<&str> = packages.iter().map(|p| p.name.as_str()).collect();
    assert_eq!(names, vec!["alpha", "beta"]);
    assert_eq!(packages[0].depends, vec!["beta".to_string()]);
    assert_eq!(packages[1].version, "0.3");
    assert_eq!(
        session.requests(),
        &vec![
            Request::ReadDir("/r".to_string()),
            Request::ReadFile("/r/alpha/version".to_string()),
            Request::ReadFile("/r/alpha/depends".to_string()),
            Request::ReadFile("/r/update/version".to_string()),
            Request::ReadFile("/r/broken/version".to_string()),
            Request::ReadFile("/r/broken/depends".to_string()),
            Request::ReadFile("/r/beta/version".to_string()),
            Request::ReadFile("/r/beta/depends".to_string()),
        ]
    );
}

#[test]
fn get_packages_passes_on_a_listing_failure() {
    let mut session = Session::new(vec![failed(FailureKind::NotFound, "no repo")]);
    let out = Repo::from("/r".to_string()).get_packages(&mut session).unwrap();
    assert_eq!(out.err(), Some(Failure { kind: FailureKind::NotFound, message: "no repo".to_string() }));
}

#[test]
fn get_packages_of_an_empty_repository() {
    let mut session = Session::new(vec![Reply::Entries(vec![])]);
    let out = Repo::from("/r".to_string()).get_packages(&mut session).unwrap().unwrap();
    assert!(out.is_empty());
}

#[test]
fn update_due_compares_the_digit_numbers() {
    let data = |v: &str| InstallData { version: v.to_string() };
    assert!(update_due(&package("a", "2"), &data("1")));
    assert!(!update_due(&package("a", "2"), &data("3")));
    assert!(!update_due(&package("a", "2"), &data("2")));
    assert!(update_due(&package("a", "1.2"), &data("10")));
    assert!(update_due(&package("a", "2.0"), &data("1.9")));
    assert!(!update_due(&package("a", "1.9"), &data("2.0")));
    assert!(!update_due(&package("a", "rolling"), &data("1")));
    assert!(!update_due(&package("a", "2"), &data("unknown")));
    assert!(!update_due(&package("a", "99999999999"), &data("1")));
}

#[test]
fn upgrade_asks_for_a_newer_version_only() {
    let mut session = Session::new({
        let mut r = installed_replies("a", "1");
        r.push(Reply::Done);
        r
    });
    assert_eq!(upgrade(&package("a", "2"), true, &mut session), Some(Ok(())));
    assert_eq!(session.requests().len(), 5);
    assert_eq!(session.requests()[4], Request::Update("/r/a".to_string(), "1".to_string()));

    let mut session = Session::new(installed_replies("a", "3"));
    assert_eq!(upgrade(&package("a", "2"), true, &mut session), Some(Ok(())));
    assert_eq!(session.requests().len(), 4);

    let mut session = Session::new(installed_replies("a", "2"));
    assert_eq!(upgrade(&package("a", "2"), true, &mut session), Some(Ok(())));
    assert_eq!(session.requests().len(), 4);
}

#[test]
fn upgrade_leaves_a_package_that_is_not_installed() {
    let replies = vec![
        Reply::Flag(true),
        Reply::Entries(vec![dir("/var/db/installed/a")]),
        text("1"),
        Reply::Entries(vec![file("/var/db/installed/a/version")]),
    ];
    let mut session = Session::new(replies);
    assert_eq!(upgrade(&package("a", "2"), true, &mut session), Some(Ok(())));
    assert_eq!(session.requests().len(), 4);
}

#[test]
fn upgrade_is_strict_or_not() {
    let replies = || {
        let mut r = installed_replies("a", "1");
        r.push(failed(FailureKind::Other, "build broke"));
        r
    };
    assert_eq!(
        upgrade(&package("a", "2"), true, &mut Session::new(replies())),
        Some(Err(UpdateError::PackageUpdateError("build broke".to_string())))
    );
    assert_eq!(upgrade(&package("a", "2"), false, &mut Session::new(replies())), Some(Ok(())));
}

#[test]
fn upgrade_all_goes_through_the_packages_in_order() {
    let mut replies = installed_replies("a", "1");
    replies.push(Reply::Done);
    replies.extend(installed_replies("b", "5"));
    replies.extend(installed_replies("c", "1.0"));
    replies.push(Reply::Done);
    let packages = vec![package("a", "2"), package("b", "4"), package("c", "1.1")];
    let mut session = Session::new(replies);
    assert_eq!(upgrade_all(&packages, true, &mut session), Some(Ok(())));
    let updates: Vec<&Request> =
        session.requests().iter().filter(|r| matches!(r, Request::Update(_, _))).collect();
    assert_eq!(
        updates,
        vec![
            &Request::Update("/r/a".to_string(), "1".to_string()),
            &Request::Update("/r/c".to_string(), "1.0".to_string()),
        ]
    );
}

fn refresh_replies() -> Vec<Reply> {
    vec![Reply::Flag(true), text("/home/me"), Reply::Done, Reply::Done, Reply::Done, Reply::Done]
}

#[test]
fn refresh_runs_the_script_in_the_repository_and_comes_back() {
    let mut session = Session::new(refresh_replies());
    assert_eq!(Repo::from("/r".to_string()).refresh(&mut session), Some(Ok(())));
    assert_eq!(
        session.requests(),
        &vec![
            Request::Exists("/r/update".to_string()),
            Request::CurrentDir,
            Request::SetCurrentDir("/r".to_string()),
            Request::Spawn("/r/update".to_string(), vec![]),
            Request::Wait,
            Request::SetCurrentDir("/home/me".to_string()),
        ]
    );
}

#[test]
fn refresh_does_not_come_back_to_an_unknown_directory() {
    let mut replies = refresh_replies();
    replies[1] = failed(FailureKind::NotFound, "deleted");
    replies.pop();
    let mut session = Session::new(replies);
    assert_eq!(Repo::from("/r".to_string()).refresh(&mut session), Some(Ok(())));
    assert_eq!(session.requests().len(), 5);
}

#[test]
fn refresh_errors() {
    let repo = Repo::from("/r".to_string());
    let mut session = Session::new(vec![Reply::Flag(false)]);
    assert_eq!(repo.refresh(&mut session), Some(Err(UpdateError::NoUpdateScript)));
    assert_eq!(session.requests().len(), 1);
    let mut replies = refresh_replies();
    replies[2] = failed(FailureKind::NotFound, "x");
    assert_eq!(repo.refresh(&mut Session::new(replies)), Some(Err(UpdateError::NoUpdateScript)));
    let mut replies = refresh_replies();
    replies[3] = failed(FailureKind::PermissionDenied, "x");
    assert_eq!(repo.refresh(&mut Session::new(replies)), Some(Err(UpdateError::UpdateScriptError)));
    let mut replies = refresh_replies();
    replies[4] = failed(FailureKind::Other, "x");
    assert_eq!(repo.refresh(&mut Session::new(replies)), Some(Err(UpdateError::UpdateScriptError)));
    let mut replies = refresh_replies();
    replies[5] = failed(FailureKind::NotFound, "x");
    assert_eq!(repo.refresh(&mut Session::new(replies)), Some(Err(UpdateError::UpdateScriptError)));
}

fn update_replies(installed: &str, offered: &str, outcome: Reply) -> Vec<Reply> {
    let mut replies = refresh_replies();
    replies.push(Reply::Entries(vec![dir("/r/a")]));
    replies.push(text(offered));
    replies.push(text(""));
    replies.extend(installed_replies("a", installed));
    replies.push(outcome);
    replies
}

#[test]
fn update_repository_calls_back_once_for_a_newer_version() {
    let mut session = Session::new(update_replies("1", "2", Reply::Done));
    assert_eq!(Repo::from("/r".to_string()).update_repository(&mut session), Some(Ok(())));
    let updates = session.requests().iter().filter(|r| matches!(r, Request::Update(_, _))).count();
    assert_eq!(updates, 1);
    assert_eq!(session.requests().last(), Some(&Request::Update("/r/a".to_string(), "1".to_string())));
}

#[test]
fn update_repository_does_not_call_back_for_an_older_version() {
    let mut session = Session::new(update_replies("3", "2", Reply::Done));
    assert_eq!(Repo::from("/r".to_string()).update_repository(&mut session), Some(Ok(())));
    let updates = session.requests().iter().filter(|r| matches!(r, Request::Update(_, _))).count();
    assert_eq!(updates, 0);
}

#[test]
fn update_repository_passes_on_a_failed_update() {
    let mut session = Session::new(update_replies("1", "2", failed(FailureKind::Other, "broke")));
    assert_eq!(
        Repo::from("/r".to_string()).update_repository(&mut session),
        Some(Err(UpdateError::PackageUpdateError("broke".to_string())))
    );
}

#[test]
fn update_repository_needs_a_readable_repository() {
    let mut replies = refresh_replies();
    replies.push(failed(FailureKind::PermissionDenied, "no"));
    assert_eq!(
        Repo::from("/r".to_string()).update_repository(&mut Session::new(replies)),
        Some(Err(UpdateError::UpdateScriptError))
    );
}

#[test]
fn update_with_goes_on_unless_strict() {
    let mut replies = refresh_replies();
    replies.push(Reply::Entries(vec![dir("/r/a"), dir("/r/b")]));
    replies.push(text("2"));
    replies.push(text(""));
    replies.push(text("2"));
    replies.push(text(""));
    replies.extend(installed_replies("a", "1"));
    replies.push(failed(FailureKind::Other, "broke"));
    replies.extend(installed_replies("b", "1"));
    replies.push(Reply::Done);
    let mut session = Session::new(replies);
    assert_eq!(Repo::from("/r".to_string()).update_with(false, &mut session), Some(Ok(())));
    let updates = session.requests().iter().filter(|r| matches!(r, Request::Update(_, _))).count();
    assert_eq!(updates, 2);
}

#[test]
fn update_repository_offers_each_due_package_once() {
    let mut replies = refresh_replies();
    replies.push(Reply::Entries(vec![dir("/r/a"), dir("/r/b"), dir("/r/c"), dir("/r/d")]));
    for offered in ["2", "2", "1.1", "5"] {
        replies.push(text(offered));
        replies.push(text(""));
    }
    replies.extend(installed_replies("a", "1"));
    replies.push(Reply::Done);
    replies.extend(installed_replies("b", "2"));
    replies.extend(vec![Reply::Flag(true), Reply::Entries(vec![dir("/var/db/installed/a")])]);
    replies.extend(installed_replies("d", "4"));
    replies.push(Reply::Done);
    let mut session = Session::new(replies);
    assert_eq!(Repo::from("/r".to_string()).update_repository(&mut session), Some(Ok(())));
    let updates: Vec<&Request> =
        session.requests().iter().filter(|r| matches!(r, Request::Update(_, _))).collect();
    assert_eq!(
        updates,
        vec![
            &Request::Update("/r/a".to_string(), "1".to_string()),
            &Request::Update("/r/d".to_string(), "4".to_string()),
        ]
    );
}
