use pur::error::{BuildError, ParseError};
use pur::package::{find_named, marker_among, Package};
use pur::repo::InstallData;
use pur::session::{DirEntry, EntryKind, Failure, FailureKind, Reply, Request, Session};

fn failed(kind: FailureKind, message: &str) -> Reply {
    Reply::Failed(Failure { kind, message: message.to_string() })
}

fn text(t: &str) -> Reply {
    Reply::Text(t.to_string())
}

fn dir(path: &str) -> DirEntry {
    DirEntry { path: path.to_string(), kind: EntryKind::Directory }
}

fn file(path: &str) -> DirEntry {
    DirEntry { path: path.to_string(), kind: EntryKind::File }
}

fn alpha() -> Package {
    let mut session = Session::new(vec![text("1.0\n"), text("beta\n\ngamma\n")]);
    Package::try_from("/r/alpha".to_string(), &mut session).unwrap().unwrap()
}

fn home(rest: &str) -> String {
    format!("/var/db/installed/alpha{}", rest)
}

fn structure_paths() -> Vec<String> {
    vec![
        home("/files/usr/bin"),
        home("/files/usr/lib"),
        home("/files/usr/lib64"),
        home("/files/usr/sbin"),
        home("/files/usr/linuxrc"),
        home("/files"),
        home(""),
    ]
}

#[test]
fn try_from_reads_name_version_and_depends() {
    let mut session = Session::new(vec![text(" 1.0 \n"), text("beta\n\ngamma\r\n")]);
    let package = Package::try_from("/r/alpha".to_string(), &mut session).unwrap().unwrap();
    assert_eq!(package.name, "alpha");
    assert_eq!(package.version, "1.0");
    assert_eq!(package.depends, vec!["beta".to_string(), "gamma".to_string()]);
    assert_eq!(package.dir, "/r/alpha");
    assert_eq!(package.structure.id(), "alpha");
    assert_eq!(
        session.requests(),
        &vec![
            Request::ReadFile("/r/alpha/version".to_string()),
            Request::ReadFile("/r/alpha/depends".to_string()),
        ]
    );
}

#[test]
fn try_from_with_no_dependencies() {
    let mut session = Session::new(vec![text("1.0"), text("")]);
    let package = Package::try_from("/r/alpha".to_string(), &mut session).unwrap().unwrap();
    assert!(package.depends.is_empty());
}

#[test]
fn try_from_keeps_duplicate_dependencies() {
    let mut session = Session::new(vec![text("1"), text("b\nb\n")]);
    let package = Package::try_from("/r/a".to_string(), &mut session).unwrap().unwrap();
    assert_eq!(package.depends, vec!["b".to_string(), "b".to_string()]);
}

#[test]
fn try_from_without_version_is_no_version() {
    let mut session = Session::new(vec![failed(FailureKind::NotFound, "gone")]);
    let out = Package::try_from("/r/alpha".to_string(), &mut session).unwrap();
    assert_eq!(out.err(), Some(ParseError::NoVersion));
    assert_eq!(session.requests().len(), 1);
}

#[test]
fn try_from_with_a_blank_version_is_no_version() {
    let mut session = Session::new(vec![text(" \n")]);
    let out = Package::try_from("/r/alpha".to_string(), &mut session).unwrap();
    assert_eq!(out.err(), Some(ParseError::NoVersion));
}

#[test]
fn try_from_without_depends_is_no_depends() {
    let mut session = Session::new(vec![text("1.0"), failed(FailureKind::NotFound, "gone")]);
    let out = Package::try_from("/r/alpha".to_string(), &mut session).unwrap();
    assert_eq!(out.err(), Some(ParseError::NoDepends));
}

#[test]
fn try_from_without_a_name_is_no_directory() {
    let mut session = Session::new(vec![]);
    let out = Package::try_from("/".to_string(), &mut session).unwrap();
    assert_eq!(out.err(), Some(ParseError::NoDirectory("/".to_string())));
    assert!(session.requests().is_empty());
    let out = Package::try_from(String::new(), &mut session).unwrap();
    assert_eq!(out.err(), Some(ParseError::NoDirectory(String::new())));
}

#[test]
fn try_from_takes_no_notice_of_a_slash_at_the_end() {
    let mut session = Session::new(vec![text("1.0"), text("")]);
    let package = Package::try_from("/r/alpha/".to_string(), &mut session).unwrap().unwrap();
    assert_eq!(package.name, "alpha");
    assert_eq!(package.structure.id(), "alpha");
    assert_eq!(
        session.requests(),
        &vec![
            Request::ReadFile("/r/alpha/version".to_string()),
            Request::ReadFile("/r/alpha/depends".to_string()),
        ]
    );
}

#[test]
fn try_from_waits_for_each_file() {
    let mut session = Session::new(vec![]);
    assert!(Package::try_from("/r/alpha".to_string(), &mut session).is_none());
    assert_eq!(session.pending(), Some(&Request::ReadFile("/r/alpha/version".to_string())));
    let mut session = Session::new(vec![text("1")]);
    assert!(Package::try_from("/r/alpha".to_string(), &mut session).is_none());
    assert_eq!(session.pending(), Some(&Request::ReadFile("/r/alpha/depends".to_string())));
}

#[test]
fn clone_keeps_the_package() {
    let copy = alpha().clone();
    assert_eq!(copy.name, "alpha");
    assert_eq!(copy.version, "1.0");
    assert_eq!(copy.depends, vec!["beta".to_string(), "gamma".to_string()]);
    assert_eq!(copy.dir, "/r/alpha");
    assert_eq!(copy.structure.id(), "alpha");
}

#[test]
fn install_data_is_the_stripped_version_file() {
    let mut session = Session::new(vec![text(" 2.1\n")]);
    let data = InstallData::try_from(&"/var/db/installed/alpha".to_string(), &mut session);
    assert_eq!(data, Some(Ok(InstallData { version: "2.1".to_string() })));
    assert_eq!(session.requests(), &vec![Request::ReadFile(home("/version"))]);
    let mut session = Session::new(vec![failed(FailureKind::NotFound, "gone")]);
    let data = InstallData::try_from(&"/var/db/installed/alpha".to_string(), &mut session);
    assert_eq!(data, Some(Err(ParseError::NoVersion)));
}

#[test]
fn find_named_gives_the_first_entry_of_that_name() {
    let entries = vec![dir("/d/beta"), dir("/d/alpha"), dir("/e/alpha")];
    assert_eq!(find_named(&entries, &"alpha".to_string()), Some(1));
    assert_eq!(find_named(&entries, &"gamma".to_string()), None);
    assert_eq!(find_named(&entries, &"alph".to_string()), None);
}

#[test]
fn marker_among_looks_at_the_end_of_the_names() {
    assert!(marker_among(&vec![file("/d/version"), file("/d/installed")]));
    assert!(marker_among(&vec![file("/d/not-installed")]));
    assert!(!marker_among(&vec![file("/d/version"), dir("/d/files")]));
    assert!(!marker_among(&vec![file("/installed/version")]));
    assert!(!marker_among(&vec![]));
}

fn built_replies() -> Vec<Reply> {
    vec![
        Reply::Flag(true),
        Reply::Entries(vec![dir("/var/db/installed/beta"), dir("/var/db/installed/alpha")]),
        text("1.0\n"),
    ]
}

#[test]
fn is_built_finds_the_record() {
    let mut session = Session::new(built_replies());
    assert_eq!(alpha().is_built(&mut session), Some(Some(InstallData { version: "1.0".to_string() })));
    assert_eq!(
        session.requests(),
        &vec![
            Request::Exists("/var/db/installed/".to_string()),
            Request::ReadDir("/var/db/installed/".to_string()),
            Request::ReadFile(home("/version")),
        ]
    );
}

#[test]
fn is_built_makes_the_directory_of_records_if_it_is_missing() {
    let mut session = Session::new(vec![Reply::Flag(false), Reply::Done, Reply::Entries(vec![])]);
    assert_eq!(alpha().is_built(&mut session), Some(None));
    assert_eq!(
        session.requests(),
        &vec![
            Request::Exists("/var/db/installed/".to_string()),
            Request::CreateDirAll("/var/db/installed/".to_string()),
            Request::ReadDir("/var/db/installed/".to_string()),
        ]
    );
}

#[test]
fn is_built_without_a_version_file_is_not_built() {
    let mut replies = built_replies();
    replies[2] = failed(FailureKind::NotFound, "gone");
    let mut session = Session::new(replies);
    assert_eq!(alpha().is_built(&mut session), Some(None));
}

#[test]
fn is_built_without_an_entry_is_not_built() {
    let replies = vec![Reply::Flag(true), Reply::Entries(vec![dir("/var/db/installed/beta")])];
    let mut session = Session::new(replies);
    assert_eq!(alpha().is_built(&mut session), Some(None));
    let replies = vec![Reply::Flag(true), failed(FailureKind::PermissionDenied, "no")];
    let mut session = Session::new(replies);
    assert_eq!(alpha().is_built(&mut session), Some(None));
}

#[test]
fn is_installed_needs_the_marker() {
    let mut replies = built_replies();
    replies.push(Reply::Entries(vec![file(&home("/version")), dir(&home("/files")), file(&home("/installed"))]));
    let mut session = Session::new(replies);
    assert_eq!(alpha().is_installed(&mut session), Some(Some(InstallData { version: "1.0".to_string() })));
    assert_eq!(session.requests().len(), 4);
    assert_eq!(session.requests()[3], Request::ReadDir(home("")));

    let mut replies = built_replies();
    replies.push(Reply::Entries(vec![file(&home("/version")), dir(&home("/files"))]));
    let mut session = Session::new(replies);
    assert_eq!(alpha().is_installed(&mut session), Some(None));
}

#[test]
fn is_installed_implies_is_built() {
    let marked = || Reply::Entries(vec![file(&home("/installed"))]);
    let cases: Vec<Vec<Reply>> = vec![
        vec![Reply::Flag(true), Reply::Entries(vec![dir(&home(""))]), text("3"), marked()],
        vec![Reply::Flag(true), Reply::Entries(vec![dir(&home(""))]), failed(FailureKind::NotFound, "x"), marked()],
        vec![Reply::Flag(true), Reply::Entries(vec![]), marked(), marked()],
        vec![Reply::Flag(true), Reply::Entries(vec![dir(&home(""))]), text("3"), Reply::Entries(vec![])],
        vec![Reply::Flag(false), Reply::Done, Reply::Entries(vec![dir(&home(""))]), text("3"), marked()],
    ];
    let expected = [true, false, false, false, true];
    for (replies, installed) in cases.into_iter().zip(expected) {
        let copy: Vec<Reply> = replies
            .iter()
            .map(|r| match r {
                Reply::Flag(b) => Reply::Flag(*b),
                Reply::Done => Reply::Done,
                Reply::Failed(f) => Reply::Failed(f.clone()),
                Reply::Text(t) => Reply::Text(t.clone()),
                Reply::Entries(e) => Reply::Entries(e.clone()),
            })
            .collect();
        let a = alpha().is_installed(&mut Session::new(replies)).unwrap();
        let b = alpha().is_built(&mut Session::new(copy)).unwrap();
        assert_eq!(a.is_some(), installed);
        if a.is_some() {
            assert_eq!(a, b);
        }
    }
}

fn build_requests() -> Vec<Request> {
    let mut expected = Vec::new();
    for path in structure_paths() {
        expected.push(Request::Exists(path.clone()));
        expected.push(Request::CreateDirAll(path));
    }
    expected.push(Request::Exists(home("/version")));
    expected.push(Request::RemoveFile(home("/version")));
    expected.push(Request::WriteFile(home("/version"), "1.0".to_string()));
    expected.push(Request::SetCurrentDir(home("/files")));
    expected.push(Request::Spawn("/r/alpha/install".to_string(), vec![home("/files"), "/r/alpha".to_string()]));
    expected.push(Request::Wait);
    expected
}

fn build_replies() -> Vec<Reply> {
    let mut replies = Vec::new();
    for _ in 0..7 {
        replies.push(Reply::Flag(false));
        replies.push(Reply::Done);
    }
    replies.push(Reply::Flag(true));
    replies.push(Reply::Done);
    replies.push(Reply::Done);
    replies.push(Reply::Done);
    replies.push(Reply::Done);
    replies.push(Reply::Done);
    replies
}

#[test]
fn build_makes_the_sandbox_records_the_version_and_runs_the_script() {
    let mut session = Session::new(build_replies());
    assert_eq!(alpha().build(&mut session), Some(Ok(())));
    assert_eq!(session.requests(), &build_requests());
}

#[test]
fn build_writes_the_version_last_of_all_files() {
    let mut session = Session::new(build_replies());
    assert_eq!(alpha().build(&mut session), Some(Ok(())));
    let asked = session.requests();
    let n = asked.len();
    assert_eq!(asked[n - 4], Request::WriteFile(home("/version"), "1.0".to_string()));
    assert!(matches!(asked[n - 3], Request::SetCurrentDir(_)));
    assert!(matches!(asked[n - 2], Request::Spawn(_, _)));
    assert_eq!(asked[n - 1], Request::Wait);
}

#[test]
fn build_writes_the_version_without_white_space() {
    let mut package = alpha();
    package.version = " 2 .5\n".to_string();
    let mut session = Session::new(build_replies());
    assert_eq!(package.build(&mut session), Some(Ok(())));
    let asked = session.requests();
    assert_eq!(asked[asked.len() - 4], Request::WriteFile(home("/version"), "2.5".to_string()));
}

#[test]
fn build_does_not_remove_a_version_file_that_is_not_there() {
    let mut replies = build_replies();
    replies.remove(15);
    replies[14] = Reply::Flag(false);
    let mut session = Session::new(replies);
    assert_eq!(alpha().build(&mut session), Some(Ok(())));
    assert_eq!(session.requests().len(), build_requests().len() - 1);
}

#[test]
fn build_goes_on_when_the_old_version_file_cannot_be_removed() {
    let mut replies = build_replies();
    replies[15] = failed(FailureKind::PermissionDenied, "no");
    let mut session = Session::new(replies);
    assert_eq!(alpha().build(&mut session), Some(Ok(())));
}

#[test]
fn build_errors() {
    let mut replies = build_replies();
    replies[1] = failed(FailureKind::PermissionDenied, "no");
    assert_eq!(
        alpha().build(&mut Session::new(replies)),
        Some(Err(ParseError::Other("NoPermission".to_string())))
    );
    let mut replies = build_replies();
    replies[1] = failed(FailureKind::Other, "disk");
    assert_eq!(
        alpha().build(&mut Session::new(replies)),
        Some(Err(ParseError::Other("Other(\"disk\")".to_string())))
    );
    let mut replies = build_replies();
    replies[16] = failed(FailureKind::NotFound, "no such directory");
    assert_eq!(
        alpha().build(&mut Session::new(replies)),
        Some(Err(ParseError::NoDirectory("no such directory".to_string())))
    );
    let mut replies = build_replies();
    replies[16] = failed(FailureKind::PermissionDenied, "read-only");
    assert_eq!(
        alpha().build(&mut Session::new(replies)),
        Some(Err(ParseError::Other("read-only".to_string())))
    );
    let mut replies = build_replies();
    replies[17] = failed(FailureKind::NotFound, "nowhere");
    assert_eq!(
        alpha().build(&mut Session::new(replies)),
        Some(Err(ParseError::NoDirectory("nowhere".to_string())))
    );
    let mut replies = build_replies();
    replies[18] = failed(FailureKind::NotFound, "no script");
    assert_eq!(alpha().build(&mut Session::new(replies)), Some(Err(ParseError::NoInstallScript)));
    let mut replies = build_replies();
    replies[19] = failed(FailureKind::Other, "interrupted");
    assert_eq!(alpha().build(&mut Session::new(replies)), Some(Err(ParseError::FailedInstallScript)));
}

#[test]
fn install_writes_the_marker_and_publishes() {
    let replies = vec![
        Reply::Done,
        Reply::Flag(true),
        Reply::Entries(vec![file(&home("/files/usr/bin/tool"))]),
        Reply::Done,
        Reply::Done,
        Reply::Flag(false),
        Reply::Flag(false),
        Reply::Flag(false),
        Reply::Flag(false),
    ];
    let mut session = Session::new(replies);
    assert_eq!(alpha().install(&mut session), Some(Ok(())));
    assert_eq!(session.requests()[0], Request::WriteFile(home("/installed"), String::new()));
    assert_eq!(session.requests()[3], Request::CreateDirAll("/usr/bin/alpha".to_string()));
    assert_eq!(
        session.requests()[4],
        Request::Symlink(home("/files/usr/bin/tool"), "/usr/bin/alpha/tool".to_string())
    );
    assert_eq!(session.requests().len(), 9);
}

#[test]
fn install_goes_on_when_the_marker_cannot_be_written() {
    let mut replies = vec![failed(FailureKind::PermissionDenied, "no")];
    for _ in 0..5 {
        replies.push(Reply::Flag(false));
    }
    assert_eq!(alpha().install(&mut Session::new(replies)), Some(Ok(())));
}

#[test]
fn install_reports_a_link_error() {
    let replies = vec![
        Reply::Done,
        Reply::Flag(true),
        Reply::Entries(vec![file(&home("/files/usr/bin/tool"))]),
        failed(FailureKind::PermissionDenied, "no"),
    ];
    assert_eq!(alpha().install(&mut Session::new(replies)), Some(Err(BuildError::LinkError)));
}

fn removal_replies() -> Vec<Reply> {
    let mut replies = vec![
        Reply::Flag(true),
        Reply::Entries(vec![file(&home("/files/usr/bin/tool"))]),
        Reply::Done,
        Reply::Flag(false),
        Reply::Flag(false),
        Reply::Flag(false),
        Reply::Flag(false),
    ];
    for _ in 0..7 {
        replies.push(Reply::Flag(true));
        replies.push(Reply::Done);
    }
    replies
}

#[test]
fn remove_binaries_withdraws_and_deletes() {
    let mut session = Session::new(removal_replies());
    assert_eq!(alpha().remove_binaries(&mut session), Some(Ok(())));
    let asked = session.requests();
    assert_eq!(asked[2], Request::RemoveFile("/usr/bin/alpha/tool".to_string()));
    assert_eq!(asked[7], Request::Exists(home("/files/usr/bin")));
    assert_eq!(asked[8], Request::RemoveDirAll(home("/files/usr/bin")));
    assert_eq!(asked[20], Request::RemoveDirAll(home("")));
    assert_eq!(asked.len(), 21);
}

#[test]
fn remove_binaries_reports_no_directory() {
    let mut replies = removal_replies();
    replies[8] = failed(FailureKind::PermissionDenied, "no");
    assert_eq!(
        alpha().remove_binaries(&mut Session::new(replies)),
        Some(Err(ParseError::NoDirectory("NoPermission".to_string())))
    );
    let mut replies = removal_replies();
    replies[8] = failed(FailureKind::NotFound, "gone");
    assert_eq!(
        alpha().remove_binaries(&mut Session::new(replies)),
        Some(Err(ParseError::NoDirectory("FileDeleteError(\"gone\")".to_string())))
    );
}

#[test]
fn uninstall_of_a_package_that_is_not_built_is_not_installed() {
    let replies = vec![Reply::Flag(true), Reply::Entries(vec![])];
    let mut session = Session::new(replies);
    assert_eq!(alpha().uninstall(&mut session), Some(Err(ParseError::NotInstalled)));
    assert_eq!(session.requests().len(), 2);
}

#[test]
fn uninstall_removes_the_links_before_the_files() {
    let mut replies = built_replies();
    replies.extend(removal_replies());
    for _ in 0..7 {
        replies.push(Reply::Flag(false));
    }
    let mut session = Session::new(replies);
    assert_eq!(alpha().uninstall(&mut session), Some(Ok(())));
    let asked = session.requests();
    let unlinked = asked.iter().position(|r| matches!(r, Request::RemoveFile(_))).unwrap();
    let deleted = asked.iter().position(|r| matches!(r, Request::RemoveDirAll(_))).unwrap();
    assert!(unlinked < deleted);
    assert!(asked[deleted..].iter().all(|r| !matches!(r, Request::RemoveFile(_))));
    assert_eq!(asked.len(), 3 + 21 + 7);
}

#[test]
fn uninstall_reports_a_late_failure_as_other() {
    let mut replies = built_replies();
    replies.extend(removal_replies());
    replies.push(Reply::Flag(true));
    replies.push(failed(FailureKind::PermissionDenied, "no"));
    assert_eq!(
        alpha().uninstall(&mut Session::new(replies)),
        Some(Err(ParseError::Other("NoPermission".to_string())))
    );
}

#[test]
fn update_removes_builds_and_installs_in_that_order() {
    let mut replies = removal_replies();
    replies.extend(build_replies());
    replies.push(Reply::Done);
    for _ in 0..5 {
        replies.push(Reply::Flag(false));
    }
    let mut session = Session::new(replies);
    assert_eq!(alpha().update(&mut session), Some(Ok(())));
    let asked = session.requests();
    assert_eq!(asked.len(), 21 + 20 + 6);
    assert_eq!(&asked[21..41], &build_requests()[..]);
    assert_eq!(asked[41], Request::WriteFile(home("/installed"), String::new()));
}

#[test]
fn update_stops_at_the_first_failure() {
    let mut replies = removal_replies();
    replies[8] = failed(FailureKind::Other, "busy");
    let mut session = Session::new(replies);
    assert_eq!(
        alpha().update(&mut session),
        Some(Err(ParseError::NoDirectory("Other(\"busy\")".to_string())))
    );
    assert_eq!(session.requests().len(), 9);

    let mut replies = removal_replies();
    replies.extend(build_replies());
    let n = replies.len();
    replies[n - 2] = failed(FailureKind::NotFound, "no script");
    let mut session = Session::new(replies);
    assert_eq!(alpha().update(&mut session), Some(Err(ParseError::NoInstallScript)));

    let mut replies = removal_replies();
    replies.extend(build_replies());
    replies.push(Reply::Done);
    replies.push(Reply::Flag(true));
    replies.push(Reply::Entries(vec![file(&home("/files/usr/bin/tool"))]));
    replies.push(failed(FailureKind::NotFound, "no parent"));
    let mut session = Session::new(replies);
    assert_eq!(alpha().update(&mut session), Some(Err(ParseError::Other("LinkError".to_string()))));
}
