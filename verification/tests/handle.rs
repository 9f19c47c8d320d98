use pur::error::{ExecuteError, UpdateError};
use pur::handle::{build, find, install, remove, search_line, search_lists, update};
use pur::package::Package;
use pur::repo::Repo;
use pur::session::{DirEntry, EntryKind, Failure, FailureKind, Reply, Request, Session};

fn failed(message: &str) -> Reply {
    Reply::Failed(Failure { kind: FailureKind::Other, message: message.to_string() })
}

fn package(name: &str, depends: &str) -> Package {
    let replies = vec![Reply::Text("1.0".to_string()), Reply::Text(depends.to_string())];
    let mut session = Session::new(replies);
    Package::try_from(format!("/r/{}", name), &mut session).unwrap().unwrap()
}

fn is_built(name: &str) -> Request {
    Request::IsBuilt(name.to_string())
}

fn do_build(name: &str) -> Request {
    Request::Build(name.to_string())
}

fn do_install(name: &str) -> Request {
    Request::Install(name.to_string())
}

#[test]
fn find_gives_the_first_package_of_that_name() {
    let packages = vec![package("a", ""), package("b", ""), package("b", "a")];
    assert_eq!(find(&packages, &"b".to_string()), Some(1));
    assert_eq!(find(&packages, &"a".to_string()), Some(0));
    assert_eq!(find(&packages, &"c".to_string()), None);
}

#[test]
fn install_without_dependencies_builds_and_installs() {
    let alpha = package("alpha", "");
    let packages = vec![package("alpha", "")];
    let mut session = Session::new(vec![Reply::Flag(false), Reply::Done, Reply::Done]);
    assert_eq!(install(&alpha, &packages, &mut session), Some(Ok(())));
    assert_eq!(
        session.requests(),
        &vec![is_built("alpha"), do_build("alpha"), do_install("alpha")]
    );
}

#[test]
fn install_does_not_build_what_is_built() {
    let alpha = package("alpha", "");
    let packages = vec![package("alpha", "")];
    let mut session = Session::new(vec![Reply::Flag(true), Reply::Done]);
    assert_eq!(install(&alpha, &packages, &mut session), Some(Ok(())));
    assert_eq!(session.requests(), &vec![is_built("alpha"), do_install("alpha")]);
}

#[test]
fn install_asks_step_by_step() {
    let alpha = package("alpha", "");
    let packages = vec![package("alpha", "")];
    let mut session = Session::new(vec![]);
    assert_eq!(install(&alpha, &packages, &mut session), None);
    assert_eq!(session.pending(), Some(&is_built("alpha")));
    let mut session = Session::new(vec![Reply::Flag(false)]);
    assert_eq!(install(&alpha, &packages, &mut session), None);
    assert_eq!(session.pending(), Some(&do_build("alpha")));
    let mut session = Session::new(vec![Reply::Flag(false), Reply::Done]);
    assert_eq!(install(&alpha, &packages, &mut session), None);
    assert_eq!(session.pending(), Some(&do_install("alpha")));
}

#[test]
fn install_installs_transitive_dependencies_first() {
    let packages = vec![package("a", "b\n"), package("b", "c\n"), package("c", "")];
    let mut session = Session::new(
        vec![
            Reply::Flag(false),
            Reply::Done,
            Reply::Done,
            Reply::Flag(false),
            Reply::Flag(true),
            Reply::Done,
            Reply::Done,
            Reply::Done,
            Reply::Flag(false),
            Reply::Flag(true),
            Reply::Done,
            Reply::Flag(true),
            Reply::Done,
            Reply::Done,
            Reply::Done,
        ],
    );
    assert_eq!(install(&packages[0], &packages, &mut session), Some(Ok(())));
    assert_eq!(
        session.requests(),
        &vec![
            is_built("c"),
            do_build("c"),
            do_install("c"),
            is_built("b"),
            is_built("c"),
            do_install("c"),
            do_build("b"),
            do_install("b"),
            is_built("a"),
            is_built("c"),
            do_install("c"),
            is_built("b"),
            do_install("b"),
            do_build("a"),
            do_install("a"),
        ]
    );
    let asked = session.requests();
    let first = |r: &Request| asked.iter().position(|x| x == r).unwrap();
    assert!(first(&do_install("c")) < first(&do_install("b")));
    assert!(first(&do_install("b")) < first(&do_install("a")));
    assert!(first(&do_install("c")) < first(&do_build("b")));
    assert!(first(&do_install("b")) < first(&do_build("a")));
    assert!(first(&do_install("c")) < first(&do_build("a")));
    for name in ["a", "b", "c"] {
        assert_eq!(asked.iter().filter(|r| **r == do_build(name)).count(), 1);
    }
}

#[test]
fn install_takes_dependencies_in_the_order_of_the_list() {
    let packages = vec![package("a", "y\nx\n"), package("x", ""), package("y", "")];
    let replies = vec![Reply::Flag(true), Reply::Done, Reply::Flag(true), Reply::Done, Reply::Flag(true), Reply::Done];
    let mut session = Session::new(replies);
    assert_eq!(install(&packages[0], &packages, &mut session), Some(Ok(())));
    assert_eq!(
        session.requests(),
        &vec![is_built("y"), do_install("y"), is_built("x"), do_install("x"), is_built("a"), do_install("a")]
    );
}

#[test]
fn install_with_a_missing_dependency_makes_nothing() {
    let a = package("a", "zzz\n");
    let packages = vec![package("a", "zzz\n")];
    let mut session = Session::new(vec![]);
    assert_eq!(install(&a, &packages, &mut session), Some(Err(ExecuteError::NoDependFound)));
    assert!(session.requests().is_empty());
}

#[test]
fn install_finds_a_missing_dependency_only_when_it_gets_there() {
    let packages = vec![package("a", "b\nzzz\n"), package("b", "")];
    let mut session = Session::new(vec![Reply::Flag(true), Reply::Done]);
    assert_eq!(install(&packages[0], &packages, &mut session), Some(Err(ExecuteError::NoDependFound)));
    assert_eq!(session.requests(), &vec![is_built("b"), do_install("b")]);
}

#[test]
fn install_reports_a_failed_step_as_compile_fail() {
    let packages = vec![package("a", "b\n"), package("b", "")];
    let mut session = Session::new(vec![Reply::Flag(false), failed("no compiler")]);
    assert_eq!(install(&packages[0], &packages, &mut session), Some(Err(ExecuteError::CompileFail)));
    assert_eq!(session.requests(), &vec![is_built("b"), do_build("b")]);
    let mut session = Session::new(vec![Reply::Flag(true), failed("no link")]);
    assert_eq!(install(&packages[0], &packages, &mut session), Some(Err(ExecuteError::CompileFail)));
    assert_eq!(session.requests(), &vec![is_built("b"), do_install("b")]);
}

#[test]
fn install_of_a_cycle_ends() {
    let packages = vec![package("a", "b\n"), package("b", "a\n")];
    let mut session = Session::new(vec![]);
    assert_eq!(install(&packages[0], &packages, &mut session), Some(Err(ExecuteError::CyclicDepend)));
    assert!(session.requests().is_empty());
    let packages = vec![package("a", "a\n")];
    let mut session = Session::new(vec![]);
    assert_eq!(build(&packages[0], &packages, &mut session), Some(Err(ExecuteError::CyclicDepend)));
}

#[test]
fn install_of_the_longest_chain_is_no_cycle() {
    let packages = vec![package("a", "b\n"), package("b", "c\n"), package("c", "d\n"), package("d", "")];
    let mut replies = Vec::new();
    for _ in 0..32 {
        replies.push(Reply::Flag(true));
        replies.push(Reply::Done);
    }
    let mut session = Session::new(replies);
    assert_eq!(install(&packages[0], &packages, &mut session), Some(Ok(())));
    assert_eq!(session.requests().last(), Some(&do_install("a")));
}

#[test]
fn build_installs_the_dependencies_and_builds_the_target() {
    let packages = vec![package("a", "b\n"), package("b", "")];
    let mut session = Session::new(vec![Reply::Flag(false), Reply::Done, Reply::Done, Reply::Done]);
    assert_eq!(build(&packages[0], &packages, &mut session), Some(Ok(())));
    assert_eq!(
        session.requests(),
        &vec![is_built("b"), do_build("b"), do_install("b"), do_build("a")]
    );
}

#[test]
fn build_reports_compile_fail() {
    let packages = vec![package("a", "")];
    let mut session = Session::new(vec![failed("broke")]);
    assert_eq!(build(&packages[0], &packages, &mut session), Some(Err(ExecuteError::CompileFail)));
}

#[test]
fn remove_asks_for_the_uninstall() {
    let a = package("a", "");
    let mut session = Session::new(vec![Reply::Done]);
    assert_eq!(remove(&a, &mut session), Some(Ok(())));
    assert_eq!(session.requests(), &vec![Request::Uninstall("a".to_string())]);
    let mut session = Session::new(vec![failed("not installed")]);
    assert_eq!(remove(&a, &mut session), Some(Err(ExecuteError::UninstallFail)));
}

#[test]
fn update_goes_on_after_a_package_that_fails() {
    let entry = |p: &str, kind: EntryKind| DirEntry { path: p.to_string(), kind };
    let text = |t: &str| Reply::Text(t.to_string());
    let mut replies = vec![Reply::Flag(true), text("/"), Reply::Done, Reply::Done, Reply::Done, Reply::Done];
    replies.push(Reply::Entries(vec![entry("/r/a", EntryKind::Directory), entry("/r/b", EntryKind::Directory)]));
    replies.extend(vec![text("2"), text(""), text("2"), text("")]);
    for name in ["a", "b"] {
        replies.push(Reply::Flag(true));
        replies.push(Reply::Entries(vec![entry(&format!("/var/db/installed/{}", name), EntryKind::Directory)]));
        replies.push(text("1"));
        replies.push(Reply::Entries(vec![entry(&format!("/var/db/installed/{}/installed", name), EntryKind::File)]));
        replies.push(failed("broke"));
    }
    let mut session = Session::new(replies);
    assert_eq!(update(&Repo::from("/r".to_string()), &mut session), Some(Ok(())));
    let updates = session.requests().iter().filter(|r| matches!(r, Request::Update(_, _))).count();
    assert_eq!(updates, 2);
}

#[test]
fn update_without_a_script_is_no_update_script() {
    let mut session = Session::new(vec![Reply::Flag(false)]);
    assert_eq!(
        update(&Repo::from("/r".to_string()), &mut session),
        Some(Err(UpdateError::NoUpdateScript))
    );
}

#[test]
fn search_filters_by_installation_and_prefix() {
    let alpha = package("alpha", "");
    let beta = package("beta", "");
    let al = "al".to_string();
    assert!(search_lists(&alpha, true, true, None));
    assert!(!search_lists(&beta, false, true, None));
    assert!(search_lists(&alpha, true, false, Some(&al)));
    assert!(!search_lists(&beta, false, false, Some(&al)));
    assert!(search_lists(&beta, false, false, None));
    assert!(!search_lists(&alpha, false, true, Some(&al)));
}

#[test]
fn search_line_names_version_and_state() {
    assert_eq!(search_line(&package("alpha", ""), true), "alpha v1.0 [installed]");
    assert_eq!(search_line(&package("beta", ""), false), "beta v1.0");
}

#[test]
fn install_with_a_dependency_named_twice_works_twice() {
    let packages = vec![package("a", "b\nb\n"), package("b", "")];
    let replies = vec![
        Reply::Flag(false),
        Reply::Done,
        Reply::Done,
        Reply::Flag(true),
        Reply::Done,
        Reply::Flag(true),
        Reply::Done,
    ];
    let mut session = Session::new(replies);
    assert_eq!(install(&packages[0], &packages, &mut session), Some(Ok(())));
    assert_eq!(
        session.requests(),
        &vec![
            is_built("b"),
            do_build("b"),
            do_install("b"),
            is_built("b"),
            do_install("b"),
            is_built("a"),
            do_install("a"),
        ]
    );
}

#[test]
fn install_of_a_cycle_behind_a_dependency_ends_after_it() {
    let packages = vec![package("a", "b\nc\n"), package("b", ""), package("c", "d\n"), package("d", "c\n")];
    let mut session = Session::new(vec![Reply::Flag(true), Reply::Done]);
    assert_eq!(install(&packages[0], &packages, &mut session), Some(Err(ExecuteError::CyclicDepend)));
    assert_eq!(session.requests(), &vec![is_built("b"), do_install("b")]);
}
