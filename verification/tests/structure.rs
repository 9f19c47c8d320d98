use pur::error::FileStructureError;
use pur::session::{DirEntry, EntryKind, Failure, FailureKind, Reply, Request, Session};
use pur::structure::{
    do_recursive, guard, link_target, place_entries, symlink, FileStructure, InstallFileStructure, Linker,
    Unlinker, Visitor,
};

fn probe(path: &str) -> Request {
    Request::Exists(path.to_string())
}

fn failed(kind: FailureKind, message: &str) -> Reply {
    Reply::Failed(Failure { kind, message: message.to_string() })
}

fn file(path: &str) -> DirEntry {
    DirEntry { path: path.to_string(), kind: EntryKind::File }
}

fn dir(path: &str) -> DirEntry {
    DirEntry { path: path.to_string(), kind: EntryKind::Directory }
}

fn other(path: &str) -> DirEntry {
    DirEntry { path: path.to_string(), kind: EntryKind::Other }
}

const FILES: &str = "/var/db/installed/pfetch/files";

fn paths() -> Vec<String> {
    vec![
        format!("{}/usr/bin", FILES),
        format!("{}/usr/lib", FILES),
        format!("{}/usr/lib64", FILES),
        format!("{}/usr/sbin", FILES),
        format!("{}/usr/linuxrc", FILES),
        FILES.to_string(),
        "/var/db/installed/pfetch".to_string(),
    ]
}

#[test]
fn new_keeps_the_id() {
    assert_eq!(InstallFileStructure::new("pfetch").id(), "pfetch");
}

#[test]
fn get_path_bufs_lists_subtrees_then_parent_then_its_parent() {
    assert_eq!(InstallFileStructure::new("pfetch").get_path_bufs(), paths());
}

#[test]
fn get_children_pairs_each_subtree_with_its_path() {
    let expected: Vec<(String, String)> = ["usr/bin", "usr/lib", "usr/lib64", "usr/sbin", "usr/linuxrc"]
        .iter()
        .map(|sub| (format!("{}/{}", FILES, sub), sub.to_string()))
        .collect();
    assert_eq!(InstallFileStructure::new("pfetch").get_children(), expected);
}

#[test]
fn clone_keeps_the_structure() {
    let structure = InstallFileStructure::new("pfetch");
    let copy = structure.clone();
    assert_eq!(copy.id(), "pfetch");
    assert_eq!(copy.get_path_bufs(), paths());
}

#[test]
fn create_all_without_replies_asks_for_the_first_directory() {
    let mut session = Session::new(vec![]);
    assert_eq!(InstallFileStructure::new("pfetch").create_all(&mut session), None);
    assert_eq!(session.pending(), Some(&probe(&paths()[0])));
    assert_eq!(session.requests(), &vec![probe(&paths()[0])]);
}

#[test]
fn create_all_makes_what_is_missing() {
    let mut replies = Vec::new();
    let mut expected = Vec::new();
    for path in paths() {
        replies.push(Reply::Flag(false));
        replies.push(Reply::Done);
        expected.push(probe(&path));
        expected.push(Request::CreateDirAll(path));
    }
    let mut session = Session::new(replies);
    assert_eq!(InstallFileStructure::new("pfetch").create_all(&mut session), Some(Ok(())));
    assert_eq!(session.requests(), &expected);
    assert_eq!(session.pending(), None);
}

#[test]
fn create_all_twice_makes_nothing_the_second_time() {
    let replies = paths().iter().map(|_| Reply::Flag(true)).collect();
    let expected: Vec<Request> = paths().iter().map(|p| probe(p)).collect();
    let mut session = Session::new(replies);
    assert_eq!(InstallFileStructure::new("pfetch").create_all(&mut session), Some(Ok(())));
    assert_eq!(session.requests(), &expected);
}

#[test]
fn create_all_passes_over_a_directory_made_meanwhile() {
    let mut replies = vec![Reply::Flag(false), failed(FailureKind::AlreadyExists, "there")];
    for _ in 1..7 {
        replies.push(Reply::Flag(true));
    }
    let mut session = Session::new(replies);
    assert_eq!(InstallFileStructure::new("pfetch").create_all(&mut session), Some(Ok(())));
    assert_eq!(session.requests().len(), 8);
}

#[test]
fn create_all_stops_at_the_first_refusal() {
    let replies = vec![Reply::Flag(true), Reply::Flag(false), failed(FailureKind::PermissionDenied, "no")];
    let mut session = Session::new(replies);
    assert_eq!(
        InstallFileStructure::new("pfetch").create_all(&mut session),
        Some(Err(FileStructureError::NoPermission))
    );
    assert_eq!(
        session.requests(),
        &vec![probe(&paths()[0]), probe(&paths()[1]), Request::CreateDirAll(paths()[1].clone())]
    );
    let replies = vec![Reply::Flag(false), failed(FailureKind::Other, "disk full")];
    let mut session = Session::new(replies);
    assert_eq!(
        InstallFileStructure::new("pfetch").create_all(&mut session),
        Some(Err(FileStructureError::Other("disk full".to_string())))
    );
}

#[test]
fn delete_all_removes_what_is_there() {
    let mut replies = vec![Reply::Flag(true), Reply::Done, Reply::Flag(false)];
    let mut expected = vec![probe(&paths()[0]), Request::RemoveDirAll(paths()[0].clone()), probe(&paths()[1])];
    for path in &paths()[2..] {
        replies.push(Reply::Flag(true));
        replies.push(Reply::Done);
        expected.push(probe(path));
        expected.push(Request::RemoveDirAll(path.clone()));
    }
    let mut session = Session::new(replies);
    assert_eq!(InstallFileStructure::new("pfetch").delete_all(&mut session), Some(Ok(())));
    assert_eq!(session.requests(), &expected);
}

#[test]
fn delete_all_of_nothing_is_no_error() {
    let replies = paths().iter().map(|_| Reply::Flag(false)).collect();
    let mut session = Session::new(replies);
    assert_eq!(InstallFileStructure::new("pfetch").delete_all(&mut session), Some(Ok(())));
    assert_eq!(session.requests().len(), 7);
}

#[test]
fn delete_all_classes_a_failure() {
    let replies = vec![Reply::Flag(true), failed(FailureKind::NotFound, "gone")];
    let mut session = Session::new(replies);
    assert_eq!(
        InstallFileStructure::new("pfetch").delete_all(&mut session),
        Some(Err(FileStructureError::FileDeleteError("gone".to_string())))
    );
}

#[test]
fn move_all_copies_each_subtree_that_exists() {
    let replies = vec![
        Reply::Flag(true),
        Reply::Done,
        Reply::Flag(false),
        Reply::Flag(false),
        Reply::Flag(true),
        Reply::Done,
        Reply::Flag(false),
    ];
    let mut session = Session::new(replies);
    let target = "/mnt/root".to_string();
    assert_eq!(InstallFileStructure::new("pfetch").move_all(&target, &mut session), Some(Ok(())));
    assert_eq!(
        session.requests(),
        &vec![
            probe(&paths()[0]),
            Request::Copy(paths()[0].clone(), "/mnt/root/usr/bin".to_string()),
            probe(&paths()[1]),
            probe(&paths()[2]),
            probe(&paths()[3]),
            Request::Copy(paths()[3].clone(), "/mnt/root/usr/sbin".to_string()),
            probe(&paths()[4]),
        ]
    );
}

#[test]
fn move_all_reports_a_copy_error() {
    let replies = vec![Reply::Flag(true), failed(FailureKind::PermissionDenied, "no")];
    let mut session = Session::new(replies);
    let target = "/mnt/root".to_string();
    assert_eq!(
        InstallFileStructure::new("pfetch").move_all(&target, &mut session),
        Some(Err(FileStructureError::FileCopyError("no".to_string())))
    );
}

#[test]
fn guard_acts_only_on_the_wanted_answer() {
    let path = "/x".to_string();
    let mut session = Session::new(vec![Reply::Flag(true)]);
    assert_eq!(guard(&path, false, Request::CreateDirAll(path.clone()), &mut session), Some(Ok(())));
    assert_eq!(session.requests().len(), 1);
    let mut session = Session::new(vec![Reply::Flag(true), Reply::Done]);
    assert_eq!(guard(&path, true, Request::RemoveFile(path.clone()), &mut session), Some(Ok(())));
    assert_eq!(session.requests(), &vec![probe("/x"), Request::RemoveFile(path.clone())]);
    let mut session = Session::new(vec![Reply::Flag(true)]);
    assert_eq!(guard(&path, true, Request::RemoveFile(path.clone()), &mut session), None);
}

#[test]
fn link_target_lies_below_the_links_as_the_file_lies_below_the_subtree() {
    let root = format!("{}/usr/bin", FILES);
    let links = "/usr/bin/pfetch".to_string();
    assert_eq!(link_target(&root, &links, &format!("{}/usr/bin/pfetch", FILES)), "/usr/bin/pfetch/pfetch");
    assert_eq!(
        link_target(&root, &links, &format!("{}/usr/bin/data/logo", FILES)),
        "/usr/bin/pfetch/data/logo"
    );
    assert_eq!(link_target(&root, &links, &"/elsewhere/tool".to_string()), "/usr/bin/pfetch/tool");
}

#[test]
fn place_entries_puts_each_entry_below_the_directory() {
    let placed = place_entries(&"/s/d".to_string(), &vec![file("/s/d/a"), dir("/x/y/b"), other("c"), file("/s/d/e/")]);
    assert_eq!(placed, vec![file("/s/d/a"), dir("/s/d/b"), other("/s/d/c"), file("/s/d/")]);
}

#[test]
fn link_targets_of_two_files_differ() {
    let root = "/s".to_string();
    let links = "/usr/bin/p".to_string();
    let files = ["/s/a", "/s/b", "/s/d/a", "/s/d/b", "/s/e/a", "/s/d/e/a"];
    for one in files {
        for other in files {
            let same = link_target(&root, &links, &one.to_string()) == link_target(&root, &links, &other.to_string());
            assert_eq!(same, one == other);
        }
    }
}

#[test]
fn symlink_asks_for_the_link() {
    let mut session = Session::new(vec![failed(FailureKind::NotFound, "no parent")]);
    let out = symlink(&"/a/file".to_string(), &"/usr/bin/x".to_string(), &mut session);
    assert_eq!(out, Some(Err(Failure { kind: FailureKind::NotFound, message: "no parent".to_string() })));
    assert_eq!(
        session.requests(),
        &vec![Request::Symlink("/a/file".to_string(), "/usr/bin/x".to_string())]
    );
}

fn linker() -> Linker {
    Linker { root: "/s".to_string(), dir: "/usr/bin/p".to_string() }
}

fn unlinker() -> Unlinker {
    Unlinker { root: "/s".to_string(), dir: "/usr/lib/p".to_string() }
}

fn link(file: &str, at: &str) -> Vec<Request> {
    let above = at.rsplit_once('/').unwrap().0.to_string();
    vec![Request::CreateDirAll(above), Request::Symlink(file.to_string(), at.to_string())]
}

#[test]
fn do_recursive_visits_files_depth_first_in_listing_order() {
    let replies = vec![
        Reply::Entries(vec![file("/s/a"), dir("/s/d"), other("/s/link"), file("/s/z")]),
        Reply::Done,
        Reply::Done,
        Reply::Entries(vec![file("/s/d/inner"), dir("/s/d/e")]),
        Reply::Done,
        Reply::Done,
        Reply::Entries(vec![]),
        Reply::Done,
        Reply::Done,
    ];
    let mut session = Session::new(replies);
    assert_eq!(do_recursive(&"/s".to_string(), &linker(), &mut session), Some(Ok(())));
    let mut expected = vec![Request::ReadDir("/s".to_string())];
    expected.extend(link("/s/a", "/usr/bin/p/a"));
    expected.push(Request::ReadDir("/s/d".to_string()));
    expected.extend(link("/s/d/inner", "/usr/bin/p/d/inner"));
    expected.push(Request::ReadDir("/s/d/e".to_string()));
    expected.extend(link("/s/z", "/usr/bin/p/z"));
    assert_eq!(session.requests(), &expected);
}

#[test]
fn do_recursive_recurses_into_the_directory_it_found() {
    let replies = vec![
        Reply::Entries(vec![dir("/s/d")]),
        Reply::Entries(vec![file("/s/d/f")]),
        Reply::Done,
    ];
    let mut session = Session::new(replies);
    assert_eq!(do_recursive(&"/s".to_string(), &unlinker(), &mut session), Some(Ok(())));
    assert_eq!(
        session.requests(),
        &vec![
            Request::ReadDir("/s".to_string()),
            Request::ReadDir("/s/d".to_string()),
            Request::RemoveFile("/usr/lib/p/d/f".to_string()),
        ]
    );
}

#[test]
fn do_recursive_takes_each_entry_under_its_name_below_the_directory() {
    let replies = vec![
        Reply::Entries(vec![file("/elsewhere/a"), file("a2"), dir("/other/d")]),
        Reply::Done,
        Reply::Done,
        Reply::Done,
        Reply::Done,
        Reply::Entries(vec![file("/s/a")]),
        Reply::Done,
        Reply::Done,
    ];
    let mut session = Session::new(replies);
    assert_eq!(do_recursive(&"/s".to_string(), &linker(), &mut session), Some(Ok(())));
    let mut expected = vec![Request::ReadDir("/s".to_string())];
    expected.extend(link("/s/a", "/usr/bin/p/a"));
    expected.extend(link("/s/a2", "/usr/bin/p/a2"));
    expected.push(Request::ReadDir("/s/d".to_string()));
    expected.extend(link("/s/d/a", "/usr/bin/p/d/a"));
    assert_eq!(session.requests(), &expected);
}

#[test]
fn do_recursive_stops_when_the_visitor_fails() {
    let replies = vec![
        Reply::Entries(vec![file("/s/a"), file("/s/b"), file("/s/c")]),
        Reply::Done,
        Reply::Done,
        Reply::Done,
        failed(FailureKind::PermissionDenied, "no"),
        Reply::Done,
        Reply::Done,
    ];
    let mut session = Session::new(replies);
    assert_eq!(
        do_recursive(&"/s".to_string(), &linker(), &mut session),
        Some(Err(FileStructureError::SymLinkError("no".to_string())))
    );
    assert_eq!(session.requests().len(), 5);
    assert_eq!(session.requests().last(), Some(&Request::Symlink("/s/b".to_string(), "/usr/bin/p/b".to_string())));
}

#[test]
fn do_recursive_takes_an_unreadable_directory_for_empty() {
    let mut session = Session::new(vec![failed(FailureKind::NotFound, "gone")]);
    assert_eq!(do_recursive(&"/s".to_string(), &linker(), &mut session), Some(Ok(())));
    assert_eq!(session.requests(), &vec![Request::ReadDir("/s".to_string())]);
}

#[test]
fn do_recursive_waits_for_the_listing() {
    let mut session = Session::new(vec![]);
    assert_eq!(do_recursive(&"/s".to_string(), &linker(), &mut session), None);
    assert_eq!(session.pending(), Some(&Request::ReadDir("/s".to_string())));
}

#[test]
fn linker_makes_the_directory_of_the_link_first() {
    let mut session = Session::new(vec![Reply::Done, Reply::Done]);
    assert_eq!(linker().visit(&"/s/bin/a".to_string(), &mut session), Some(Ok(())));
    assert_eq!(session.requests(), &link("/s/bin/a", "/usr/bin/p/bin/a"));
    let mut session = Session::new(vec![]);
    assert_eq!(linker().visit(&"/s/a".to_string(), &mut session), None);
    assert_eq!(session.pending(), Some(&Request::CreateDirAll("/usr/bin/p".to_string())));
}

#[test]
fn linker_counts_what_stands_as_made() {
    let there = || failed(FailureKind::AlreadyExists, "there");
    let mut session = Session::new(vec![there(), there()]);
    assert_eq!(linker().visit(&"/s/bin/a".to_string(), &mut session), Some(Ok(())));
    assert_eq!(session.requests().len(), 2);
}

#[test]
fn linker_reports_a_refused_directory_as_a_link_error() {
    let mut session = Session::new(vec![failed(FailureKind::PermissionDenied, "read-only"), Reply::Done]);
    assert_eq!(
        linker().visit(&"/s/bin/a".to_string(), &mut session),
        Some(Err(FileStructureError::SymLinkError("read-only".to_string())))
    );
    assert_eq!(session.requests().len(), 1);
}

#[test]
fn linker_reports_a_refused_link() {
    for kind in [FailureKind::NotFound, FailureKind::PermissionDenied, FailureKind::Other] {
        let mut session = Session::new(vec![Reply::Done, failed(kind, "no")]);
        assert_eq!(
            linker().visit(&"/s/bin/a".to_string(), &mut session),
            Some(Err(FileStructureError::SymLinkError("no".to_string())))
        );
    }
}

#[test]
fn unlinker_does_not_mind_a_missing_link() {
    let mut session = Session::new(vec![failed(FailureKind::NotFound, "gone")]);
    assert_eq!(unlinker().visit(&"/s/bin/a".to_string(), &mut session), Some(Ok(())));
    assert_eq!(session.requests(), &vec![Request::RemoveFile("/usr/lib/p/bin/a".to_string())]);
}

fn sandbox_replies(link_reply: Option<fn() -> Reply>) -> Vec<Reply> {
    let mut replies = vec![
        Reply::Flag(true),
        Reply::Entries(vec![
            file(&format!("{}/usr/bin/pfetch", FILES)),
            file(&format!("{}/usr/bin/pfetch-doctor", FILES)),
            dir(&format!("{}/usr/bin/data", FILES)),
        ]),
    ];
    for _ in 0..2 {
        if let Some(reply) = link_reply {
            replies.push(Reply::Done);
            replies.push(reply());
        } else {
            replies.push(Reply::Done);
        }
    }
    replies.push(Reply::Entries(vec![file(&format!("{}/usr/bin/data/logo", FILES))]));
    if let Some(reply) = link_reply {
        replies.push(Reply::Done);
        replies.push(reply());
    } else {
        replies.push(Reply::Done);
    }
    replies.extend(vec![
        Reply::Flag(false),
        Reply::Flag(true),
        Reply::Entries(vec![]),
        Reply::Flag(false),
        Reply::Flag(false),
    ]);
    replies
}

#[test]
fn symlink_out_scope_links_every_file_of_every_subtree() {
    let mut session = Session::new(sandbox_replies(Some(|| Reply::Done)));
    assert_eq!(InstallFileStructure::new("pfetch").symlink_out_scope(&mut session), Some(Ok(())));
    let mut expected = vec![probe(&paths()[0]), Request::ReadDir(paths()[0].clone())];
    expected.extend(link(&format!("{}/usr/bin/pfetch", FILES), "/usr/bin/pfetch/pfetch"));
    expected.extend(link(&format!("{}/usr/bin/pfetch-doctor", FILES), "/usr/bin/pfetch/pfetch-doctor"));
    expected.push(Request::ReadDir(format!("{}/usr/bin/data", FILES)));
    expected.extend(link(&format!("{}/usr/bin/data/logo", FILES), "/usr/bin/pfetch/data/logo"));
    expected.extend(vec![
        probe(&paths()[1]),
        probe(&paths()[2]),
        Request::ReadDir(paths()[2].clone()),
        probe(&paths()[3]),
        probe(&paths()[4]),
    ]);
    assert_eq!(session.requests(), &expected);
}

#[test]
fn symlink_out_scope_gives_two_files_of_one_directory_a_link_each() {
    let mut session = Session::new(sandbox_replies(Some(|| Reply::Done)));
    assert_eq!(InstallFileStructure::new("pfetch").symlink_out_scope(&mut session), Some(Ok(())));
    let mut places: Vec<&String> = session
        .requests()
        .iter()
        .filter_map(|r| match r {
            Request::Symlink(_, at) => Some(at),
            _ => None,
        })
        .collect();
    assert_eq!(places.len(), 3);
    places.sort();
    places.dedup();
    assert_eq!(places.len(), 3);
}

#[test]
fn symlink_out_scope_twice_is_no_error() {
    let mut session = Session::new(sandbox_replies(Some(|| failed(FailureKind::AlreadyExists, "there"))));
    assert_eq!(InstallFileStructure::new("pfetch").symlink_out_scope(&mut session), Some(Ok(())));
    assert_eq!(session.requests().len(), 14);
}

#[test]
fn symlink_out_scope_reports_a_link_error() {
    let replies = vec![
        Reply::Flag(true),
        Reply::Entries(vec![file(&format!("{}/usr/bin/pfetch", FILES)), file(&format!("{}/usr/bin/more", FILES))]),
        Reply::Done,
        failed(FailureKind::NotFound, "no such directory"),
        Reply::Done,
        Reply::Done,
    ];
    let mut session = Session::new(replies);
    assert_eq!(
        InstallFileStructure::new("pfetch").symlink_out_scope(&mut session),
        Some(Err(FileStructureError::SymLinkError("no such directory".to_string())))
    );
    assert_eq!(session.requests().len(), 4);
}

#[test]
fn remove_symlinks_removes_the_links_that_symlink_out_scope_makes() {
    let structure = InstallFileStructure::new("pfetch");
    let mut linking = Session::new(sandbox_replies(Some(|| Reply::Done)));
    assert_eq!(structure.symlink_out_scope(&mut linking), Some(Ok(())));
    let mut removing = Session::new(sandbox_replies(None));
    assert_eq!(structure.remove_symlinks(&mut removing), Some(Ok(())));
    let expected: Vec<Request> = linking
        .requests()
        .iter()
        .filter_map(|r| match r {
            Request::CreateDirAll(_) => None,
            Request::Symlink(_, at) => Some(Request::RemoveFile(at.clone())),
            Request::Exists(p) => Some(Request::Exists(p.clone())),
            Request::ReadDir(p) => Some(Request::ReadDir(p.clone())),
            _ => unreachable!("a projection asks for nothing else"),
        })
        .collect();
    assert_eq!(removing.requests(), &expected);
    assert_eq!(expected.iter().filter(|r| matches!(r, Request::RemoveFile(_))).count(), 3);
}
